//! Where a text is fetched from.

use vstd::prelude::*;

use crate::text::{has_prefix, law_contains_is_in_the_middle, owned, starts_with, without_prefix};

verus! {

/// Where a URL leads.
#[derive(Debug, Clone, PartialEq, Eq)]
pub enum Origin {
    /// A file, by its path.
    File(String),
    /// A server, by the URL.
    Web(String),
}

/// An [`Origin`] as character sequences.
pub enum OriginView {
    File(Seq<char>),
    Web(Seq<char>),
}

impl View for Origin {
    type V = OriginView;

    open spec fn view(&self) -> OriginView {
        match self {
            Origin::File(p) => OriginView::File(p@),
            Origin::Web(u) => OriginView::Web(u@),
        }
    }
}

/// Where a URL leads: what follows `file://` is a path, `http://` and
/// `https://` name a server, and anything else is a path as it stands.
pub open spec fn origin(url: Seq<char>) -> OriginView {
    if starts_with(url, "file://"@) {
        OriginView::File(url.skip("file://"@.len() as int))
    } else if starts_with(url, "http://"@) || starts_with(url, "https://"@) {
        OriginView::Web(url)
    } else {
        OriginView::File(url)
    }
}

/// Where a URL leads.
pub fn origin_of(url: &str) -> (r: Origin)
    ensures
        r@ == origin(url@),
{
    match without_prefix(url, "file://") {
        Some(path) => Origin::File(path),
        None => if has_prefix(url, "http://") || has_prefix(url, "https://") {
            Origin::Web(owned(url))
        } else {
            Origin::File(owned(url))
        },
    }
}

/// What follows `file://` is a path, and a URL that begins with `http://` or
/// `https://` names a server; a text that begins with none of them is a path
/// as it stands.
pub proof fn law_scheme_decides(rest: Seq<char>, url: Seq<char>)
    ensures
        origin("file://"@ + rest) == OriginView::File(rest),
        origin("http://"@ + rest) == OriginView::Web("http://"@ + rest),
        origin("https://"@ + rest) == OriginView::Web("https://"@ + rest),
        !"file://"@.is_prefix_of(url) && !"http://"@.is_prefix_of(url)
            && !"https://"@.is_prefix_of(url) ==> origin(url) == OriginView::File(url),
{
    let a = "file://"@ + rest;
    let b = "http://"@ + rest;
    let c = "https://"@ + rest;
    reveal_strlit("file://");
    reveal_strlit("http://");
    reveal_strlit("https://");
    law_contains_is_in_the_middle(a, "file://"@);
    law_contains_is_in_the_middle(b, "http://"@);
    law_contains_is_in_the_middle(c, "https://"@);
    law_contains_is_in_the_middle(url, "file://"@);
    law_contains_is_in_the_middle(url, "http://"@);
    law_contains_is_in_the_middle(url, "https://"@);
    assert(a.take(7) =~= "file://"@);
    assert(b.take(7) =~= "http://"@);
    assert(c.take(8) =~= "https://"@);
    assert(a.skip(7) =~= rest);
    assert(b[0] == 'h' && c[0] == 'h');
    if starts_with(b, "file://"@) {
        assert(b.subrange(0, 7)[0] == 'f');
    }
    if starts_with(c, "file://"@) {
        assert(c.subrange(0, 7)[0] == 'f');
    }
}

} // verus!
