//! Taking addresses back out of the `.conf` files.
//!
//! The list is what the owner wants in the tunnel; the files are what is in
//! it. Removing a group from the list is not enough when its addresses are
//! already written: they have to come out of the files too. What is removed
//! is a set of entries, matched one by one, so that an `AllowedIPs` line with
//! three addresses loses one and keeps two.
//!
//! Each line loses its own entries: a peer never gets the routes of another,
//! and a line that names none of them keeps its text to the byte. An empty
//! result is never written: `AllowedIPs =` with nothing after it is a config
//! that routes nothing. A file with a line that would be left with nothing is
//! reported and left alone as a whole, since half a removal is worse than
//! none.
//!
//! `10.1.2.3` and `10.1.2.3/32` are one route, so the prefix length of a
//! single host does not count in the comparison. Any other prefix length
//! does: `10.0.0.0/8` is another route than `10.0.0.0/32`.

use vstd::prelude::*;

use crate::address::{
    ip, is_address_char, is_ip_or_network, law_colons_show_the_family, lemma_address_chars,
};
use crate::apply::{
    all_written, begun, count, lemma_second_pass, pass_over, plan, removed_total, stated_total,
    text_after, texts_after, Job, JobView, Kind, Pass, Plan, PlanView,
};
use crate::hosts::{
    all_entries, entries, entry, host_ref_views, law_entries_follow_the_hosts, members, Error, Host,
    HostStore, HostView, Result,
};
use crate::list::{add_text, copied, lemma_add_missing, unique};
use crate::text::{
    all_digits, chars_of, contains_char, decimal, digits_value, ends_with, eq_ignore_case, has_char,
    has_member, is_digit, is_piece, is_white_space, join, joined, law_split_cuts_at_separators,
    law_trim_takes_white_space, lemma_decimal, lemma_join_front, lemma_joined_chars, lemma_pieces,
    lemma_pieces_after, lemma_pieces_of_joined, lemma_pieces_of_one, lemma_split_join,
    lemma_texts_push, lemma_trim, lemma_trim_start, nonblank_pieces, owned, pieces, splitted,
    string_of, texts, trim, trim_end, trim_start, trimmed, without_suffix, Class,
};
use crate::wgconf::{
    conf, has_allowed_ips_line, is_allowed_ips, law_key_decides_the_line, law_lines_with_a_value,
    lemma_line_of_rewritten, lemma_raw_lines, lemma_trim_of_padded, lemma_value_chars, line,
    line_text, line_value, line_with_value, raw_lines, value_of, values, with_value, LineView,
    WgConfig,
};

verus! {

// ---------------------------------------------------------------------------
// What is removed
// ---------------------------------------------------------------------------

/// The prefix length that makes a route of a single address.
pub open spec fn host_prefix(entry: Seq<char>) -> Seq<char> {
    if contains_char(entry, ':') {
        "/128"@
    } else {
        "/32"@
    }
}

/// An entry in the form that is compared: trimmed, and without the prefix
/// length of a single host.
pub open spec fn bare_address(entry: Seq<char>) -> Seq<char> {
    let t = trim(entry);
    let p = host_prefix(t);
    if ends_with(t, p) {
        trim(t.take(t.len() - p.len()))
    } else {
        t
    }
}

/// An entry in the form that is compared: trimmed, and without `/32` for
/// IPv4 or `/128` for IPv6.
pub fn bare(entry: &str) -> (r: String)
    ensures
        r@ == bare_address(entry@),
{
    let t = trimmed(entry);
    let p: &str = if has_char(t.as_str(), ':') {
        "/128"
    } else {
        "/32"
    };
    match without_suffix(t.as_str(), p) {
        Some(a) => trimmed(a.as_str()),
        None => t,
    }
}

/// The addresses of entries, in order, without those that have none.
pub open spec fn address_parts(entries: Seq<Seq<char>>) -> Seq<Seq<char>>
    decreases entries.len(),
{
    if entries.len() == 0 {
        Seq::empty()
    } else if bare_address(entries.last()).len() == 0 {
        address_parts(entries.drop_last())
    } else {
        address_parts(entries.drop_last()).push(bare_address(entries.last()))
    }
}

/// The entries that stand for a host in a config: those of its cached
/// addresses, or its target when it has none and the target is an address.
pub open spec fn routes(h: HostView) -> Seq<Seq<char>> {
    if h.ips.len() == 0 && is_ip_or_network(h.target) {
        seq![h.target]
    } else {
        entries(h.ips)
    }
}

/// A set of addresses to remove, in the form the files are compared in.
#[derive(Debug)]
pub struct Removals {
    addrs: Vec<String>,
}

impl View for Removals {
    type V = Set<Seq<char>>;

    closed spec fn view(&self) -> Set<Seq<char>> {
        texts(self.addrs@).to_set()
    }
}

impl Default for Removals {
    fn default() -> (r: Self)
        ensures
            r@ == Set::<Seq<char>>::empty(),
    {
        let r = Removals { addrs: Vec::new() };
        assert(r@ =~= Set::<Seq<char>>::empty());
        r
    }
}

impl Removals {
    #[verifier::type_invariant]
    spec fn holds_each_once(self) -> bool {
        texts(self.addrs@).no_duplicates()
    }

    pub fn new(entries: &[String]) -> (r: Self)
        ensures
            r@ == address_parts(texts(entries@)).to_set(),
    {
        let mut addrs: Vec<String> = Vec::new();
        let mut i: usize = 0;
        let ghost all = texts(entries@);
        assert(texts(addrs@) =~= unique(address_parts(all.take(0))));
        while i < entries.len()
            invariant
                all == texts(entries@),
                i <= entries@.len(),
                texts(addrs@) == unique(address_parts(all.take(i as int))),
            decreases entries@.len() - i,
        {
            let b = bare(entries[i].as_str());
            proof {
                let upto = all.take(i + 1);
                assert(upto.drop_last() =~= all.take(i as int));
                assert(upto.last() == entries@[i as int]@);
                if b@.len() > 0 {
                    assert(address_parts(upto).drop_last() =~= address_parts(all.take(i as int)));
                }
            }
            if !b.as_str().is_empty() {
                add_text(&mut addrs, b.as_str());
            }
            i = i + 1;
        }
        assert(all.take(all.len() as int) =~= all);
        proof {
            lemma_add_missing(Seq::empty(), address_parts(all));
            assert(texts(addrs@).to_set() =~= address_parts(all).to_set());
        }
        Removals { addrs }
    }

    pub fn is_empty(&self) -> (r: bool)
        ensures
            r == (self@ == Set::<Seq<char>>::empty()),
    {
        proof {
            if self.addrs@.len() > 0 {
                assert(texts(self.addrs@)[0] == self.addrs@[0]@);
                assert(texts(self.addrs@).contains(self.addrs@[0]@));
                assert(self@.contains(self.addrs@[0]@));
            } else {
                assert(self@ =~= Set::<Seq<char>>::empty());
            }
        }
        self.addrs.len() == 0
    }

    pub fn len(&self) -> (r: usize)
        ensures
            self@.finite(),
            r == self@.len(),
    {
        proof {
            use_type_invariant(self);
            texts(self.addrs@).unique_seq_to_set();
        }
        self.addrs.len()
    }

    /// The entries of one host in the matching form: the cached addresses,
    /// or the target itself when that is already an address.
    pub fn from_host(host: &Host) -> (r: Self)
        ensures
            r@ == address_parts(routes(host@)).to_set(),
    {
        assert(texts(host.ips@).len() == host.ips@.len());
        if host.ips.len() == 0 && host.is_literal_ip() {
            let mut own: Vec<String> = Vec::new();
            own.push(host.target.clone());
            assert(texts(own@) =~= routes(host@));
            Removals::new(own.as_slice())
        } else {
            let e = host.allowed_entries();
            Removals::new(e.as_slice())
        }
    }

    /// True when this entry means one of the addresses being removed.
    pub fn matches(&self, entry: &str) -> (r: bool)
        ensures
            r == self@.contains(bare_address(entry@)),
    {
        has_member(self.addrs.as_slice(), bare(entry).as_str())
    }
}

impl Clone for Removals {
    fn clone(&self) -> (r: Self)
        ensures
            r@ == self@,
    {
        proof {
            use_type_invariant(self);
        }
        Removals { addrs: copied(self.addrs.as_slice()) }
    }
}

/// The entries that every host in `group` would put into a config. A host
/// that was never resolved contributes nothing.
pub fn entries_from_group(store: &HostStore, group: &str) -> (r: Vec<String>)
    ensures
        texts(r@) == all_entries(members(store@.hosts, group@)),
{
    let hosts = store.hosts_in_group(group);
    let mut out: Vec<String> = Vec::new();
    let mut i: usize = 0;
    let ghost all = host_ref_views(hosts@);
    assert(texts(out@) =~= Seq::<Seq<char>>::empty());
    while i < hosts.len()
        invariant
            all == host_ref_views(hosts@),
            i <= hosts@.len(),
            texts(out@) == all_entries(all.take(i as int)),
        decreases hosts@.len() - i,
    {
        let ghost done = out@;
        let mut more = hosts[i].allowed_entries();
        proof {
            assert(all.take(i + 1).drop_last() =~= all.take(i as int));
            assert(all.take(i + 1).last() == hosts@[i as int]@);
            assert(texts(done + more@) =~= texts(done) + texts(more@));
        }
        out.append(&mut more);
        i = i + 1;
    }
    assert(all.take(all.len() as int) =~= all);
    out
}

// ---------------------------------------------------------------------------
// One file
// ---------------------------------------------------------------------------

/// The entries of a line: those of its value, when it is an `AllowedIPs`
/// line.
pub open spec fn line_entries(l: Seq<char>) -> Seq<Seq<char>> {
    match line(l) {
        LineView::AllowedIps { suffix, .. } => pieces(value_of(suffix), Class::One(',')),
        LineView::Verbatim(_) => Seq::empty(),
    }
}

/// The entries of lines, in order.
pub open spec fn entries_of_lines(lines: Seq<Seq<char>>) -> Seq<Seq<char>>
    decreases lines.len(),
{
    if lines.len() == 0 {
        Seq::empty()
    } else {
        entries_of_lines(lines.drop_last()) + line_entries(lines.last())
    }
}

/// The addresses in the text of a config, one per entry.
pub open spec fn config_addresses(text: Seq<char>) -> Seq<Seq<char>> {
    entries_of_lines(raw_lines(text))
}

/// The entries that are not removed, in order.
pub open spec fn kept(entries: Seq<Seq<char>>, removals: Set<Seq<char>>) -> Seq<Seq<char>>
    decreases entries.len(),
{
    if entries.len() == 0 {
        Seq::empty()
    } else if removals.contains(bare_address(entries.last())) {
        kept(entries.drop_last(), removals)
    } else {
        kept(entries.drop_last(), removals).push(entries.last())
    }
}

/// How many entries of a text a removal would take out.
pub open spec fn hit_count(text: Seq<char>, removals: Set<Seq<char>>) -> nat {
    (config_addresses(text).len() - kept(config_addresses(text), removals).len()) as nat
}

/// What a line keeps.
pub open spec fn line_kept(l: Seq<char>, removals: Set<Seq<char>>) -> Seq<Seq<char>> {
    kept(line_entries(l), removals)
}

/// True for a line that a removal takes an entry out of.
pub open spec fn loses(l: Seq<char>, removals: Set<Seq<char>>) -> bool {
    line_kept(l, removals).len() < line_entries(l).len()
}

/// True for a line that a removal would leave with nothing.
pub open spec fn is_emptied(l: Seq<char>, removals: Set<Seq<char>>) -> bool {
    loses(l, removals) && line_kept(l, removals).len() == 0
}

/// A line after a removal: with the entries that it keeps, or as it was when
/// it keeps them all.
pub open spec fn line_after(l: Seq<char>, removals: Set<Seq<char>>) -> Seq<char> {
    if loses(l, removals) {
        line_text(with_value(line(l), join(line_kept(l, removals), ", "@)))
    } else {
        l
    }
}

/// Lines after a removal.
pub open spec fn lines_after(
    lines: Seq<Seq<char>>,
    removals: Set<Seq<char>>,
) -> Seq<Seq<char>> {
    Seq::new(lines.len(), |i: int| line_after(lines[i], removals))
}

/// True when a removal would leave a line of the text with nothing.
pub open spec fn empties_a_line(text: Seq<char>, removals: Set<Seq<char>>) -> bool {
    exists|i: int|
        0 <= i < raw_lines(text).len() && is_emptied(#[trigger] raw_lines(text)[i], removals)
}

/// What a removal does to a file with that text.
pub open spec fn subtract_plan(text: Seq<char>, removals: Set<Seq<char>>) -> PlanView {
    let removed = hit_count(text, removals);
    if !has_allowed_ips_line(conf(text)) {
        PlanView::NoAllowedIps
    } else if removed == 0 {
        PlanView::Unchanged
    } else if empties_a_line(text, removals) {
        PlanView::Emptied { removed }
    } else {
        PlanView::Write {
            removed,
            text: join(lines_after(raw_lines(text), removals), seq!['\n']),
        }
    }
}

fn entries_of_line(l: &str) -> (r: Vec<String>)
    ensures
        texts(r@) == line_entries(l@),
{
    match line_value(l) {
        Some(v) => nonblank_pieces(v.as_str(), Class::One(',')),
        None => {
            let none: Vec<String> = Vec::new();
            assert(texts(none@) =~= Seq::<Seq<char>>::empty());
            none
        },
    }
}

fn addresses(text: &str) -> (r: Vec<String>)
    ensures
        texts(r@) == config_addresses(text@),
{
    let raw = splitted(text, Class::One('\n'));
    let mut out: Vec<String> = Vec::new();
    let mut i: usize = 0;
    let ghost all = texts(raw@);
    assert(texts(out@) =~= Seq::<Seq<char>>::empty());
    while i < raw.len()
        invariant
            all == texts(raw@),
            i <= raw@.len(),
            texts(out@) == entries_of_lines(all.take(i as int)),
        decreases raw@.len() - i,
    {
        let ghost done = out@;
        let mut more = entries_of_line(raw[i].as_str());
        proof {
            assert(all.take(i + 1).drop_last() =~= all.take(i as int));
            assert(all.take(i + 1).last() == raw@[i as int]@);
            assert(texts(done + more@) =~= texts(done) + texts(more@));
        }
        out.append(&mut more);
        i = i + 1;
    }
    assert(all.take(all.len() as int) =~= all);
    out
}

fn kept_entries(entries: &[String], removals: &Removals) -> (r: Vec<String>)
    ensures
        texts(r@) == kept(texts(entries@), removals@),
        r@.len() <= entries@.len(),
{
    let mut out: Vec<String> = Vec::new();
    let mut i: usize = 0;
    let ghost all = texts(entries@);
    assert(texts(out@) =~= Seq::<Seq<char>>::empty());
    while i < entries.len()
        invariant
            all == texts(entries@),
            i <= entries@.len(),
            out@.len() <= i,
            texts(out@) == kept(all.take(i as int), removals@),
        decreases entries@.len() - i,
    {
        proof {
            assert(all.take(i + 1).drop_last() =~= all.take(i as int));
            assert(all.take(i + 1).last() == entries@[i as int]@);
        }
        if !removals.matches(entries[i].as_str()) {
            let e = entries[i].clone();
            proof {
                lemma_texts_push(out@, e);
            }
            out.push(e);
        }
        i = i + 1;
    }
    assert(all.take(all.len() as int) =~= all);
    out
}

/// What a removal does to a file with that text. A file with a line that
/// would be left with nothing is left as it is.
pub fn plan_removal(text: &str, removals: &Removals) -> (r: Plan)
    ensures
        r@ == subtract_plan(text@, removals@),
{
    if !WgConfig::parse(text).has_allowed_ips() {
        return Plan::NoAllowedIps;
    }
    let all = addresses(text);
    let left = kept_entries(all.as_slice(), removals);
    assert(texts(all@).len() == all@.len());
    assert(texts(left@).len() == left@.len());
    let removed: usize = all.len() - left.len();
    if removed == 0 {
        return Plan::Unchanged;
    }
    let raw = splitted(text, Class::One('\n'));
    let mut out: Vec<String> = Vec::new();
    let mut i: usize = 0;
    assert(texts(raw@) == raw_lines(text@));
    while i < raw.len()
        invariant
            has_allowed_ips_line(conf(text@)),
            removed == hit_count(text@, removals@),
            removed > 0,
            texts(raw@) == raw_lines(text@),
            i <= raw@.len(),
            out@.len() == i,
            forall|k: int| 0 <= k < i ==> !is_emptied(#[trigger] raw_lines(text@)[k], removals@),
            forall|k: int|
                0 <= k < i ==> (#[trigger] out@[k])@ == line_after(
                    raw_lines(text@)[k],
                    removals@,
                ),
        decreases raw@.len() - i,
    {
        assert(raw_lines(text@)[i as int] == raw@[i as int]@);
        let found = entries_of_line(raw[i].as_str());
        let stay = kept_entries(found.as_slice(), removals);
        assert(texts(found@).len() == found@.len());
        assert(texts(stay@).len() == stay@.len());
        if stay.len() == found.len() {
            out.push(raw[i].clone());
        } else if stay.len() == 0 {
            assert(is_emptied(raw_lines(text@)[i as int], removals@));
            return Plan::Emptied { removed };
        } else {
            out.push(line_with_value(raw[i].as_str(), joined(stay.as_slice(), ", ").as_str()));
        }
        i = i + 1;
    }
    proof {
        assert(texts(out@) =~= lines_after(raw_lines(text@), removals@));
        reveal_strlit("\n");
        assert("\n"@ =~= seq!['\n']);
    }
    Plan::Write { removed, text: joined(out.as_slice(), "\n") }
}

/// Begin to remove addresses from the `AllowedIPs` of every `.conf` of a
/// folder. A selection without addresses is refused.
pub fn subtract<P>(removals: &Removals) -> (r: Result<Pass<P>>)
    ensures
        match r {
            Ok(pass) => {
                &&& removals@ != Set::<Seq<char>>::empty()
                &&& pass@ == begun::<P>(JobView::Subtract(removals@))
            },
            Err(Error::Invalid(m)) => removals@ == Set::<Seq<char>>::empty() && m@
                == "nothing to remove: the selection has no addresses"@,
            Err(_) => false,
        },
{
    if removals.is_empty() {
        return Err(
            Error::Invalid(owned("nothing to remove: the selection has no addresses")),
        );
    }
    Ok(Pass::begin(Job::Subtract(removals.clone())))
}

/// The addresses in the text of a config, or `None` when it has no
/// `AllowedIPs` line.
pub fn entries_in(text: &str) -> (r: Option<Vec<String>>)
    ensures
        match r {
            Some(e) => has_allowed_ips_line(conf(text@)) && texts(e@) == config_addresses(text@),
            None => !has_allowed_ips_line(conf(text@)),
        },
{
    if WgConfig::parse(text).has_allowed_ips() {
        Some(addresses(text))
    } else {
        None
    }
}

// ---------------------------------------------------------------------------
// Before a removal
// ---------------------------------------------------------------------------

/// How many entries of some texts a removal would take out.
pub open spec fn total_hits(texts: Seq<Seq<char>>, removals: Set<Seq<char>>) -> nat
    decreases texts.len(),
{
    if texts.len() == 0 {
        0
    } else {
        total_hits(texts.drop_last(), removals) + hit_count(texts.last(), removals)
    }
}

/// How many texts a removal would take an entry out of.
pub open spec fn files_hit(texts: Seq<Seq<char>>, removals: Set<Seq<char>>) -> nat
    decreases texts.len(),
{
    if texts.len() == 0 {
        0
    } else {
        files_hit(texts.drop_last(), removals) + if hit_count(texts.last(), removals) > 0 {
            1nat
        } else {
            0nat
        }
    }
}

proof fn lemma_total_hits(all: Seq<Seq<char>>, removals: Set<Seq<char>>, i: int)
    requires
        0 <= i <= all.len(),
    ensures
        total_hits(all.take(i), removals) <= total_hits(all, removals),
    decreases all.len() - i,
{
    if i < all.len() {
        lemma_total_hits(all, removals, i + 1);
        assert(all.take(i + 1).drop_last() =~= all.take(i));
    } else {
        assert(all.take(i) =~= all);
    }
}

/// How many entries of `removals` are present in the configs with these
/// texts, and in how many of them.
pub fn survey(confs: &[String], removals: &Removals) -> (r: (usize, usize))
    requires
        total_hits(texts(confs@), removals@) <= usize::MAX,
    ensures
        r.0 == total_hits(texts(confs@), removals@),
        r.1 == files_hit(texts(confs@), removals@),
{
    let mut entries: usize = 0;
    let mut files: usize = 0;
    let mut i: usize = 0;
    let ghost all = texts(confs@);
    while i < confs.len()
        invariant
            all == texts(confs@),
            total_hits(all, removals@) <= usize::MAX,
            i <= confs@.len(),
            files <= i,
            entries == total_hits(all.take(i as int), removals@),
            files == files_hit(all.take(i as int), removals@),
        decreases confs@.len() - i,
    {
        let found = addresses(confs[i].as_str());
        let left = kept_entries(found.as_slice(), removals);
        assert(texts(found@).len() == found@.len());
        assert(texts(left@).len() == left@.len());
        let hits: usize = found.len() - left.len();
        proof {
            assert(all.take(i + 1).drop_last() =~= all.take(i as int));
            assert(all.take(i + 1).last() == confs@[i as int]@);
            lemma_total_hits(all, removals@, i + 1);
        }
        if hits > 0 {
            entries = entries + hits;
            files = files + 1;
        }
        i = i + 1;
    }
    assert(all.take(all.len() as int) =~= all);
    (entries, files)
}

// ---------------------------------------------------------------------------
// Names beside a config
// ---------------------------------------------------------------------------

/// A file name without its extension: what stands before the last dot,
/// unless nothing does.
pub open spec fn stem(name: Seq<char>) -> Seq<char> {
    if last_dot(name) > 0 {
        name.take(last_dot(name))
    } else {
        name
    }
}

/// The position of the last dot, or -1.
pub open spec fn last_dot(name: Seq<char>) -> int
    decreases name.len(),
{
    if name.len() == 0 {
        -1
    } else if name.last() == '.' {
        name.len() - 1
    } else {
        last_dot(name.drop_last())
    }
}

fn with_extension(name: &str, extension: &str) -> (r: String)
    ensures
        r@ == stem(name@) + extension@,
{
    let cs = chars_of(name);
    let mut i: usize = cs.len();
    assert(name@.take(name@.len() as int) =~= name@);
    while i > 0 && cs[i - 1] != '.'
        invariant
            cs@ == name@,
            i <= cs@.len(),
            last_dot(name@) == last_dot(name@.take(i as int)),
        decreases i,
    {
        assert(name@.take(i as int).drop_last() =~= name@.take(i - 1));
        i = i - 1;
    }
    let mut s: String = if i > 1 {
        assert(name@.take(i as int).last() == '.');
        string_of(cs.as_slice(), 0, i - 1)
    } else {
        owned(name)
    };
    assert(s@ =~= stem(name@)) by {
        if i > 0 {
            assert(name@.take(i as int).last() == '.');
        }
    }
    s.append(extension);
    s
}

/// The name of the backup beside a config of that name.
pub open spec fn backup_name(name: Seq<char>) -> Seq<char> {
    stem(name) + ".conf.bak"@
}

/// The name of the file that a new config of that name is written to before
/// it takes the place of the old one.
pub open spec fn temporary_name(name: Seq<char>) -> Seq<char> {
    stem(name) + ".conf.tmp"@
}

/// The name of the backup beside a config of that name.
pub fn backup_path(name: &str) -> (r: String)
    ensures
        r@ == backup_name(name@),
{
    with_extension(name, ".conf.bak")
}

/// The name of the file that a new config of that name is written to before
/// it takes the place of the old one.
pub fn temporary_path(name: &str) -> (r: String)
    ensures
        r@ == temporary_name(name@),
{
    with_extension(name, ".conf.tmp")
}

// ---------------------------------------------------------------------------
// Laws
// ---------------------------------------------------------------------------

/// A removal takes out what it names and nothing else: an entry stays if and
/// only if its address is not removed.
pub proof fn law_only_named_entries_go(entries: Seq<Seq<char>>, removals: Set<Seq<char>>)
    ensures
        kept(entries, removals).len() <= entries.len(),
        forall|e: Seq<char>| #[trigger]
            kept(entries, removals).contains(e) <==> entries.contains(e) && !removals.contains(
                bare_address(e),
            ),
    decreases entries.len(),
{
    if entries.len() > 0 {
        let d = entries.drop_last();
        let t = kept(d, removals);
        let r = kept(entries, removals);
        law_only_named_entries_go(d, removals);
        assert forall|e: Seq<char>| #[trigger] r.contains(e) <==> entries.contains(e)
            && !removals.contains(bare_address(e)) by {
            if r.contains(e) {
                let k = choose|k: int| 0 <= k < r.len() && r[k] == e;
                if k < t.len() {
                    assert(t[k] == e);
                    assert(t.contains(e));
                    let j = choose|j: int| 0 <= j < d.len() && d[j] == e;
                    assert(entries[j] == e);
                } else {
                    assert(entries[entries.len() - 1] == e);
                }
            }
            if entries.contains(e) && !removals.contains(bare_address(e)) {
                let j = choose|j: int| 0 <= j < entries.len() && entries[j] == e;
                if j < d.len() {
                    assert(d[j] == e);
                    assert(t.contains(e));
                    let k = choose|k: int| 0 <= k < t.len() && t[k] == e;
                    assert(r[k] == e);
                } else {
                    assert(r[t.len() as int] == e);
                }
            }
        }
    }
}

proof fn lemma_nothing_removed(entries: Seq<Seq<char>>, removals: Set<Seq<char>>)
    requires
        forall|k: int|
            0 <= k < entries.len() ==> !removals.contains(bare_address(#[trigger] entries[k])),
    ensures
        kept(entries, removals) == entries,
    decreases entries.len(),
{
    if entries.len() > 0 {
        let d = entries.drop_last();
        assert forall|k: int| 0 <= k < d.len() implies !removals.contains(
            bare_address(#[trigger] d[k]),
        ) by {
            assert(d[k] == entries[k]);
        }
        lemma_nothing_removed(d, removals);
        assert(!removals.contains(bare_address(entries[entries.len() - 1])));
        assert(kept(entries, removals) =~= entries);
    } else {
        assert(kept(entries, removals) =~= entries);
    }
}

proof fn lemma_kept_concat(a: Seq<Seq<char>>, b: Seq<Seq<char>>, removals: Set<Seq<char>>)
    ensures
        kept(a + b, removals) == kept(a, removals) + kept(b, removals),
    decreases b.len(),
{
    if b.len() == 0 {
        assert(a + b =~= a);
        assert(kept(a, removals) + kept(b, removals) =~= kept(a, removals));
    } else {
        lemma_kept_concat(a, b.drop_last(), removals);
        assert((a + b).drop_last() =~= a + b.drop_last());
        assert((a + b).last() == b.last());
        assert(kept(a + b, removals) =~= kept(a, removals) + kept(b, removals));
    }
}

proof fn lemma_lines_that_lose(lines: Seq<Seq<char>>, removals: Set<Seq<char>>)
    ensures
        kept(entries_of_lines(lines), removals).len() <= entries_of_lines(lines).len(),
        kept(entries_of_lines(lines), removals).len() == entries_of_lines(lines).len() <==> forall|
            i: int,
        |
            0 <= i < lines.len() ==> !loses(#[trigger] lines[i], removals),
    decreases lines.len(),
{
    if lines.len() > 0 {
        let d = lines.drop_last();
        let l = lines[lines.len() - 1];
        lemma_lines_that_lose(d, removals);
        lemma_kept_concat(entries_of_lines(d), line_entries(l), removals);
        law_only_named_entries_go(line_entries(l), removals);
        if forall|i: int| 0 <= i < d.len() ==> !loses(#[trigger] d[i], removals) {
            assert forall|i: int| 0 <= i < lines.len() && i < d.len() implies !loses(
                #[trigger] lines[i],
                removals,
            ) by {
                assert(lines[i] == d[i]);
            }
        } else {
            let i = choose|i: int| 0 <= i < d.len() && loses(#[trigger] d[i], removals);
            assert(loses(lines[i], removals));
        }
    }
}

/// Entries come out of a text if and only if a line of it loses some.
pub proof fn law_hits_are_on_lines(text: Seq<char>, removals: Set<Seq<char>>)
    ensures
        hit_count(text, removals) > 0 <==> exists|i: int|
            0 <= i < raw_lines(text).len() && loses(#[trigger] raw_lines(text)[i], removals),
{
    lemma_lines_that_lose(raw_lines(text), removals);
}

/// An entry as it is read in front of a value, where a sign `=` does not
/// count.
pub open spec fn unsigned(e: Seq<char>) -> Seq<char> {
    trim(trim_start(e, Class::One('=')))
}

/// Entries as they are read back from a line that lists them.
pub open spec fn read_back(e: Seq<Seq<char>>) -> Seq<Seq<char>> {
    if unsigned(e[0]).len() == 0 {
        e.drop_first()
    } else {
        e.update(0, unsigned(e[0]))
    }
}

proof fn lemma_trim_start_concat(a: Seq<char>, b: Seq<char>, class: Class)
    ensures
        trim_start(a + b, class) == if trim_start(a, class).len() > 0 {
            trim_start(a, class) + b
        } else {
            trim_start(b, class)
        },
    decreases a.len(),
{
    if a.len() == 0 {
        assert(a + b =~= b);
    } else {
        assert((a + b)[0] == a[0]);
        if class.has(a[0]) {
            assert((a + b).drop_first() =~= a.drop_first() + b);
            lemma_trim_start_concat(a.drop_first(), b, class);
        }
    }
}

proof fn lemma_trim_front(s: Seq<char>, rest: Seq<char>)
    requires
        s.len() > 0,
        !is_white_space(s.last()),
        rest.len() > 0 ==> !is_white_space(rest.last()),
    ensures
        trim(s + rest) == trim(s) + rest,
        trim(s).len() > 0,
{
    let w = Class::White;
    let t = trim_start(s, w);
    lemma_trim_start(s, w);
    if t.len() == 0 {
        assert(w.has(s[s.len() - 1]));
    }
    assert(t.last() == s.last());
    assert(trim_end(t, w) == t);
    lemma_trim_start_concat(s, rest, w);
    let u = t + rest;
    if rest.len() > 0 {
        assert(u.last() == rest.last());
    } else {
        assert(u =~= t);
    }
    assert(trim_end(u, w) == u);
}

/// What a line lists is read back, but for the signs `=` in front of it.
proof fn lemma_read_back(e: Seq<Seq<char>>)
    requires
        e.len() > 0,
        forall|k: int| 0 <= k < e.len() ==> is_piece(#[trigger] e[k], ','),
    ensures
        pieces(value_of(join(e, ", "@)), Class::One(',')) == read_back(e),
        e[0][0] != '=' ==> read_back(e) == e,
{
    reveal_strlit(", ");
    let sep = ", "@;
    let sign = Class::One('=');
    let v = join(e, sep);
    let first = e[0];
    let tail = e.drop_first();
    lemma_pieces_of_joined(e);
    lemma_trim(v);
    assert(is_piece(first, ','));
    lemma_trim(first);
    if first[0] != '=' {
        assert(trim_start(v, sign) == v);
        assert(trim_start(first, sign) == first);
        assert(e.update(0, first) =~= e);
    } else {
        let rest = if tail.len() == 0 {
            Seq::<char>::empty()
        } else {
            sep + join(tail, sep)
        };
        assert(e =~= seq![first] + tail);
        if tail.len() == 0 {
            assert(e =~= seq![first]);
            assert(v =~= first + rest);
        } else {
            lemma_join_front(first, tail, sep);
            assert(v =~= first + rest);
            assert(v.last() == rest.last());
            assert forall|k: int| 0 <= k < tail.len() implies is_piece(#[trigger] tail[k], ',') by {
                assert(tail[k] == e[k + 1]);
            }
            lemma_pieces_of_joined(tail);
        }
        let s = trim_start(first, sign);
        lemma_trim_start(first, sign);
        lemma_trim_start_concat(first, rest, sign);
        if s.len() > 0 {
            assert(s.last() == first.last());
            lemma_trim_front(s, rest);
            let t = trim(s);
            lemma_trim(s);
            if contains_char(t, ',') {
                let k = choose|k: int| 0 <= k < s.len() && s[k] == ',';
                assert(first[k + first.len() - s.len()] == ',');
            }
            assert(is_piece(t, ','));
            let new = e.update(0, t);
            assert forall|k: int| 0 <= k < new.len() implies is_piece(#[trigger] new[k], ',') by {
                if k > 0 {
                    assert(new[k] == e[k]);
                }
            }
            assert(new =~= seq![t] + tail);
            if tail.len() == 0 {
                assert(new =~= seq![t]);
                assert(join(new, sep) =~= t + rest);
            } else {
                lemma_join_front(t, tail, sep);
                assert(join(new, sep) =~= t + rest);
            }
            lemma_pieces_of_joined(new);
        } else {
            assert(unsigned(first).len() == 0);
            if tail.len() == 0 {
                assert(value_of(v) =~= Seq::<char>::empty());
                lemma_pieces_of_one(value_of(v), Class::One(','));
                assert(tail =~= Seq::<Seq<char>>::empty());
            } else {
                assert(rest[0] == ',');
                assert(trim_start(rest, sign) == rest);
                assert(trim_start(rest, Class::White) == rest);
                assert(trim_end(rest, Class::White) == rest);
                lemma_pieces_after(sep, join(tail, sep), Class::One(','));
            }
        }
    }
}

/// What a line keeps is made of pieces of it.
proof fn lemma_kept_pieces(l: Seq<char>, removals: Set<Seq<char>>)
    requires
        !contains_char(l, '\n'),
    ensures
        forall|k: int|
            0 <= k < line_kept(l, removals).len() ==> is_piece(
                #[trigger] line_kept(l, removals)[k],
                ',',
            ) && !contains_char(line_kept(l, removals)[k], '\n'),
{
    let all = line_entries(l);
    let left = line_kept(l, removals);
    law_only_named_entries_go(all, removals);
    assert forall|k: int| 0 <= k < left.len() implies is_piece(#[trigger] left[k], ',')
        && !contains_char(left[k], '\n') by {
        assert(left.contains(left[k]));
        let j = choose|j: int| 0 <= j < all.len() && all[j] == left[k];
        let v = value_of(line(l)->suffix);
        lemma_pieces(v, ',');
        assert(is_piece(all[j], ','));
        if contains_char(all[j], '\n') {
            assert(contains_char(v, '\n'));
            lemma_value_chars(l, '\n');
        }
    }
}

/// A line after a removal is one line still, of the same kind, and lists what
/// it kept.
proof fn lemma_line_after(l: Seq<char>, removals: Set<Seq<char>>)
    requires
        !contains_char(l, '\n'),
        !is_emptied(l, removals),
    ensures
        !contains_char(line_after(l, removals), '\n'),
        line(line_after(l, removals)) is AllowedIps == line(l) is AllowedIps,
        loses(l, removals) ==> line_entries(line_after(l, removals)) == read_back(
            line_kept(l, removals),
        ),
        loses(l, removals) && line_kept(l, removals)[0][0] != '=' ==> line_entries(
            line_after(l, removals),
        ) == line_kept(l, removals),
{
    if loses(l, removals) {
        let left = line_kept(l, removals);
        let v = join(left, ", "@);
        lemma_kept_pieces(l, removals);
        lemma_joined_chars(left, '\n');
        lemma_line_of_rewritten(l, v);
        lemma_trim_of_padded(v);
        lemma_read_back(left);
    }
}

/// A removal edits only the lines that list what it removes: of such a line
/// the value is replaced by the entries that stay, in their order, and every
/// other line keeps its text to the byte. No line is left with nothing. What
/// a line lists is read back, but for the signs `=` in front of the first
/// entry, which do not count as part of a value.
pub proof fn law_each_line_loses_its_own(text: Seq<char>, removals: Set<Seq<char>>)
    requires
        subtract_plan(text, removals) is Write,
    ensures
        ({
            let before = raw_lines(text);
            let new = subtract_plan(text, removals)->Write_text;
            let after = raw_lines(new);
            &&& after.len() == before.len()
            &&& has_allowed_ips_line(conf(new))
            &&& forall|i: int|
                #![trigger after[i]]
                0 <= i < before.len() ==> if loses(before[i], removals) {
                    &&& after[i] == line_text(
                        with_value(line(before[i]), join(line_kept(before[i], removals), ", "@)),
                    )
                    &&& line_kept(before[i], removals).len() > 0
                    &&& line_entries(after[i]) == read_back(line_kept(before[i], removals))
                    &&& line_kept(before[i], removals)[0][0] != '=' ==> line_entries(after[i])
                        == line_kept(before[i], removals)
                } else {
                    after[i] == before[i]
                }
        }),
{
    let before = raw_lines(text);
    let out = lines_after(before, removals);
    let new = subtract_plan(text, removals)->Write_text;
    lemma_raw_lines(text);
    assert forall|i: int| 0 <= i < out.len() implies !contains_char(#[trigger] out[i], '\n') by {
        assert(!is_emptied(before[i], removals));
        lemma_line_after(before[i], removals);
    }
    lemma_split_join(out, '\n');
    assert(raw_lines(new) == out);
    assert forall|i: int| #![trigger out[i]] 0 <= i < before.len() implies if loses(
        before[i],
        removals,
    ) {
        &&& out[i] == line_text(
            with_value(line(before[i]), join(line_kept(before[i], removals), ", "@)),
        )
        &&& line_kept(before[i], removals).len() > 0
        &&& line_entries(out[i]) == read_back(line_kept(before[i], removals))
        &&& line_kept(before[i], removals)[0][0] != '=' ==> line_entries(out[i]) == line_kept(
            before[i],
            removals,
        )
    } else {
        out[i] == before[i]
    } by {
        assert(!is_emptied(before[i], removals));
        lemma_line_after(before[i], removals);
    }
    let c = conf(text);
    let k = choose|k: int| 0 <= k < c.len() && is_allowed_ips(#[trigger] c[k]);
    assert(!is_emptied(before[k], removals));
    lemma_line_after(before[k], removals);
    assert(conf(new)[k] == line(out[k]));
    assert(is_allowed_ips(conf(new)[k]));
}

/// True unless a line would begin with an entry that is removed when it is
/// read without the signs `=` in front of it.
pub open spec fn stays_removed(text: Seq<char>, removals: Set<Seq<char>>) -> bool {
    forall|i: int|
        0 <= i < raw_lines(text).len() && loses(#[trigger] raw_lines(text)[i], removals) ==> {
            let first = unsigned(line_kept(raw_lines(text)[i], removals)[0]);
            first.len() > 0 ==> !removals.contains(bare_address(first))
        }
}

proof fn lemma_entries_of_lines(lines: Seq<Seq<char>>, e: Seq<char>)
    requires
        entries_of_lines(lines).contains(e),
    ensures
        exists|i: int| 0 <= i < lines.len() && line_entries(#[trigger] lines[i]).contains(e),
    decreases lines.len(),
{
    if lines.len() > 0 {
        let d = lines.drop_last();
        let a = entries_of_lines(d);
        let b = line_entries(lines.last());
        let n = choose|n: int| 0 <= n < (a + b).len() && (a + b)[n] == e;
        if n < a.len() {
            assert(a[n] == e);
            lemma_entries_of_lines(d, e);
            let i = choose|i: int| 0 <= i < d.len() && line_entries(#[trigger] d[i]).contains(e);
            assert(line_entries(lines[i]).contains(e));
        } else {
            assert(b[n - a.len()] == e);
            assert(line_entries(lines[lines.len() - 1]).contains(e));
        }
    }
}

/// What was removed is gone: no entry of the text that a removal writes is
/// one of those that were removed.
pub proof fn law_removed_entries_are_gone(text: Seq<char>, removals: Set<Seq<char>>)
    requires
        subtract_plan(text, removals) is Write,
        stays_removed(text, removals),
    ensures
        forall|e: Seq<char>| #[trigger]
            config_addresses(subtract_plan(text, removals)->Write_text).contains(e)
                ==> !removals.contains(bare_address(e)),
{
    let before = raw_lines(text);
    let new = subtract_plan(text, removals)->Write_text;
    let after = raw_lines(new);
    law_each_line_loses_its_own(text, removals);
    assert forall|e: Seq<char>| #[trigger] config_addresses(new).contains(e) implies
        !removals.contains(bare_address(e)) by {
        lemma_entries_of_lines(after, e);
        let i = choose|i: int|
            0 <= i < after.len() && line_entries(#[trigger] after[i]).contains(e);
        let l = before[i];
        let left = line_kept(l, removals);
        law_only_named_entries_go(line_entries(l), removals);
        let k = choose|k: int| 0 <= k < line_entries(after[i]).len() && line_entries(after[i])[k]
            == e;
        if loses(l, removals) {
            let f = unsigned(left[0]);
            if f.len() > 0 && k == 0 {
                assert(e == f);
            } else {
                let j = if f.len() == 0 {
                    k + 1
                } else {
                    k
                };
                assert(left[j] == e);
                assert(left.contains(e));
            }
        } else {
            lemma_all_kept(line_entries(l), removals, k);
        }
    }
}

/// Where nothing comes out, nothing is removed.
proof fn lemma_all_kept(entries: Seq<Seq<char>>, removals: Set<Seq<char>>, k: int)
    requires
        kept(entries, removals).len() == entries.len(),
        0 <= k < entries.len(),
    ensures
        !removals.contains(bare_address(entries[k])),
    decreases entries.len(),
{
    let d = entries.drop_last();
    law_only_named_entries_go(d, removals);
    if k < d.len() {
        lemma_all_kept(d, removals, k);
        assert(d[k] == entries[k]);
    }
}

/// Removing the same addresses a second time changes nothing.
pub proof fn law_second_removal_changes_nothing(text: Seq<char>, removals: Set<Seq<char>>)
    requires
        subtract_plan(text, removals) is Write,
        stays_removed(text, removals),
    ensures
        subtract_plan(subtract_plan(text, removals)->Write_text, removals) == PlanView::Unchanged,
{
    let new = subtract_plan(text, removals)->Write_text;
    law_each_line_loses_its_own(text, removals);
    law_removed_entries_are_gone(text, removals);
    let all = config_addresses(new);
    assert forall|k: int| 0 <= k < all.len() implies !removals.contains(
        bare_address(#[trigger] all[k]),
    ) by {
        assert(all.contains(all[k]));
    }
    lemma_nothing_removed(all, removals);
}

/// A second removal over the files of a folder writes nothing: every file
/// that the first one wrote or did not have to touch is not touched, those
/// that it left alone are left alone again, and no text changes.
pub proof fn law_second_removal_over_a_folder<P>(
    removals: Set<Seq<char>>,
    files: Seq<(P, Seq<char>)>,
    first: Seq<std::result::Result<Option<P>, Seq<char>>>,
    second: Seq<std::result::Result<Option<P>, Seq<char>>>,
)
    requires
        first.len() == files.len(),
        second.len() == files.len(),
        all_written(first),
        forall|i: int|
            0 <= i < files.len() && subtract_plan((#[trigger] files[i]).1, removals) is Write
                ==> stays_removed(files[i].1, removals),
    ensures
        ({
            let job = JobView::Subtract(removals);
            let a = pass_over(job, files, first);
            let b = pass_over(job, texts_after(job, files), second);
            &&& a.errors.len() == 0 && b.errors.len() == 0
            &&& count(b.files, Kind::Written) == 0
            &&& count(b.files, Kind::Unchanged) == count(a.files, Kind::Written) + count(
                a.files,
                Kind::Unchanged,
            )
            &&& count(b.files, Kind::Emptied) == count(a.files, Kind::Emptied)
            &&& texts_after(job, texts_after(job, files)) == texts_after(job, files)
        }),
{
    let job = JobView::Subtract(removals);
    assert forall|i: int| 0 <= i < files.len() && plan(job, (#[trigger] files[i]).1) is Write implies
        plan(job, text_after(job, files[i].1)) == PlanView::Unchanged by {
        law_second_removal_changes_nothing(files[i].1, removals);
    }
    lemma_second_pass(job, files, first, second);
}

proof fn lemma_no_entries(text: Seq<char>)
    requires
        !has_allowed_ips_line(conf(text)),
    ensures
        config_addresses(text).len() == 0,
{
    let all = config_addresses(text);
    if all.len() > 0 {
        assert(all.contains(all[0]));
        lemma_entries_of_lines(raw_lines(text), all[0]);
        let i = choose|i: int|
            0 <= i < raw_lines(text).len() && line_entries(#[trigger] raw_lines(text)[i]).contains(
                all[0],
            );
        assert(is_allowed_ips(conf(text)[i]));
    }
}

/// The survey counts what a removal would touch: a file counts if and only
/// if the removal would write it or leave it alone for fear of emptying a
/// line, with the number of entries that are named.
pub proof fn law_survey_agrees_with_removal(text: Seq<char>, removals: Set<Seq<char>>)
    ensures
        match subtract_plan(text, removals) {
            PlanView::Write { removed, .. } => hit_count(text, removals) == removed && removed > 0,
            PlanView::Emptied { removed } => hit_count(text, removals) == removed && removed > 0,
            PlanView::Unchanged => hit_count(text, removals) == 0,
            PlanView::NoAllowedIps => hit_count(text, removals) == 0,
        },
{
    law_only_named_entries_go(config_addresses(text), removals);
    if !has_allowed_ips_line(conf(text)) {
        lemma_no_entries(text);
    }
}

/// The texts of files.
pub open spec fn file_texts<P>(files: Seq<(P, Seq<char>)>) -> Seq<Seq<char>> {
    Seq::new(files.len(), |i: int| files[i].1)
}

/// The survey of a folder gives the numbers of the removal that follows it:
/// as many files as are written or left alone, and as many entries as those
/// results carry. Where no file is left alone, so many entries come out.
pub proof fn law_survey_agrees_over_a_folder<P>(
    removals: Set<Seq<char>>,
    files: Seq<(P, Seq<char>)>,
    outcomes: Seq<std::result::Result<Option<P>, Seq<char>>>,
)
    requires
        outcomes.len() == files.len(),
        all_written(outcomes),
        total_hits(file_texts(files), removals) <= usize::MAX,
    ensures
        ({
            let r = pass_over(JobView::Subtract(removals), files, outcomes);
            let texts = file_texts(files);
            &&& r.job == JobView::Subtract(removals)
            &&& r.errors.len() == 0
            &&& files_hit(texts, removals) == count(r.files, Kind::Written) + count(
                r.files,
                Kind::Emptied,
            )
            &&& total_hits(texts, removals) == stated_total(r.files)
            &&& count(r.files, Kind::Emptied) == 0 ==> total_hits(texts, removals)
                == removed_total(r.files)
        }),
    decreases files.len(),
{
    let job = JobView::Subtract(removals);
    let texts = file_texts(files);
    if files.len() > 0 {
        let d = files.drop_last();
        let n = files.len() - 1;
        assert(texts.drop_last() =~= file_texts(d));
        assert(texts.last() == files[n].1);
        assert forall|i: int| 0 <= i < outcomes.drop_last().len() implies (
        #[trigger] outcomes.drop_last()[i]) is Ok by {
            assert(outcomes[i] is Ok);
        }
        law_survey_agrees_over_a_folder(removals, d, outcomes.drop_last());
        law_survey_agrees_with_removal(files[n].1, removals);
        assert(outcomes[n] is Ok);
        let p = pass_over(job, d, outcomes.drop_last());
        let r = pass_over(job, files, outcomes);
        assert(r.files.drop_last() =~= p.files);
    }
}

proof fn lemma_trimmed_prefix(addr: Seq<char>, suffix: Seq<char>)
    requires
        suffix.len() > 0,
        !is_white_space(suffix[0]),
        !is_white_space(suffix.last()),
    ensures
        trim(addr + suffix) == trim_start(addr, Class::White) + suffix,
        trim(trim_start(addr, Class::White)) == trim(addr),
{
    let w = Class::White;
    let t = trim_start(addr, w);
    lemma_trim_start(addr, w);
    lemma_trim_start_concat(addr, suffix, w);
    assert(trim_start(suffix, w) == suffix);
    assert(t + suffix == trim_start(addr + suffix, w)) by {
        if t.len() == 0 {
            assert(t + suffix =~= suffix);
        }
    }
    assert((t + suffix).last() == suffix.last());
    assert(trim_end(t + suffix, w) == t + suffix);
    assert(trim_start(t, w) == t);
}

/// An address and the entry that is written for it are one route: the prefix
/// length of a single host does not count.
pub proof fn law_host_prefix_does_not_count(addr: Seq<char>)
    ensures
        bare_address(entry(addr)) == bare_address(addr),
{
    reveal_strlit("/32");
    reveal_strlit("/128");
    if !contains_char(addr, '/') {
        let p = host_prefix(addr);
        let w = Class::White;
        let t = trim_start(addr, w);
        assert(entry(addr) == addr + p);
        lemma_trimmed_prefix(addr, p);
        lemma_trim(addr);
        let whole = t + p;
        lemma_trim_start(addr, w);
        assert(contains_char(whole, ':') == contains_char(addr, ':')) by {
            if contains_char(addr, ':') {
                let k = choose|k: int| 0 <= k < addr.len() && addr[k] == ':';
                let skipped = addr.len() - t.len();
                if k < skipped {
                    assert(w.has(addr[k]));
                }
                assert(whole[k - skipped] == ':');
            }
            if contains_char(whole, ':') {
                let k = choose|k: int| 0 <= k < whole.len() && whole[k] == ':';
                if k < t.len() {
                    assert(addr[k + addr.len() - t.len()] == ':');
                }
            }
        }
        assert(whole.subrange(t.len() as int, whole.len() as int) =~= p);
        assert(ends_with(whole, p));
        assert(whole.take(t.len() as int) =~= t);
        let bare = trim(addr);
        let q = host_prefix(bare);
        if ends_with(bare, q) {
            assert(q[0] == '/');
            assert(bare.subrange(bare.len() - q.len(), bare.len() as int)[0] == '/');
            assert(bare[bare.len() - q.len()] == '/');
            assert(contains_char(bare, '/'));
        }
    }
}

/// Any other prefix length makes another route.
pub proof fn law_network_is_another_route(addr: Seq<char>, prefix: Seq<char>)
    requires
        !contains_char(addr, '/'),
        trim(addr) == addr,
        addr.len() > 0,
        all_digits(prefix),
        prefix.len() > 0,
        seq!['/'] + prefix != host_prefix(addr),
    ensures
        bare_address(addr + seq!['/'] + prefix) == addr + seq!['/'] + prefix,
        bare_address(addr) == addr,
{
    reveal_strlit("/32");
    reveal_strlit("/128");
    let behind = seq!['/'] + prefix;
    let whole = addr + seq!['/'] + prefix;
    assert(whole =~= addr + behind);
    assert(is_digit(prefix[prefix.len() - 1]));
    lemma_trim(addr);
    lemma_trimmed_prefix(addr, behind);
    assert(trim_start(addr, Class::White) == addr);
    assert(trim(whole) == whole);
    assert(contains_char(whole, ':') == contains_char(addr, ':')) by {
        if contains_char(addr, ':') {
            let k = choose|k: int| 0 <= k < addr.len() && addr[k] == ':';
            assert(whole[k] == ':');
        }
        if contains_char(whole, ':') {
            let k = choose|k: int| 0 <= k < whole.len() && whole[k] == ':';
            if k > addr.len() {
                assert(is_digit(prefix[k - addr.len() - 1]));
            }
            assert(addr[k] == ':');
        }
    }
    let p = host_prefix(addr);
    let n = addr.len() as int;
    if ends_with(whole, p) {
        let at = whole.len() - p.len();
        let end = whole.subrange(at, whole.len() as int);
        assert(p[0] == '/');
        assert(end[0] == p[0]);
        assert(whole[at] == '/');
        if at < n {
            assert(addr[at] == '/');
        } else if at > n {
            assert(is_digit(prefix[at - n - 1]));
        } else {
            assert(end =~= behind);
        }
    }
    if ends_with(addr, p) {
        assert(addr.subrange(n - p.len(), n)[0] == '/');
        assert(addr[n - p.len()] == '/');
    }
}

/// True when a line lists an entry whose address is removed.
pub open spec fn lists_removed(l: Seq<char>, removals: Set<Seq<char>>) -> bool {
    exists|k: int|
        0 <= k < line_entries(l).len() && removals.contains(
            bare_address(#[trigger] line_entries(l)[k]),
        )
}

/// True when a line lists an entry whose address is not removed.
pub open spec fn lists_other(l: Seq<char>, removals: Set<Seq<char>>) -> bool {
    exists|k: int|
        0 <= k < line_entries(l).len() && !removals.contains(
            bare_address(#[trigger] line_entries(l)[k]),
        )
}

/// The entries that stay are those whose addresses are not removed, in their
/// order; those that stay and those that go are all of them.
pub proof fn law_kept_entries_keep_their_order(
    entries: Seq<Seq<char>>,
    removals: Set<Seq<char>>,
)
    ensures
        kept(entries, removals) == entries.filter(
            |e: Seq<char>| !removals.contains(bare_address(e)),
        ),
        entries.len() - kept(entries, removals).len() == entries.filter(
            |e: Seq<char>| removals.contains(bare_address(e)),
        ).len(),
    decreases entries.len(),
{
    reveal(Seq::filter);
    if entries.len() > 0 {
        law_kept_entries_keep_their_order(entries.drop_last(), removals);
    } else {
        assert(kept(entries, removals) =~= entries);
    }
}

proof fn lemma_line_lists(l: Seq<char>, removals: Set<Seq<char>>)
    ensures
        loses(l, removals) <==> lists_removed(l, removals),
        line_kept(l, removals).len() > 0 <==> lists_other(l, removals),
{
    let all = line_entries(l);
    let left = line_kept(l, removals);
    law_only_named_entries_go(all, removals);
    if loses(l, removals) && !lists_removed(l, removals) {
        lemma_nothing_removed(all, removals);
    }
    if lists_removed(l, removals) && !loses(l, removals) {
        let k = choose|k: int|
            0 <= k < all.len() && removals.contains(bare_address(#[trigger] all[k]));
        lemma_all_kept(all, removals, k);
    }
    if left.len() > 0 {
        assert(left.contains(left[0]));
        let k = choose|k: int| 0 <= k < all.len() && all[k] == left[0];
        assert(!removals.contains(bare_address(line_entries(l)[k])));
    }
    if lists_other(l, removals) {
        let k = choose|k: int|
            0 <= k < all.len() && !removals.contains(bare_address(#[trigger] all[k]));
        assert(all.contains(all[k]));
        assert(left.contains(all[k]));
    }
}

/// What a removal does to a file. One without an `AllowedIPs` line, or whose
/// lines list nothing that is removed, is not touched. A file is left alone
/// as a whole if and only if some line lists only what is removed, and
/// something; wherever each line that lists something removed lists
/// something else too, it is written. As many entries are reported as the
/// file lists that are removed.
pub proof fn law_plan_of_a_removal(text: Seq<char>, removals: Set<Seq<char>>)
    ensures
        ({
            let lines = raw_lines(text);
            let hits = config_addresses(text).filter(
                |e: Seq<char>| removals.contains(bare_address(e)),
            ).len();
            let some_removed = exists|i: int|
                0 <= i < lines.len() && lists_removed(#[trigger] lines[i], removals);
            let some_emptied = exists|i: int|
                0 <= i < lines.len() && lists_removed(#[trigger] lines[i], removals)
                    && !lists_other(lines[i], removals);
            &&& hits > 0 <==> some_removed
            &&& match subtract_plan(text, removals) {
                PlanView::NoAllowedIps => values(conf(text)).len() == 0,
                PlanView::Unchanged => values(conf(text)).len() > 0 && !some_removed,
                PlanView::Emptied { removed } => some_emptied && removed == hits,
                PlanView::Write { removed, .. } => some_removed && !some_emptied && removed == hits,
            }
        }),
{
    let lines = raw_lines(text);
    law_kept_entries_keep_their_order(config_addresses(text), removals);
    law_hits_are_on_lines(text, removals);
    law_lines_with_a_value(conf(text));
    assert forall|l: Seq<char>| #[trigger] loses(l, removals) <==> lists_removed(l, removals) by {
        lemma_line_lists(l, removals);
    }
    assert forall|i: int| 0 <= i < lines.len() implies (is_emptied(#[trigger] lines[i], removals)
        <==> lists_removed(lines[i], removals) && !lists_other(lines[i], removals)) by {
        lemma_line_lists(lines[i], removals);
    }
    if !has_allowed_ips_line(conf(text)) {
        lemma_no_entries(text);
    }
    if hit_count(text, removals) > 0 {
        let i = choose|i: int| 0 <= i < lines.len() && loses(#[trigger] lines[i], removals);
        assert(lists_removed(lines[i], removals));
    }
    if exists|i: int| 0 <= i < lines.len() && lists_removed(#[trigger] lines[i], removals) {
        let i = choose|i: int| 0 <= i < lines.len() && lists_removed(#[trigger] lines[i], removals);
        assert(loses(lines[i], removals));
    }
    if empties_a_line(text, removals) {
        let i = choose|i: int| 0 <= i < lines.len() && is_emptied(#[trigger] lines[i], removals);
        assert(lists_removed(lines[i], removals) && !lists_other(lines[i], removals));
    }
}

/// In a file that a removal writes, a line that lists nothing removed is as
/// it was. Any other keeps what stands up to its `=` and its line ending,
/// and lists the entries that are not removed, in their order; where the
/// first of these begins with `=`, that sign is lost.
pub proof fn law_written_lines_of_a_removal(text: Seq<char>, removals: Set<Seq<char>>, i: int)
    requires
        subtract_plan(text, removals) is Write,
        0 <= i < raw_lines(text).len(),
    ensures
        ({
            let l = raw_lines(text)[i];
            let new = raw_lines(text_after(JobView::Subtract(removals), text));
            let left = line_entries(l).filter(|e: Seq<char>| !removals.contains(bare_address(e)));
            &&& new.len() == raw_lines(text).len()
            &&& !lists_removed(l, removals) ==> new[i] == l
            &&& lists_removed(l, removals) ==> {
                &&& line(l) matches LineView::AllowedIps { prefix, cr, .. } && line(
                    new[i],
                ) matches LineView::AllowedIps { prefix: p, cr: c, .. } && p == prefix && c == cr
                &&& left.len() > 0
                &&& left[0][0] != '=' ==> line_entries(new[i]) == left
            }
        }),
{
    let l = raw_lines(text)[i];
    let new = raw_lines(text_after(JobView::Subtract(removals), text));
    law_each_line_loses_its_own(text, removals);
    law_kept_entries_keep_their_order(line_entries(l), removals);
    lemma_line_lists(l, removals);
    lemma_raw_lines(text);
    assert(new[i] == new[i]);
    if loses(l, removals) {
        let v = join(line_kept(l, removals), ", "@);
        lemma_kept_pieces(l, removals);
        lemma_joined_chars(line_kept(l, removals), '\n');
        lemma_line_of_rewritten(l, v);
    }
}

/// The addresses of a config are read line by line.
pub proof fn law_addresses_are_read_by_line(a: Seq<char>, b: Seq<char>)
    ensures
        config_addresses(a + seq!['\n'] + b) == config_addresses(a) + config_addresses(b),
        !contains_char(a, '\n') ==> config_addresses(a) == line_entries(a),
{
    law_split_cuts_at_separators(a, '\n', b, Class::One('\n'));
    lemma_lines_concat(raw_lines(a), raw_lines(b));
    if !contains_char(a, '\n') {
        assert forall|k: int| 0 <= k < a.len() implies !Class::One('\n').has(#[trigger] a[k]) by {
            assert(a[k] != '\n');
        }
        let one = raw_lines(a);
        assert(one =~= seq![a]);
        reveal_with_fuel(entries_of_lines, 2);
        assert(one.drop_last() =~= Seq::<Seq<char>>::empty());
        assert(config_addresses(a) =~= line_entries(a));
    }
}

proof fn lemma_lines_concat(a: Seq<Seq<char>>, b: Seq<Seq<char>>)
    ensures
        entries_of_lines(a + b) == entries_of_lines(a) + entries_of_lines(b),
    decreases b.len(),
{
    if b.len() == 0 {
        assert(a + b =~= a);
        assert(entries_of_lines(a) + entries_of_lines(b) =~= entries_of_lines(a));
    } else {
        lemma_lines_concat(a, b.drop_last());
        assert((a + b).drop_last() =~= a + b.drop_last());
        assert((a + b).last() == b.last());
        assert(entries_of_lines(a + b) =~= entries_of_lines(a) + entries_of_lines(b));
    }
}

proof fn lemma_listed_value(parts: Seq<Seq<char>>)
    requires
        parts.len() > 0,
        forall|i: int| 0 <= i < parts.len() ==> is_piece(#[trigger] parts[i], ','),
        parts[0][0] != '=',
    ensures
        ({
            let v = join(parts, ", "@);
            let rest = seq![' '] + v;
            &&& pieces(value_of(rest), Class::One(',')) == parts
            &&& rest.last() != '\r'
        }),
{
    let v = join(parts, ", "@);
    let rest = seq![' '] + v;
    let none = Seq::<char>::empty();
    lemma_pieces_of_joined(parts);
    lemma_trim(v);
    law_trim_takes_white_space(seq![' '], v, none);
    assert(seq![' '] + v + none =~= rest);
    assert(trim_start(v, Class::One('=')) == v);
    assert(rest.last() == v.last());
}

proof fn lemma_entries_behind_key(key: Seq<char>, rest: Seq<char>, cr: bool)
    requires
        !contains_char(key, '='),
        rest.len() > 0,
        rest.last() != '\r',
    ensures
        ({
            let l = key + seq!['='] + rest;
            line_entries(
                if cr {
                    l.push('\r')
                } else {
                    l
                },
            ) == (if eq_ignore_case(trim(key), "allowedips"@) {
                pieces(value_of(rest), Class::One(','))
            } else {
                Seq::empty()
            })
        }),
{
    law_key_decides_the_line(key, rest);
}

/// What is listed behind the key, with commas and blanks between, are the
/// entries of the line. A line with another key lists none.
pub proof fn law_listed_entries_are_read(key: Seq<char>, parts: Seq<Seq<char>>, cr: bool)
    requires
        !contains_char(key, '='),
        !contains_char(key, '\n'),
        parts.len() > 0,
        forall|i: int|
            0 <= i < parts.len() ==> is_piece(#[trigger] parts[i], ',') && !contains_char(
                parts[i],
                '\n',
            ),
        parts[0][0] != '=',
    ensures
        ({
            let end = if cr {
                seq!['\r']
            } else {
                Seq::empty()
            };
            let l = key + seq!['=', ' '] + join(parts, ", "@) + end;
            line_entries(l) == (if eq_ignore_case(trim(key), "allowedips"@) {
                parts
            } else {
                Seq::empty()
            })
        }),
{
    let end = if cr {
        seq!['\r']
    } else {
        Seq::empty()
    };
    let v = join(parts, ", "@);
    let rest = seq![' '] + v;
    let l = key + seq!['=', ' '] + v + end;
    lemma_listed_value(parts);
    lemma_entries_behind_key(key, rest, cr);
    if cr {
        assert(l =~= (key + seq!['='] + rest).push('\r'));
    } else {
        assert(l =~= key + seq!['='] + rest);
    }
}

/// Only the prefix length of a single host does not count: an address alone
/// and one with that prefix are the address, with any other they are the
/// network. White space round an entry does not count either.
pub proof fn law_only_the_host_prefix_is_dropped(
    addr: Seq<char>,
    n: nat,
    a: Seq<char>,
    e: Seq<char>,
    b: Seq<char>,
)
    requires
        forall|k: int| 0 <= k < a.len() ==> is_white_space(#[trigger] a[k]),
        forall|k: int| 0 <= k < b.len() ==> is_white_space(#[trigger] b[k]),
        e.len() > 0 ==> !is_white_space(e[0]) && !is_white_space(e.last()),
    ensures
        ip(addr) is Some ==> bare_address(addr) == addr && bare_address(
            addr + seq!['/'] + decimal(n),
        ) == (if n == (if ip(addr)->0 is V4 {
            32
        } else {
            128nat
        }) {
            addr
        } else {
            addr + seq!['/'] + decimal(n)
        }),
        bare_address(a + e + b) == bare_address(e),
{
    let none = Seq::<char>::empty();
    law_trim_takes_white_space(a, e, b);
    law_trim_takes_white_space(none, e, none);
    assert(none + e + none =~= e);
    if ip(addr) is Some {
        lemma_decimal(n);
        lemma_decimal(32);
        lemma_decimal(128);
        reveal_strlit("/32");
        reveal_strlit("/128");
        reveal_with_fuel(decimal, 3);
        law_colons_show_the_family(addr);
        lemma_address_chars(addr);
        assert(is_address_char(addr[0]) && is_address_char(addr[addr.len() - 1]));
        law_trim_takes_white_space(none, addr, none);
        assert(none + addr + none =~= addr);
        assert("/32"@ =~= seq!['/'] + decimal(32));
        assert("/128"@ =~= seq!['/'] + decimal(128));
        let w = if ip(addr)->0 is V4 {
            32
        } else {
            128nat
        };
        assert(host_prefix(addr) == seq!['/'] + decimal(w));
        assert(entry(addr) == addr + host_prefix(addr));
        assert(addr + host_prefix(addr) =~= addr + seq!['/'] + decimal(w));
        law_host_prefix_does_not_count(addr);
        if n != w && seq!['/'] + decimal(n) == host_prefix(addr) {
            assert(decimal(n) =~= (seq!['/'] + decimal(n)).skip(1));
            assert(decimal(w) =~= (seq!['/'] + decimal(w)).skip(1));
        }
        let other = if w == 32 {
            128nat
        } else {
            32
        };
        if n != w {
            law_network_is_another_route(addr, decimal(n));
        } else {
            assert(decimal(other) != decimal(w)) by {
                assert(digits_value(decimal(other)) == other);
            }
            if seq!['/'] + decimal(other) == host_prefix(addr) {
                assert(decimal(other) =~= (seq!['/'] + decimal(other)).skip(1));
                assert(decimal(w) =~= (seq!['/'] + decimal(w)).skip(1));
            }
            law_network_is_another_route(addr, decimal(other));
        }
    }
}

/// What stands for a host in a config are the entries of its addresses, or,
/// where it has none, its target if that is an address. So a removal of a
/// host names every entry that an apply writes for it.
pub proof fn law_removal_names_what_is_written(h: HostView, e: Seq<char>)
    ensures
        h.ips.len() > 0 ==> routes(h) == h.ips.map_values(|x: Seq<char>| entry(x)),
        h.ips.len() == 0 && is_ip_or_network(h.target) ==> routes(h) == seq![h.target],
        h.ips.len() == 0 && !is_ip_or_network(h.target) ==> routes(h).len() == 0,
        all_entries(seq![h]).contains(e) && bare_address(e).len() > 0 ==> address_parts(
            routes(h),
        ).to_set().contains(bare_address(e)),
{
    if h.ips.len() > 0 {
        assert(routes(h) =~= h.ips.map_values(|x: Seq<char>| entry(x)));
    }
    law_entries_follow_the_hosts(Seq::empty(), Seq::empty(), h);
    law_address_parts(routes(h), e);
    if all_entries(seq![h]).contains(e) {
        let k = choose|k: int| 0 <= k < all_entries(seq![h]).len() && all_entries(seq![h])[k] == e;
        assert(routes(h)[k] == e);
        assert(routes(h).contains(e));
    }
}

/// The addresses of entries are those of each, where it has one.
pub proof fn law_address_parts(entries: Seq<Seq<char>>, e: Seq<char>)
    ensures
        address_parts(entries) == entries.map_values(|x: Seq<char>| bare_address(x)).filter(
            |x: Seq<char>| x.len() > 0,
        ),
        entries.contains(e) && bare_address(e).len() > 0 ==> address_parts(entries).contains(
            bare_address(e),
        ),
    decreases entries.len(),
{
    reveal(Seq::filter);
    let m = entries.map_values(|x: Seq<char>| bare_address(x));
    let some = |x: Seq<char>| x.len() > 0;
    if entries.len() > 0 {
        let d = entries.drop_last();
        law_address_parts(d, e);
        assert(m.drop_last() =~= d.map_values(|x: Seq<char>| bare_address(x)));
        assert(m.last() == bare_address(entries.last()));
        if entries.contains(e) && bare_address(e).len() > 0 {
            let k = choose|k: int| 0 <= k < entries.len() && entries[k] == e;
            let p = address_parts(d);
            let r = address_parts(entries);
            if k < d.len() {
                assert(d[k] == e);
                let j = choose|j: int| 0 <= j < p.len() && p[j] == bare_address(e);
                assert(r[j] == bare_address(e));
            } else {
                assert(r[p.len() as int] == bare_address(e));
            }
        }
    } else {
        assert(address_parts(entries) =~= m.filter(some));
    }
}

/// The backup of a config stands beside it under its name, with `.conf.bak`
/// in place of the extension; the file that is written first likewise.
pub proof fn law_names_beside_a_config(stem: Seq<char>, extension: Seq<char>)
    requires
        !contains_char(extension, '.'),
    ensures
        stem.len() > 0 ==> backup_name(stem + seq!['.'] + extension) == stem + ".conf.bak"@,
        stem.len() > 0 ==> temporary_name(stem + seq!['.'] + extension) == stem + ".conf.tmp"@,
        backup_name(extension) == extension + ".conf.bak"@,
        temporary_name(extension) == extension + ".conf.tmp"@,
{
    let name = stem + seq!['.'] + extension;
    lemma_last_dot(stem, extension);
    lemma_no_dot(extension);
    assert(name.take(stem.len() as int) =~= stem);
}

proof fn lemma_last_dot(stem: Seq<char>, extension: Seq<char>)
    requires
        !contains_char(extension, '.'),
    ensures
        last_dot(stem + seq!['.'] + extension) == stem.len(),
    decreases extension.len(),
{
    let name = stem + seq!['.'] + extension;
    if extension.len() == 0 {
        assert(name.last() == '.');
    } else {
        let d = extension.drop_last();
        assert(extension[extension.len() - 1] != '.');
        assert(name.last() == extension.last());
        assert(name.drop_last() =~= stem + seq!['.'] + d);
        assert(!contains_char(d, '.')) by {
            assert(forall|k: int| 0 <= k < d.len() ==> #[trigger] d[k] == extension[k]);
        }
        lemma_last_dot(stem, d);
    }
}

proof fn lemma_no_dot(name: Seq<char>)
    requires
        !contains_char(name, '.'),
    ensures
        last_dot(name) == -1,
    decreases name.len(),
{
    if name.len() > 0 {
        let d = name.drop_last();
        assert(name[name.len() - 1] != '.');
        assert(!contains_char(d, '.')) by {
            assert(forall|k: int| 0 <= k < d.len() ==> #[trigger] d[k] == name[k]);
        }
        lemma_no_dot(d);
    }
}

/// A survey adds up what it finds in each file, and counts the files in
/// which it finds something.
pub proof fn law_survey_adds_up(
    a: Seq<Seq<char>>,
    b: Seq<Seq<char>>,
    t: Seq<char>,
    removals: Set<Seq<char>>,
)
    ensures
        total_hits(a + b, removals) == total_hits(a, removals) + total_hits(b, removals),
        total_hits(seq![t], removals) == config_addresses(t).filter(
            |e: Seq<char>| removals.contains(bare_address(e)),
        ).len(),
        files_hit(a + b, removals) == files_hit(a, removals) + files_hit(b, removals),
        files_hit(seq![t], removals) == (if config_addresses(t).filter(
            |e: Seq<char>| removals.contains(bare_address(e)),
        ).len() > 0 {
            1nat
        } else {
            0
        }),
    decreases b.len(),
{
    if b.len() == 0 {
        assert(a + b =~= a);
    } else {
        law_survey_adds_up(a, b.drop_last(), t, removals);
        assert((a + b).drop_last() =~= a + b.drop_last());
        assert((a + b).last() == b.last());
    }
    reveal_with_fuel(total_hits, 2);
    reveal_with_fuel(files_hit, 2);
    assert(seq![t].drop_last() =~= Seq::<Seq<char>>::empty());
    assert(seq![t].last() == t);
    law_kept_entries_keep_their_order(config_addresses(t), removals);
}

} // verus!
