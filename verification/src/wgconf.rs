//! Reading and writing `AllowedIPs` inside WireGuard `.conf` files.
//!
//! The hard rule for this module: never lose a byte the owner did not ask to
//! change. A `.conf` carries private keys and endpoint data, and a tool that
//! rewrites the file wholesale and gets one detail wrong breaks the VPN.
//!
//! So the rewrite is line-based: every line that is not an `AllowedIPs` line
//! is kept as it is, with its own `\n` or `\r\n`. Of an `AllowedIPs` line
//! only the value is replaced; its indentation, the spelling of its key and
//! its line ending stay as found.

use vstd::prelude::*;

use crate::text::{
    chars_of, contains_char, eq_ignore_case, first_of, is_white_space, join, joined,
    law_joined_lists, law_split_cuts_at_separators, law_trim_takes_one_character,
    law_trim_takes_white_space, lemma_first_of, lemma_first_of_is, lemma_join_split,
    lemma_split_join, lemma_split_nonempty, lemma_split_pieces, lemma_texts_push, lemma_trim,
    lemma_trim_end, lemma_trim_end_all, lemma_trim_start, owned, same_ignoring_case, split,
    split_once, splitted, splitted_once, string_of, texts, trim, trim_end, trim_start, trimmed,
    trimmed_end, trimmed_start, Class,
};

verus! {

/// One line of a config, without the `\n` that ends it.
#[derive(Debug, Clone, PartialEq, Eq)]
enum Line {
    /// A line that must be kept verbatim.
    Verbatim(String),
    /// An `AllowedIPs` line, taken apart so that its value can be replaced:
    /// what stands up to and with the `=`, what follows it, and whether the
    /// line ended in a carriage return.
    AllowedIps { prefix: String, suffix: String, cr: bool },
}

/// A [`Line`] as character sequences.
pub enum LineView {
    Verbatim(Seq<char>),
    AllowedIps { prefix: Seq<char>, suffix: Seq<char>, cr: bool },
}

impl View for Line {
    type V = LineView;

    closed spec fn view(&self) -> LineView {
        match self {
            Line::Verbatim(s) => LineView::Verbatim(s@),
            Line::AllowedIps { prefix, suffix, cr } => LineView::AllowedIps {
                prefix: prefix@,
                suffix: suffix@,
                cr: *cr,
            },
        }
    }
}

/// A `.conf` file with its `AllowedIPs` lines addressable.
#[derive(Debug, Clone)]
pub struct WgConfig {
    lines: Vec<Line>,
}

impl View for WgConfig {
    type V = Seq<LineView>;

    closed spec fn view(&self) -> Seq<LineView> {
        Seq::new(self.lines@.len(), |i: int| self.lines@[i]@)
    }
}

// ---------------------------------------------------------------------------
// The file format
// ---------------------------------------------------------------------------

/// A line without the carriage return at its end.
pub open spec fn without_cr(l: Seq<char>) -> Seq<char> {
    if ends_in_cr(l) {
        l.drop_last()
    } else {
        l
    }
}

pub open spec fn ends_in_cr(l: Seq<char>) -> bool {
    l.len() > 0 && l.last() == '\r'
}

/// The two parts of an `AllowedIPs` line, up to and with the first `=` and
/// after it. The key matches in any case of letter and with white space
/// around it; a longer key such as `AllowedIPsList` does not match.
pub open spec fn allowed_ips_parts(l: Seq<char>) -> Option<(Seq<char>, Seq<char>)> {
    match split_once(l, '=') {
        Some((key, rest)) => if eq_ignore_case(trim(key), "allowedips"@) {
            Some((key.push('='), rest))
        } else {
            None
        },
        None => None,
    }
}

/// What a line of a file is.
pub open spec fn line(l: Seq<char>) -> LineView {
    match allowed_ips_parts(without_cr(l)) {
        Some((prefix, suffix)) => LineView::AllowedIps { prefix, suffix, cr: ends_in_cr(l) },
        None => LineView::Verbatim(l),
    }
}

/// The lines of a text, without the `\n` between them.
pub open spec fn raw_lines(text: Seq<char>) -> Seq<Seq<char>> {
    split(text, Class::One('\n'))
}

/// The lines of a file.
pub open spec fn conf(text: Seq<char>) -> Seq<LineView> {
    Seq::new(raw_lines(text).len(), |i: int| line(raw_lines(text)[i]))
}

/// A line as it is written: an `AllowedIPs` value loses the white space at
/// its end.
pub open spec fn line_text(l: LineView) -> Seq<char> {
    match l {
        LineView::Verbatim(s) => s,
        LineView::AllowedIps { prefix, suffix, cr } => prefix + trim_end(suffix, Class::White) + (
        if cr {
            seq!['\r']
        } else {
            Seq::empty()
        }),
    }
}

/// The text of a config.
pub open spec fn render(c: Seq<LineView>) -> Seq<char> {
    join(Seq::new(c.len(), |i: int| line_text(c[i])), seq!['\n'])
}

pub open spec fn is_allowed_ips(l: LineView) -> bool {
    l is AllowedIps
}

/// The value of an `AllowedIPs` line, without the white space around it.
pub open spec fn value_of(suffix: Seq<char>) -> Seq<char> {
    trim(trim_start(trim(suffix), Class::One('=')))
}

/// The values of the `AllowedIPs` lines, in order.
pub open spec fn values(c: Seq<LineView>) -> Seq<Seq<char>>
    decreases c.len(),
{
    if c.len() == 0 {
        Seq::empty()
    } else {
        match c.last() {
            LineView::AllowedIps { suffix, .. } => values(c.drop_last()).push(value_of(suffix)),
            LineView::Verbatim(_) => values(c.drop_last()),
        }
    }
}

/// True when there is a line to write a value into.
pub open spec fn has_allowed_ips_line(c: Seq<LineView>) -> bool {
    exists|i: int| 0 <= i < c.len() && is_allowed_ips(#[trigger] c[i])
}

/// A line with its value replaced, if it has one.
pub open spec fn with_value(l: LineView, value: Seq<char>) -> LineView {
    match l {
        LineView::Verbatim(s) => LineView::Verbatim(s),
        LineView::AllowedIps { prefix, suffix, cr } => LineView::AllowedIps {
            prefix,
            suffix: seq![' '] + value,
            cr,
        },
    }
}

/// A config with the value of every `AllowedIPs` line replaced.
pub open spec fn with_values(c: Seq<LineView>, value: Seq<char>) -> Seq<LineView> {
    Seq::new(c.len(), |i: int| with_value(c[i], value))
}

// ---------------------------------------------------------------------------
// Reading and writing
// ---------------------------------------------------------------------------

fn strip_cr(l: &str) -> (r: (String, bool))
    ensures
        r.0@ == without_cr(l@),
        r.1 == ends_in_cr(l@),
{
    let cs = chars_of(l);
    let n: usize = cs.len();
    if n > 0 && cs[n - 1] == '\r' {
        let s = string_of(cs.as_slice(), 0, n - 1);
        assert(s@ =~= l@.drop_last());
        (s, true)
    } else {
        (owned(l), false)
    }
}

/// The two parts of an `AllowedIPs` line, see [`allowed_ips_parts`].
pub fn split_allowed_ips(l: &str) -> (r: Option<(String, String)>)
    ensures
        match r {
            Some((p, s)) => allowed_ips_parts(l@) == Some((p@, s@)),
            None => allowed_ips_parts(l@) is None,
        },
{
    match splitted_once(l, '=') {
        Some((key, rest)) => {
            let bare = trimmed(key.as_str());
            if same_ignoring_case(bare.as_str(), "allowedips") {
                let mut prefix: String = key;
                prefix.push('=');
                Some((prefix, rest))
            } else {
                None
            }
        },
        None => None,
    }
}

/// The value of a line, when it is an `AllowedIPs` line.
pub fn line_value(l: &str) -> (r: Option<String>)
    ensures
        match r {
            Some(v) => line(l@) is AllowedIps && v@ == value_of(line(l@)->suffix),
            None => line(l@) is Verbatim,
        },
{
    let (body, _) = strip_cr(l);
    match split_allowed_ips(body.as_str()) {
        Some((_, suffix)) => {
            let a = trimmed(suffix.as_str());
            let b = trimmed_start(a.as_str(), Class::One('='));
            Some(trimmed(b.as_str()))
        },
        None => None,
    }
}

/// A line with its value replaced, if it has one.
pub fn line_with_value(l: &str, value: &str) -> (r: String)
    ensures
        r@ == line_text(with_value(line(l@), value@)),
{
    let (body, cr) = strip_cr(l);
    match split_allowed_ips(body.as_str()) {
        Some((prefix, _)) => {
            let mut padded: String = owned(" ");
            padded.append(value);
            proof {
                reveal_strlit(" ");
                assert(" "@ =~= seq![' ']);
            }
            let mut out: String = prefix;
            out.append(trimmed_end(padded.as_str(), Class::White).as_str());
            if cr {
                out.push('\r');
            }
            assert(out@ =~= line_text(with_value(line(l@), value@)));
            out
        },
        None => owned(l),
    }
}

impl WgConfig {
    /// Parse the text of a `.conf`.
    pub fn parse(text: &str) -> (r: Self)
        ensures
            r@ == conf(text@),
    {
        let raw = splitted(text, Class::One('\n'));
        let mut lines: Vec<Line> = Vec::new();
        let mut i: usize = 0;
        while i < raw.len()
            invariant
                i <= raw@.len(),
                lines@.len() == i,
                forall|k: int| 0 <= k < i ==> (#[trigger] lines@[k])@ == line(raw@[k]@),
            decreases raw@.len() - i,
        {
            let l: &String = &raw[i];
            let (body, cr) = strip_cr(l.as_str());
            match split_allowed_ips(body.as_str()) {
                Some((prefix, suffix)) => {
                    lines.push(Line::AllowedIps { prefix, suffix, cr });
                },
                None => {
                    lines.push(Line::Verbatim(l.clone()));
                },
            }
            i = i + 1;
        }
        let r = WgConfig { lines };
        proof {
            assert forall|k: int| 0 <= k < r@.len() implies #[trigger] r@[k] == conf(text@)[k] by {
                assert(texts(raw@)[k] == raw@[k]@);
                assert(r.lines@[k]@ == line(raw@[k]@));
            }
            assert(r@ =~= conf(text@));
        }
        r
    }

    /// Every `AllowedIPs` value in the file, in order, as written; a value
    /// that still holds a domain name is returned as that domain.
    pub fn allowed_ips(&self) -> (r: Vec<String>)
        ensures
            texts(r@) == values(self@),
    {
        let mut out: Vec<String> = Vec::new();
        let mut i: usize = 0;
        assert(texts(out@) =~= Seq::<Seq<char>>::empty());
        while i < self.lines.len()
            invariant
                i <= self.lines@.len() == self@.len(),
                texts(out@) == values(self@.take(i as int)),
            decreases self.lines@.len() - i,
        {
            let ghost done = out@;
            proof {
                let upto = self@.take(i + 1);
                assert(upto.drop_last() =~= self@.take(i as int));
                assert(upto.last() == self.lines@[i as int]@);
            }
            match &self.lines[i] {
                Line::AllowedIps { suffix, .. } => {
                    let a = trimmed(suffix.as_str());
                    let b = trimmed_start(a.as_str(), Class::One('='));
                    let c = trimmed(b.as_str());
                    proof {
                        lemma_texts_push(done, c);
                    }
                    out.push(c);
                },
                Line::Verbatim(_) => {},
            }
            i = i + 1;
        }
        assert(self@.take(self@.len() as int) =~= self@);
        out
    }

    /// True when the file has at least one `AllowedIPs` line to write into.
    pub fn has_allowed_ips(&self) -> (r: bool)
        ensures
            r == has_allowed_ips_line(self@),
    {
        let mut i: usize = 0;
        while i < self.lines.len()
            invariant
                i <= self.lines@.len() == self@.len(),
                forall|k: int| 0 <= k < i ==> !is_allowed_ips(#[trigger] self@[k]),
            decreases self.lines@.len() - i,
        {
            assert(self@[i as int] == self.lines@[i as int]@);
            match &self.lines[i] {
                Line::AllowedIps { .. } => {
                    return true;
                },
                Line::Verbatim(_) => {},
            }
            i = i + 1;
        }
        false
    }

    /// Replace every `AllowedIPs` value with `value`.
    ///
    /// When the file has several `AllowedIPs` lines they all get the same
    /// value: one host list drives every config, and a half-applied list
    /// across a file with several peers would be a silent inconsistency.
    pub fn set_allowed_ips(&mut self, value: &str)
        ensures
            final(self)@ == with_values(old(self)@, value@),
    {
        let mut out: Vec<Line> = Vec::new();
        let mut i: usize = 0;
        while i < self.lines.len()
            invariant
                i <= self.lines@.len(),
                self.lines@ == old(self).lines@,
                out@.len() == i,
                forall|k: int|
                    0 <= k < i ==> (#[trigger] out@[k])@ == with_value(
                        self.lines@[k]@,
                        value@,
                    ),
            decreases self.lines@.len() - i,
        {
            match &self.lines[i] {
                Line::AllowedIps { prefix, cr, .. } => {
                    let mut suffix: String = owned(" ");
                    suffix.append(value);
                    proof {
                        reveal_strlit(" ");
                        assert(" "@ =~= seq![' ']);
                    }
                    out.push(Line::AllowedIps { prefix: prefix.clone(), suffix, cr: *cr });
                },
                Line::Verbatim(s) => {
                    out.push(Line::Verbatim(s.clone()));
                },
            }
            i = i + 1;
        }
        self.lines = out;
        proof {
            let new = self@;
            let before = old(self)@;
            assert forall|k: int| 0 <= k < new.len() implies #[trigger] new[k] == with_values(
                before,
                value@,
            )[k] by {
                assert(self.lines@[k]@ == with_value(old(self).lines@[k]@, value@));
            }
            assert(new =~= with_values(before, value@));
        }
    }

    /// Render back to text.
    pub fn to_string(&self) -> (r: String)
        ensures
            r@ == render(self@),
    {
        let mut parts: Vec<String> = Vec::new();
        let mut i: usize = 0;
        while i < self.lines.len()
            invariant
                i <= self.lines@.len() == self@.len(),
                parts@.len() == i,
                forall|k: int| 0 <= k < i ==> (#[trigger] parts@[k])@ == line_text(self@[k]),
            decreases self.lines@.len() - i,
        {
            assert(self@[i as int] == self.lines@[i as int]@);
            match &self.lines[i] {
                Line::Verbatim(s) => {
                    parts.push(s.clone());
                },
                Line::AllowedIps { prefix, suffix, cr } => {
                    let mut l: String = prefix.clone();
                    let value = trimmed_end(suffix.as_str(), Class::White);
                    l.append(value.as_str());
                    if *cr {
                        l.push('\r');
                    }
                    assert(l@ =~= line_text(self@[i as int]));
                    parts.push(l);
                },
            }
            i = i + 1;
        }
        proof {
            reveal_strlit("\n");
            assert("\n"@ =~= seq!['\n']);
            assert(texts(parts@) =~= Seq::new(self@.len(), |k: int| line_text(self@[k])));
        }
        joined(parts.as_slice(), "\n")
    }
}

// ---------------------------------------------------------------------------
// Laws
// ---------------------------------------------------------------------------

/// The text of a config whose every `AllowedIPs` value was replaced.
pub open spec fn rewrite(text: Seq<char>, value: Seq<char>) -> Seq<char> {
    render(with_values(conf(text), value))
}

proof fn lemma_parts_no_newline(l: Seq<char>)
    requires
        !contains_char(l, '\n'),
    ensures
        match line(l) {
            LineView::AllowedIps { prefix, suffix, cr } => {
                let key = prefix.drop_last();
                &&& prefix == key.push('=')
                &&& !contains_char(key, '=')
                &&& !contains_char(prefix, '\n')
                &&& eq_ignore_case(trim(key), "allowedips"@)
                &&& without_cr(l) == prefix + suffix
                &&& l == prefix + suffix + (if cr {
                    seq!['\r']
                } else {
                    Seq::empty()
                })
            },
            LineView::Verbatim(s) => s == l,
        },
{
    let b = without_cr(l);
    if let LineView::AllowedIps { prefix, suffix, cr } = line(l) {
        let i = first_of(b, Class::One('=')) as int;
        lemma_first_of(b, Class::One('='));
        let key = b.take(i);
        assert(prefix == key.push('='));
        assert(prefix.drop_last() =~= key);
        assert forall|k: int| 0 <= k < key.len() implies key[k] != '=' by {
            assert(!Class::One('=').has(b[k]));
        }
        assert forall|k: int| 0 <= k < prefix.len() implies prefix[k] != '\n' by {
            if k < i {
                assert(prefix[k] == l[k]);
            }
        }
        assert(b =~= prefix + suffix);
        if cr {
            assert(l =~= b.push('\r'));
            assert(l =~= prefix + suffix + seq!['\r']);
        } else {
            assert(l =~= prefix + suffix + Seq::<char>::empty());
        }
    }
}

/// The parts of an `AllowedIPs` line, put together with another text behind
/// the `=` that does not end in white space, are read as those parts.
proof fn lemma_line_of_parts(l: Seq<char>, w: Seq<char>)
    requires
        !contains_char(l, '\n'),
        !contains_char(w, '\n'),
        trim_end(w, Class::White) == w,
        line(l) is AllowedIps,
    ensures
        ({
            let new = LineView::AllowedIps { prefix: line(l)->prefix, suffix: w, cr: line(l)->cr };
            &&& !contains_char(line_text(new), '\n')
            &&& line(line_text(new)) == new
        }),
{
    lemma_parts_no_newline(l);
    let prefix = line(l)->prefix;
    let cr = line(l)->cr;
    let key = prefix.drop_last();
    let t = line_text(LineView::AllowedIps { prefix, suffix: w, cr });
    lemma_trim_end(w, Class::White);
    assert forall|k: int| 0 <= k < t.len() implies t[k] != '\n' by {
        if k < prefix.len() {
            assert(t[k] == prefix[k]);
        } else if k < prefix.len() + w.len() {
            assert(t[k] == w[k - prefix.len()]);
        } else {
            assert(t[k] == '\r');
        }
    }
    if cr {
        assert(t.drop_last() =~= prefix + w);
        assert(t.last() == '\r');
    } else {
        assert(t =~= prefix + w);
        if w.len() > 0 {
            assert(t.last() == w.last());
            assert(!Class::White.has(w.last()));
            assert(Class::White.has('\r'));
        } else {
            assert(t.last() == '=');
        }
    }
    assert(without_cr(t) == prefix + w);
    assert(ends_in_cr(t) == cr);
    let b = prefix + w;
    assert(b[key.len() as int] == '=');
    assert forall|k: int| 0 <= k < key.len() implies !Class::One('=').has(#[trigger] b[k]) by {
        assert(b[k] == key[k]);
    }
    lemma_first_of_is(b, Class::One('='), key.len() as int);
    assert(b.take(key.len() as int) =~= key);
    assert(b.skip(key.len() as int + 1) =~= w);
}

/// What a trim at the end leaves holds no character that the text does not
/// hold.
proof fn lemma_trim_end_chars(s: Seq<char>, class: Class, c: char)
    requires
        !contains_char(s, c),
    ensures
        !contains_char(trim_end(s, class), c),
{
    let t = trim_end(s, class);
    lemma_trim_end(s, class);
    if contains_char(t, c) {
        let k = choose|k: int| 0 <= k < t.len() && t[k] == c;
        assert(s[k] == c);
    }
}

/// A rewritten `AllowedIPs` line is read as the same line with the new value.
pub proof fn lemma_line_of_rewritten(l: Seq<char>, value: Seq<char>)
    requires
        !contains_char(l, '\n'),
        !contains_char(value, '\n'),
    ensures
        !contains_char(line_text(with_value(line(l), value)), '\n'),
        line(line_text(with_value(line(l), value))) == match line(l) {
            LineView::Verbatim(s) => LineView::Verbatim(s),
            LineView::AllowedIps { prefix, suffix, cr } => LineView::AllowedIps {
                prefix,
                suffix: trim_end(seq![' '] + value, Class::White),
                cr,
            },
        },
{
    if line(l) is AllowedIps {
        let padded = seq![' '] + value;
        let w = trim_end(padded, Class::White);
        assert(!contains_char(padded, '\n')) by {
            if contains_char(padded, '\n') {
                let k = choose|k: int| 0 <= k < padded.len() && padded[k] == '\n';
                assert(value[k - 1] == '\n');
            }
        }
        lemma_trim_end_chars(padded, Class::White, '\n');
        lemma_trim_end_twice(padded, Class::White);
        lemma_line_of_parts(l, w);
    }
}

/// A line that was read and written is read as the same line, without the
/// white space at the end of its value.
proof fn lemma_line_of_rendered(l: Seq<char>)
    requires
        !contains_char(l, '\n'),
    ensures
        !contains_char(line_text(line(l)), '\n'),
        line(line_text(line(l))) == match line(l) {
            LineView::Verbatim(s) => LineView::Verbatim(s),
            LineView::AllowedIps { prefix, suffix, cr } => LineView::AllowedIps {
                prefix,
                suffix: trim_end(suffix, Class::White),
                cr,
            },
        },
{
    lemma_parts_no_newline(l);
    if let LineView::AllowedIps { prefix, suffix, cr } = line(l) {
        assert(!contains_char(suffix, '\n')) by {
            if contains_char(suffix, '\n') {
                let k = choose|k: int| 0 <= k < suffix.len() && suffix[k] == '\n';
                assert(l[prefix.len() + k] == '\n');
            }
        }
        lemma_trim_end_chars(suffix, Class::White, '\n');
        lemma_trim_end_twice(suffix, Class::White);
        lemma_line_of_parts(l, trim_end(suffix, Class::White));
    }
}

/// A text has a line at least, and no line holds a line break.
pub proof fn lemma_raw_lines(text: Seq<char>)
    ensures
        raw_lines(text).len() > 0,
        forall|i: int|
            0 <= i < raw_lines(text).len() ==> !contains_char(
                #[trigger] raw_lines(text)[i],
                '\n',
            ),
{
    let raw = raw_lines(text);
    lemma_split_pieces(text, Class::One('\n'));
    lemma_split_nonempty(text, Class::One('\n'));
    assert forall|i: int| 0 <= i < raw.len() implies !contains_char(#[trigger] raw[i], '\n') by {
        assert forall|k: int| 0 <= k < raw[i].len() implies raw[i][k] != '\n' by {
            assert(!Class::One('\n').has(split(text, Class::One('\n'))[i][k]));
        }
    }
}

/// The lines of a rewritten text, one by one.
proof fn lemma_rewritten_lines(text: Seq<char>, value: Seq<char>)
    requires
        !contains_char(value, '\n'),
    ensures
        raw_lines(rewrite(text, value)).len() == raw_lines(text).len(),
        forall|i: int|
            0 <= i < raw_lines(text).len() ==> #[trigger] raw_lines(rewrite(text, value))[i]
                == line_text(with_value(line(raw_lines(text)[i]), value)),
        forall|i: int|
            0 <= i < raw_lines(text).len() ==> !contains_char(
                #[trigger] raw_lines(text)[i],
                '\n',
            ),
{
    let raw = raw_lines(text);
    let c = with_values(conf(text), value);
    let out = Seq::new(c.len(), |i: int| line_text(c[i]));
    lemma_raw_lines(text);
    assert forall|i: int| 0 <= i < out.len() implies !contains_char(#[trigger] out[i], '\n') by {
        assert(out[i] == line_text(with_value(line(raw[i]), value)));
        lemma_line_of_rewritten(raw[i], value);
    }
    lemma_split_join(out, '\n');
}

/// A rewrite keeps every line that is not an `AllowedIPs` line as it is, in
/// its place, and of an `AllowedIPs` line everything up to the `=` and the
/// line ending.
pub proof fn law_rewrite_keeps_other_lines(text: Seq<char>, value: Seq<char>)
    requires
        !contains_char(value, '\n'),
    ensures
        raw_lines(rewrite(text, value)).len() == raw_lines(text).len(),
        forall|i: int|
            0 <= i < raw_lines(text).len() ==> match line(#[trigger] raw_lines(text)[i]) {
                LineView::Verbatim(_) => raw_lines(rewrite(text, value))[i] == raw_lines(text)[i],
                LineView::AllowedIps { prefix, suffix, cr } => {
                    &&& raw_lines(text)[i] == prefix + suffix + (if cr {
                        seq!['\r']
                    } else {
                        Seq::empty()
                    })
                    &&& raw_lines(rewrite(text, value))[i] == prefix + trim_end(
                        seq![' '] + value,
                        Class::White,
                    ) + (if cr {
                        seq!['\r']
                    } else {
                        Seq::empty()
                    })
                },
            },
{
    lemma_rewritten_lines(text, value);
    assert forall|i: int| 0 <= i < raw_lines(text).len() implies match line(
        #[trigger] raw_lines(text)[i],
    ) {
        LineView::Verbatim(_) => raw_lines(rewrite(text, value))[i] == raw_lines(text)[i],
        LineView::AllowedIps { prefix, suffix, cr } => {
            &&& raw_lines(text)[i] == prefix + suffix + (if cr {
                seq!['\r']
            } else {
                Seq::empty()
            })
            &&& raw_lines(rewrite(text, value))[i] == prefix + trim_end(
                seq![' '] + value,
                Class::White,
            ) + (if cr {
                seq!['\r']
            } else {
                Seq::empty()
            })
        },
    } by {
        lemma_parts_no_newline(raw_lines(text)[i]);
        assert(raw_lines(rewrite(text, value))[i] == line_text(
            with_value(line(raw_lines(text)[i]), value),
        ));
    }
}

/// A rewritten text is read as the same lines with the new value.
proof fn lemma_conf_of_rewritten(text: Seq<char>, value: Seq<char>)
    requires
        !contains_char(value, '\n'),
    ensures
        conf(rewrite(text, value)).len() == conf(text).len(),
        forall|i: int|
            0 <= i < conf(text).len() ==> #[trigger] conf(rewrite(text, value))[i] == match conf(
                text,
            )[i] {
                LineView::Verbatim(s) => LineView::Verbatim(s),
                LineView::AllowedIps { prefix, suffix, cr } => LineView::AllowedIps {
                    prefix,
                    suffix: trim_end(seq![' '] + value, Class::White),
                    cr,
                },
            },
{
    lemma_rewritten_lines(text, value);
    assert forall|i: int| 0 <= i < conf(text).len() implies #[trigger] conf(
        rewrite(text, value),
    )[i] == match conf(text)[i] {
        LineView::Verbatim(s) => LineView::Verbatim(s),
        LineView::AllowedIps { prefix, suffix, cr } => LineView::AllowedIps {
            prefix,
            suffix: trim_end(seq![' '] + value, Class::White),
            cr,
        },
    } by {
        let raw = raw_lines(text)[i];
        lemma_line_of_rewritten(raw, value);
        assert(raw_lines(rewrite(text, value))[i] == line_text(with_value(line(raw), value)));
    }
}

/// Writing the same value a second time changes nothing.
pub proof fn law_rewrite_idempotent(text: Seq<char>, value: Seq<char>)
    requires
        !contains_char(value, '\n'),
    ensures
        rewrite(rewrite(text, value), value) == rewrite(text, value),
{
    lemma_conf_of_rewritten(text, value);
    let once = conf(rewrite(text, value));
    assert(with_values(once, value) =~= with_values(conf(text), value)) by {
        assert forall|i: int| 0 <= i < once.len() implies #[trigger] with_values(once, value)[i]
            == with_values(conf(text), value)[i] by {
            assert(once[i] == conf(rewrite(text, value))[i]);
        }
    }
}

/// A file without an `AllowedIPs` line is left exactly as it was.
pub proof fn law_rewrite_without_key(text: Seq<char>, value: Seq<char>)
    requires
        !has_allowed_ips_line(conf(text)),
    ensures
        rewrite(text, value) == text,
{
    let c = conf(text);
    let out = Seq::new(c.len(), |i: int| line_text(with_values(c, value)[i]));
    assert forall|i: int| 0 <= i < c.len() implies #[trigger] out[i] == raw_lines(text)[i] by {
        assert(!is_allowed_ips(c[i]));
        assert(c[i] == line(raw_lines(text)[i]));
    }
    assert(out =~= raw_lines(text));
    assert(Seq::new(
        with_values(c, value).len(),
        |i: int| line_text(with_values(c, value)[i]),
    ) =~= raw_lines(text));
    lemma_join_split(text, '\n');
}

/// Parsing and rendering gives the text back, when no `AllowedIPs` line has
/// white space at its end.
pub proof fn law_render_parsed(text: Seq<char>)
    requires
        forall|i: int|
            0 <= i < conf(text).len() ==> match #[trigger] conf(text)[i] {
                LineView::AllowedIps { suffix, .. } => trim_end(suffix, Class::White) == suffix,
                LineView::Verbatim(_) => true,
            },
    ensures
        render(conf(text)) == text,
{
    let c = conf(text);
    let raw = raw_lines(text);
    lemma_raw_lines(text);
    assert forall|i: int| 0 <= i < c.len() implies line_text(#[trigger] c[i]) == raw[i] by {
        assert(!contains_char(raw[i], '\n'));
        lemma_parts_no_newline(raw[i]);
    }
    assert(Seq::new(c.len(), |i: int| line_text(c[i])) =~= raw);
    lemma_join_split(text, '\n');
}

/// The white space around a text does not change its trimmed form.
pub proof fn lemma_trim_of_padded(value: Seq<char>)
    ensures
        trim(trim_end(seq![' '] + value, Class::White)) == trim(value),
{
    let w = Class::White;
    let p = seq![' '] + value;
    assert(p.drop_first() =~= value);
    assert(trim_start(p, w) == trim_start(value, w));
    lemma_trim_end_start(p);
    lemma_trim_end_twice(trim_start(p, w), w);
}

/// Trimming at the end, then at both ends, is trimming at both ends.
proof fn lemma_trim_end_start(s: Seq<char>)
    ensures
        trim(trim_end(s, Class::White)) == trim(s),
    decreases s.len(),
{
    let w = Class::White;
    if s.len() > 0 && w.has(s.last()) {
        let d = s.drop_last();
        lemma_trim_end_start(d);
        assert(trim_end(s, w) == trim_end(d, w));
        assert(trim(d) == trim(s)) by {
            lemma_trim_start_drop_last(s);
        }
    }
}

/// White space at the end of a text does not outlive a trim.
proof fn lemma_trim_start_drop_last(s: Seq<char>)
    requires
        s.len() > 0,
        Class::White.has(s.last()),
    ensures
        trim_end(trim_start(s.drop_last(), Class::White), Class::White) == trim_end(
            trim_start(s, Class::White),
            Class::White,
        ),
    decreases s.len(),
{
    let w = Class::White;
    let d = s.drop_last();
    if w.has(s[0]) {
        if s.len() == 1 {
            assert(d.len() == 0);
            assert(s.drop_first().len() == 0);
            assert(s.drop_first() =~= d);
        } else {
            assert(d.drop_first() =~= s.drop_first().drop_last());
            assert(s.drop_first().last() == s.last());
            lemma_trim_start_drop_last(s.drop_first());
            assert(d[0] == s[0]);
        }
    } else {
        assert(s.len() > 1);
        assert(d[0] == s[0]);
    }
}

proof fn lemma_trim_end_twice(s: Seq<char>, class: Class)
    ensures
        trim_end(trim_end(s, class), class) == trim_end(s, class),
{
    lemma_trim_end(s, class);
}

/// Reading back what was written: every `AllowedIPs` line has the value, up
/// to the white space around it.
pub proof fn law_read_back(text: Seq<char>, value: Seq<char>)
    requires
        !contains_char(value, '\n'),
    ensures
        values(conf(rewrite(text, value))).len() == values(conf(text)).len(),
        forall|i: int|
            0 <= i < values(conf(text)).len() ==> #[trigger] values(
                conf(rewrite(text, value)),
            )[i] == value_of(value),
        trim(value) == value && (value.len() > 0 ==> value[0] != '=') ==> value_of(value) == value,
        has_allowed_ips_line(conf(rewrite(text, value))) == has_allowed_ips_line(conf(text)),
{
    lemma_conf_of_rewritten(text, value);
    let a = conf(text);
    let b = conf(rewrite(text, value));
    lemma_trim_of_padded(value);
    assert forall|i: int| 0 <= i < a.len() implies (#[trigger] a[i] is AllowedIps) == (
    b[i] is AllowedIps) && (b[i] is AllowedIps ==> value_of(b[i]->suffix) == value_of(value)) by {
        assert(b[i] == conf(rewrite(text, value))[i]);
    }
    lemma_values_all(a, b, value_of(value));
    if has_allowed_ips_line(a) {
        let i = choose|i: int| 0 <= i < a.len() && is_allowed_ips(#[trigger] a[i]);
        assert(is_allowed_ips(b[i]));
    }
    if has_allowed_ips_line(b) {
        let i = choose|i: int| 0 <= i < b.len() && is_allowed_ips(#[trigger] b[i]);
        assert(is_allowed_ips(a[i]));
    }
    if trim(value) == value && (value.len() > 0 ==> value[0] != '=') {
        assert(trim_start(value, Class::One('=')) == value);
    }
}

proof fn lemma_values_all(a: Seq<LineView>, b: Seq<LineView>, v: Seq<char>)
    requires
        a.len() == b.len(),
        forall|i: int|
            0 <= i < a.len() ==> (#[trigger] a[i] is AllowedIps) == (b[i] is AllowedIps) && (
            b[i] is AllowedIps ==> value_of(b[i]->suffix) == v),
    ensures
        values(a).len() == values(b).len(),
        forall|i: int| 0 <= i < values(b).len() ==> #[trigger] values(b)[i] == v,
    decreases a.len(),
{
    if a.len() > 0 {
        let c = a.drop_last();
        let d = b.drop_last();
        assert forall|i: int| 0 <= i < c.len() implies (#[trigger] c[i] is AllowedIps) == (
        d[i] is AllowedIps) && (d[i] is AllowedIps ==> value_of(d[i]->suffix) == v) by {
            assert(c[i] == a[i]);
        }
        lemma_values_all(c, d, v);
        assert((a[a.len() - 1] is AllowedIps) == (b[a.len() - 1] is AllowedIps));
    }
}

/// What was written is rendered as it was written.
pub proof fn law_render_rewritten(text: Seq<char>, value: Seq<char>)
    requires
        !contains_char(value, '\n'),
    ensures
        render(conf(rewrite(text, value))) == rewrite(text, value),
{
    lemma_conf_of_rewritten(text, value);
    lemma_trim_end_twice(seq![' '] + value, Class::White);
    let once = conf(rewrite(text, value));
    assert forall|i: int| 0 <= i < once.len() implies match #[trigger] once[i] {
        LineView::AllowedIps { suffix, .. } => trim_end(suffix, Class::White) == suffix,
        LineView::Verbatim(_) => true,
    } by {
        assert(conf(text)[i] == conf(text)[i]);
    }
    law_render_parsed(rewrite(text, value));
}

proof fn lemma_values_same(a: Seq<LineView>, b: Seq<LineView>)
    requires
        a.len() == b.len(),
        forall|i: int|
            0 <= i < a.len() ==> (#[trigger] a[i] is AllowedIps) == (b[i] is AllowedIps) && (
            a[i] is AllowedIps ==> value_of(a[i]->suffix) == value_of(b[i]->suffix)),
    ensures
        values(a) == values(b),
    decreases a.len(),
{
    if a.len() > 0 {
        let c = a.drop_last();
        let d = b.drop_last();
        assert forall|i: int| 0 <= i < c.len() implies (#[trigger] c[i] is AllowedIps) == (
        d[i] is AllowedIps) && (c[i] is AllowedIps ==> value_of(c[i]->suffix) == value_of(
            d[i]->suffix,
        )) by {
            assert(c[i] == a[i]);
        }
        lemma_values_same(c, d);
        assert((a[a.len() - 1] is AllowedIps) == (b[a.len() - 1] is AllowedIps));
    }
}

/// Every text settles once it is read and written: read and written again it
/// is the same, and it has the values that it had at first, in the same
/// number of lines.
pub proof fn law_rendered_text_is_stable(text: Seq<char>)
    ensures
        render(conf(render(conf(text)))) == render(conf(text)),
        values(conf(render(conf(text)))) == values(conf(text)),
        has_allowed_ips_line(conf(render(conf(text)))) == has_allowed_ips_line(conf(text)),
        conf(render(conf(text))).len() == conf(text).len(),
{
    let raw = raw_lines(text);
    let a = conf(text);
    let out = Seq::new(a.len(), |i: int| line_text(a[i]));
    let once = render(a);
    let b = conf(once);
    lemma_raw_lines(text);
    assert forall|i: int| 0 <= i < out.len() implies !contains_char(#[trigger] out[i], '\n') by {
        assert(!contains_char(raw[i], '\n'));
        lemma_line_of_rendered(raw[i]);
    }
    lemma_split_join(out, '\n');
    assert(raw_lines(once) == out);
    assert forall|i: int| 0 <= i < a.len() implies #[trigger] b[i] == match a[i] {
        LineView::Verbatim(s) => LineView::Verbatim(s),
        LineView::AllowedIps { prefix, suffix, cr } => LineView::AllowedIps {
            prefix,
            suffix: trim_end(suffix, Class::White),
            cr,
        },
    } by {
        assert(!contains_char(raw[i], '\n'));
        lemma_line_of_rendered(raw[i]);
        assert(raw_lines(once)[i] == out[i]);
    }
    assert forall|i: int| 0 <= i < b.len() implies match #[trigger] b[i] {
        LineView::AllowedIps { suffix, .. } => trim_end(suffix, Class::White) == suffix,
        LineView::Verbatim(_) => true,
    } by {
        if let LineView::AllowedIps { suffix, .. } = a[i] {
            lemma_trim_end_twice(suffix, Class::White);
        }
    }
    law_render_parsed(once);
    assert forall|i: int| 0 <= i < b.len() implies (#[trigger] b[i] is AllowedIps) == (
    a[i] is AllowedIps) && (b[i] is AllowedIps ==> value_of(b[i]->suffix) == value_of(
        a[i]->suffix,
    )) by {
        if let LineView::AllowedIps { suffix, .. } = a[i] {
            lemma_trim_end_start(suffix);
        }
    }
    lemma_values_same(b, a);
    if has_allowed_ips_line(a) {
        let i = choose|i: int| 0 <= i < a.len() && is_allowed_ips(#[trigger] a[i]);
        assert(is_allowed_ips(b[i]));
    }
    if has_allowed_ips_line(b) {
        let i = choose|i: int| 0 <= i < b.len() && is_allowed_ips(#[trigger] b[i]);
        assert(is_allowed_ips(a[i]));
    }
}

/// The value of a line holds no character that the line does not hold.
pub proof fn lemma_value_chars(l: Seq<char>, c: char)
    requires
        !contains_char(l, '\n'),
        line(l) is AllowedIps,
        contains_char(value_of(line(l)->suffix), c),
    ensures
        contains_char(l, c),
{
    lemma_parts_no_newline(l);
    let prefix = line(l)->prefix;
    let suffix = line(l)->suffix;
    let t = trim_start(trim(suffix), Class::One('='));
    lemma_trim(suffix);
    lemma_trim_start(trim(suffix), Class::One('='));
    lemma_trim(t);
    assert(contains_char(t, c));
    let k = choose|k: int| 0 <= k < t.len() && t[k] == c;
    assert(trim(suffix)[k + trim(suffix).len() - t.len()] == c);
    assert(contains_char(trim(suffix), c));
    assert(contains_char(suffix, c));
    let j = choose|j: int| 0 <= j < suffix.len() && suffix[j] == c;
    assert(l[prefix.len() + j] == c);
}

/// The key decides what a line is: the first `=` ends it, the white space
/// round it and the case of its letters do not count, and a carriage return
/// at the end of the line is no part of the value.
pub proof fn law_key_decides_the_line(key: Seq<char>, rest: Seq<char>)
    requires
        !contains_char(key, '='),
    ensures
        ({
            let l = key + seq!['='] + rest;
            let is_key = eq_ignore_case(trim(key), "allowedips"@);
            let prefix = key.push('=');
            &&& is_key && !(rest.len() > 0 && rest.last() == '\r') ==> line(l)
                == LineView::AllowedIps { prefix, suffix: rest, cr: false }
            &&& is_key ==> line(l.push('\r')) == LineView::AllowedIps {
                prefix,
                suffix: rest,
                cr: true,
            }
            &&& !is_key ==> line(l) == LineView::Verbatim(l) && line(l.push('\r'))
                == LineView::Verbatim(l.push('\r'))
        }),
        line(key) == LineView::Verbatim(key),
{
    let l = key + seq!['='] + rest;
    let i = key.len() as int;
    assert(l[i] == '=');
    assert forall|k: int| 0 <= k < i implies !Class::One('=').has(#[trigger] l[k]) by {
        assert(l[k] == key[k]);
    }
    lemma_first_of_is(l, Class::One('='), i);
    assert(l.take(i) =~= key);
    assert(l.skip(i + 1) =~= rest);
    assert(l.push('\r').drop_last() =~= l);
    lemma_first_of(key, Class::One('='));
    lemma_first_of(without_cr(key), Class::One('='));
    if !(rest.len() > 0 && rest.last() == '\r') {
        assert(!ends_in_cr(l));
    } else {
        let m = l.drop_last();
        assert forall|k: int| 0 <= k < i implies !Class::One('=').has(#[trigger] m[k]) by {
            assert(m[k] == key[k]);
        }
        assert(m[i] == '=');
        lemma_first_of_is(m, Class::One('='), i);
        assert(m.take(i) =~= key);
    }
    let j = first_of(without_cr(key), Class::One('=')) as int;
    if j < without_cr(key).len() {
        assert(key[j] == '=');
    }
}

/// A text is read, written and rewritten line by line: what stands before a
/// line break has nothing to do with what stands after it.
pub proof fn law_lines_are_independent(a: Seq<char>, b: Seq<char>, value: Seq<char>)
    ensures
        ({
            let text = a + seq!['\n'] + b;
            &&& conf(text) == conf(a) + conf(b)
            &&& values(conf(text)) == values(conf(a)) + values(conf(b))
            &&& has_allowed_ips_line(conf(text)) <==> has_allowed_ips_line(conf(a))
                || has_allowed_ips_line(conf(b))
            &&& render(conf(text)) == render(conf(a)) + seq!['\n'] + render(conf(b))
            &&& rewrite(text, value) == rewrite(a, value) + seq!['\n'] + rewrite(b, value)
        }),
{
    let text = a + seq!['\n'] + b;
    let c = conf(text);
    let x = conf(a);
    let y = conf(b);
    law_split_cuts_at_separators(a, '\n', b, Class::One('\n'));
    lemma_raw_lines(a);
    lemma_raw_lines(b);
    assert(c =~= x + y);
    lemma_values_concat(x, y);
    if has_allowed_ips_line(x) {
        let i = choose|i: int| 0 <= i < x.len() && is_allowed_ips(#[trigger] x[i]);
        assert(c[i] == x[i]);
    }
    if has_allowed_ips_line(y) {
        let i = choose|i: int| 0 <= i < y.len() && is_allowed_ips(#[trigger] y[i]);
        assert(c[x.len() + i] == y[i]);
    }
    if has_allowed_ips_line(c) {
        let i = choose|i: int| 0 <= i < c.len() && is_allowed_ips(#[trigger] c[i]);
        if i < x.len() {
            assert(is_allowed_ips(x[i]));
        } else {
            assert(is_allowed_ips(y[i - x.len()]));
        }
    }
    lemma_render_concat(x, y);
    assert(with_values(c, value) =~= with_values(x, value) + with_values(y, value));
    lemma_render_concat(with_values(x, value), with_values(y, value));
}

proof fn lemma_values_concat(x: Seq<LineView>, y: Seq<LineView>)
    ensures
        values(x + y) == values(x) + values(y),
    decreases y.len(),
{
    if y.len() == 0 {
        assert(x + y =~= x);
        assert(values(x) + values(y) =~= values(x));
    } else {
        lemma_values_concat(x, y.drop_last());
        assert((x + y).drop_last() =~= x + y.drop_last());
        assert((x + y).last() == y.last());
        assert(values(x + y) =~= values(x) + values(y));
    }
}

proof fn lemma_render_concat(x: Seq<LineView>, y: Seq<LineView>)
    requires
        x.len() > 0,
        y.len() > 0,
    ensures
        render(x + y) == render(x) + seq!['\n'] + render(y),
{
    let p = Seq::new(x.len(), |i: int| line_text(x[i]));
    let q = Seq::new(y.len(), |i: int| line_text(y[i]));
    assert(Seq::new((x + y).len(), |i: int| line_text((x + y)[i])) =~= p + q);
    law_joined_lists(p, q, seq!['\n']);
}

proof fn lemma_single_line(l: Seq<char>)
    requires
        !contains_char(l, '\n'),
    ensures
        conf(l) == seq![line(l)],
        render(conf(l)) == line_text(line(l)),
        forall|value: Seq<char>| #[trigger]
            rewrite(l, value) == line_text(with_value(line(l), value)),
        values(conf(l)) == (match line(l) {
            LineView::AllowedIps { suffix, .. } => seq![value_of(suffix)],
            LineView::Verbatim(_) => Seq::empty(),
        }),
{
    law_split_cuts_at_separators(l, '\n', l, Class::One('\n'));
    assert forall|k: int| 0 <= k < l.len() implies !Class::One('\n').has(#[trigger] l[k]) by {
        assert(l[k] != '\n');
    }
    assert(conf(l) =~= seq![line(l)]);
    let c = conf(l);
    let out = Seq::new(c.len(), |i: int| line_text(c[i]));
    assert(out.len() == 1 && out[0] == line_text(line(l)));
    assert forall|value: Seq<char>| #[trigger] rewrite(l, value) == line_text(
        with_value(line(l), value),
    ) by {
        let d = with_values(c, value);
        let w = Seq::new(d.len(), |i: int| line_text(d[i]));
        assert(w.len() == 1 && w[0] == line_text(with_value(line(l), value)));
    }
    reveal_with_fuel(values, 2);
    assert(c.drop_last() =~= Seq::<LineView>::empty());
    assert(values(c.drop_last()) =~= Seq::<Seq<char>>::empty());
    assert(c.last() == line(l));
}

proof fn lemma_padded_value(a: Seq<char>, s: Seq<char>, b: Seq<char>)
    requires
        forall|k: int| 0 <= k < a.len() ==> is_white_space(#[trigger] a[k]),
        forall|k: int| 0 <= k < b.len() ==> is_white_space(#[trigger] b[k]),
        s.len() > 0 && !is_white_space(s[0]) && !is_white_space(s.last()) && s[0] != '=',
    ensures
        value_of(a + s + b) == s,
        trim_end(a + s + b, Class::White) == a + s,
{
    law_trim_takes_white_space(a, s, b);
    let none = Seq::<char>::empty();
    law_trim_takes_white_space(none, s, none);
    assert(none + s + none =~= s);
    assert(trim_start(s, Class::One('=')) == s);
    lemma_trim_end_all(a + s, b);
    assert((a + s).last() == s.last());
}

proof fn lemma_one_line(a: Seq<char>, b: Seq<char>, end: Seq<char>)
    requires
        !contains_char(a + b, '\n'),
        end == seq!['\r'] || end.len() == 0,
    ensures
        !contains_char(a + seq!['='] + b + end, '\n'),
{
    let all = a + b;
    let l = a + seq!['='] + b + end;
    if contains_char(l, '\n') {
        let k = choose|k: int| 0 <= k < l.len() && l[k] == '\n';
        if k < a.len() {
            assert(all[k] == '\n');
        } else if k <= all.len() {
            assert(all[k - 1] == '\n');
        }
    }
}

proof fn lemma_line_read(key: Seq<char>, rest: Seq<char>, end: Seq<char>)
    requires
        eq_ignore_case(trim(key), "allowedips"@),
        !contains_char(key, '='),
        rest.len() > 0,
        rest.last() != '\r',
        end == seq!['\r'] || end.len() == 0,
    ensures
        line(key + seq!['='] + rest + end) == (LineView::AllowedIps {
            prefix: key.push('='),
            suffix: rest,
            cr: end.len() > 0,
        }),
{
    let l = key + seq!['='] + rest;
    law_key_decides_the_line(key, rest);
    if end.len() > 0 {
        assert(l + end =~= l.push('\r'));
    } else {
        assert(l + end =~= l);
    }
}

/// One line with the key has one value, what stands behind the `=` without
/// the white space round it. A rewrite puts the new value there behind one
/// blank, and leaves the key and the line ending.
pub proof fn law_line_has_one_value(
    key: Seq<char>,
    a: Seq<char>,
    s: Seq<char>,
    b: Seq<char>,
    cr: bool,
    value: Seq<char>,
)
    requires
        eq_ignore_case(trim(key), "allowedips"@),
        !contains_char(key, '='),
        !contains_char(key + a + s + b, '\n'),
        forall|k: int| 0 <= k < a.len() ==> is_white_space(#[trigger] a[k]),
        forall|k: int| 0 <= k < b.len() ==> is_white_space(#[trigger] b[k]),
        s.len() > 0 && !is_white_space(s[0]) && !is_white_space(s.last()) && s[0] != '=',
        b.len() > 0 ==> b.last() != '\r',
        value.len() > 0 && !is_white_space(value.last()),
    ensures
        ({
            let end = if cr {
                seq!['\r']
            } else {
                Seq::empty()
            };
            let l = key + seq!['='] + a + s + b + end;
            &&& has_allowed_ips_line(conf(l))
            &&& values(conf(l)) == seq![s]
            &&& rewrite(l, value) == key + seq!['=', ' '] + value + end
            &&& render(conf(l)) == key + seq!['='] + a + s + end
        }),
{
    let end = if cr {
        seq!['\r']
    } else {
        Seq::empty()
    };
    let rest = a + s + b;
    let l = key + seq!['='] + a + s + b + end;
    assert(l =~= key + seq!['='] + rest + end);
    assert(rest.last() != '\r') by {
        if b.len() == 0 {
            assert(rest.last() == s.last());
        } else {
            assert(rest.last() == b.last());
        }
    }
    lemma_line_read(key, rest, end);
    assert(key + a + s + b =~= key + rest);
    lemma_one_line(key, rest, end);
    lemma_single_line(l);
    assert(is_allowed_ips(conf(l)[0]));
    lemma_padded_value(a, s, b);
    let padded = seq![' '] + value;
    assert(padded.last() == value.last());
    assert(trim_end(padded, Class::White) == padded);
    assert(rewrite(l, value) == key.push('=') + padded + end);
    assert(key.push('=') + padded + end =~= key + seq!['=', ' '] + value + end);
    assert(render(conf(l)) == key.push('=') + (a + s) + end);
    assert(key.push('=') + (a + s) + end =~= key + seq!['='] + a + s + end);
}

/// A line with another key, or none, has no value and stays as it is.
pub proof fn law_other_lines_stay(l: Seq<char>, value: Seq<char>)
    requires
        !contains_char(l, '\n'),
        match split_once(l, '=') {
            Some((key, _)) => !eq_ignore_case(trim(key), "allowedips"@),
            None => true,
        },
    ensures
        values(conf(l)).len() == 0,
        !has_allowed_ips_line(conf(l)),
        rewrite(l, value) == l,
        render(conf(l)) == l,
{
    lemma_first_of(l, Class::One('='));
    let i = first_of(l, Class::One('=')) as int;
    if i < l.len() {
        let key = l.take(i);
        let rest = l.skip(i + 1);
        assert(!contains_char(key, '=')) by {
            assert(forall|k: int| 0 <= k < i ==> key[k] == #[trigger] l[k]);
        }
        assert(l =~= key + seq!['='] + rest);
        law_key_decides_the_line(key, rest);
    } else {
        assert(!contains_char(l, '='));
        law_key_decides_the_line(l, l);
    }
    lemma_single_line(l);
}

/// Giving every line the value changes a text if and only if some
/// `AllowedIPs` line reads otherwise, white space at its end aside.
pub proof fn law_rewrite_changes_other_values(text: Seq<char>, value: Seq<char>)
    requires
        !contains_char(value, '\n'),
    ensures
        rewrite(text, value) != render(conf(text)) <==> exists|i: int|
            0 <= i < conf(text).len() && (#[trigger] conf(text)[i]) is AllowedIps && trim_end(
                conf(text)[i]->suffix,
                Class::White,
            ) != trim_end(seq![' '] + value, Class::White),
{
    let c = conf(text);
    let d = with_values(c, value);
    let out = Seq::new(c.len(), |i: int| line_text(c[i]));
    let new = Seq::new(d.len(), |i: int| line_text(d[i]));
    lemma_rewritten_lines(text, value);
    lemma_raw_lines(text);
    assert forall|i: int| 0 <= i < out.len() implies !contains_char(#[trigger] out[i], '\n') by {
        lemma_line_of_rendered(raw_lines(text)[i]);
    }
    assert forall|i: int| 0 <= i < new.len() implies !contains_char(#[trigger] new[i], '\n') by {
        lemma_line_of_rewritten(raw_lines(text)[i], value);
    }
    lemma_split_join(out, '\n');
    lemma_split_join(new, '\n');
    if rewrite(text, value) == render(c) {
        assert(out == new);
        assert forall|i: int| 0 <= i < c.len() && (#[trigger] c[i]) is AllowedIps implies trim_end(
            c[i]->suffix,
            Class::White,
        ) == trim_end(seq![' '] + value, Class::White) by {
            lemma_line_of_rendered(raw_lines(text)[i]);
            lemma_line_of_rewritten(raw_lines(text)[i], value);
            assert(out[i] == new[i]);
        }
    } else {
        if forall|i: int|
            0 <= i < c.len() && (#[trigger] c[i]) is AllowedIps ==> trim_end(
                c[i]->suffix,
                Class::White,
            ) == trim_end(seq![' '] + value, Class::White) {
            assert forall|i: int| 0 <= i < c.len() implies #[trigger] out[i] == new[i] by {
                assert(d[i] == with_value(c[i], value));
                assert(c[i] is AllowedIps || c[i] is Verbatim);
            }
            assert(out =~= new);
        }
    }
}

/// A config has as many values as it has `AllowedIPs` lines.
pub proof fn law_lines_with_a_value(c: Seq<LineView>)
    ensures
        values(c).len() == c.filter(|l: LineView| l is AllowedIps).len(),
        values(c).len() > 0 <==> has_allowed_ips_line(c),
    decreases c.len(),
{
    reveal(Seq::filter);
    if c.len() > 0 {
        let d = c.drop_last();
        law_lines_with_a_value(d);
        if has_allowed_ips_line(d) {
            let i = choose|i: int| 0 <= i < d.len() && is_allowed_ips(#[trigger] d[i]);
            assert(is_allowed_ips(c[i]));
        }
        if has_allowed_ips_line(c) {
            let i = choose|i: int| 0 <= i < c.len() && is_allowed_ips(#[trigger] c[i]);
            if i < d.len() {
                assert(is_allowed_ips(d[i]));
            }
        }
        if c.last() is AllowedIps {
            assert(is_allowed_ips(c[c.len() - 1]));
        }
    }
}

/// Signs `=` in front of a value are no part of it, nor the white space
/// round them.
pub proof fn law_signs_before_a_value_do_not_count(
    a: Seq<char>,
    n: nat,
    c: Seq<char>,
    s: Seq<char>,
    b: Seq<char>,
)
    requires
        n > 0,
        forall|k: int| 0 <= k < a.len() ==> is_white_space(#[trigger] a[k]),
        forall|k: int| 0 <= k < b.len() ==> is_white_space(#[trigger] b[k]),
        forall|k: int| 0 <= k < c.len() ==> is_white_space(#[trigger] c[k]),
        s.len() > 0 && !is_white_space(s[0]) && !is_white_space(s.last()) && s[0] != '=',
    ensures
        value_of(a + Seq::new(n, |i: int| '=') + c + s + b) == s,
{
    let signs = Seq::new(n, |i: int| '=');
    let none = Seq::<char>::empty();
    let rest = c + s;
    let body = signs + rest;
    assert(body[0] == '=' && body.last() == s.last());
    law_trim_takes_white_space(a, body, b);
    assert(a + signs + c + s + b =~= a + body + b);
    if c.len() > 0 {
        assert(is_white_space(c[0]));
        assert(rest[0] == c[0]);
    } else {
        assert(rest[0] == s[0]);
    }
    law_trim_takes_one_character(rest, '=', n);
    law_trim_takes_white_space(c, s, none);
    assert(c + s + none =~= rest);
}

} // verus!
