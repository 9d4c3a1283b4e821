//! Strings as sequences of characters: the vocabulary every other module
//! states its contracts in, with the executable functions that meet it.
//!
//! A string is modelled by its view, a `Seq<char>`; a list of strings by
//! [`texts`]. Nothing here knows about hosts, configs or addresses.

use vstd::prelude::*;

verus! {

/// `String::push` appends the given character to the end of the string, and
/// changes nothing else.
pub assume_specification[ String::push ](s: &mut String, c: char)
    ensures
        final(s)@ == old(s)@.push(c),
;

// ---------------------------------------------------------------------------
// Views of lists and options
// ---------------------------------------------------------------------------

/// The strings of a list, as character sequences.
pub open spec fn texts(v: Seq<String>) -> Seq<Seq<char>> {
    Seq::new(v.len(), |i: int| v[i]@)
}

/// An optional string, as an optional character sequence.
pub open spec fn text_option(o: Option<String>) -> Option<Seq<char>> {
    match o {
        Some(s) => Some(s@),
        None => None,
    }
}

/// A result whose two sides are strings.
pub open spec fn text_result(r: Result<String, String>) -> Result<Seq<char>, Seq<char>> {
    match r {
        Ok(s) => Ok(s@),
        Err(e) => Err(e@),
    }
}

pub proof fn lemma_texts_push(v: Seq<String>, s: String)
    ensures
        texts(v.push(s)) == texts(v).push(s@),
{
    assert(texts(v.push(s)) =~= texts(v).push(s@));
}

// ---------------------------------------------------------------------------
// Classes of characters
// ---------------------------------------------------------------------------

/// A set of characters that a text is split on or trimmed of.
#[derive(Clone, Copy)]
pub enum Class {
    /// Unicode `White_Space`.
    White,
    /// One given character.
    One(char),
    /// What separates the entries of an `AllowedIPs` value: a comma, a
    /// semicolon or white space.
    EntrySeparator,
    /// What separates the targets typed into one box: a comma or white space.
    TargetSeparator,
    /// The characters of an all-zero network: `0`, `/` and `:`.
    ZeroNetwork,
}

/// The code points that carry the Unicode `White_Space` property.
pub open spec fn is_white_space(c: char) -> bool {
    let n = c as u32;
    ||| 0x9 <= n <= 0xd
    ||| n == 0x20
    ||| n == 0x85
    ||| n == 0xa0
    ||| n == 0x1680
    ||| 0x2000 <= n <= 0x200a
    ||| n == 0x2028
    ||| n == 0x2029
    ||| n == 0x202f
    ||| n == 0x205f
    ||| n == 0x3000
}

impl Class {
    pub open spec fn has(self, c: char) -> bool {
        match self {
            Class::White => is_white_space(c),
            Class::One(x) => c == x,
            Class::EntrySeparator => c == ',' || c == ';' || is_white_space(c),
            Class::TargetSeparator => c == ',' || is_white_space(c),
            Class::ZeroNetwork => c == '0' || c == '/' || c == ':',
        }
    }

    pub fn contains(self, c: char) -> (r: bool)
        ensures
            r == self.has(c),
    {
        match self {
            Class::White => white_space(c),
            Class::One(x) => c == x,
            Class::EntrySeparator => c == ',' || c == ';' || white_space(c),
            Class::TargetSeparator => c == ',' || white_space(c),
            Class::ZeroNetwork => c == '0' || c == '/' || c == ':',
        }
    }
}

/// True when `c` has the Unicode `White_Space` property.
pub fn white_space(c: char) -> (r: bool)
    ensures
        r == is_white_space(c),
{
    let n: u32 = c as u32;
    (0x9 <= n && n <= 0xd) || n == 0x20 || n == 0x85 || n == 0xa0 || n == 0x1680 || (0x2000 <= n
        && n <= 0x200a) || n == 0x2028 || n == 0x2029 || n == 0x202f || n == 0x205f || n == 0x3000
}

// ---------------------------------------------------------------------------
// Between strings and character vectors
// ---------------------------------------------------------------------------

pub fn chars_of(s: &str) -> (r: Vec<char>)
    ensures
        r@ == s@,
{
    let mut r: Vec<char> = Vec::new();
    for c in it: s.chars()
        invariant
            it.seq() == s@,
            r@ == s@.take(it.index()),
    {
        r.push(c);
        assert(s@.take(it.index() + 1) =~= s@.take(it.index()).push(s@[it.index()]));
    }
    assert(s@.take(s@.len() as int) =~= s@);
    r
}

/// The string made of the characters `from..to` of `cs`.
pub fn string_of(cs: &[char], from: usize, to: usize) -> (r: String)
    requires
        from <= to <= cs@.len(),
    ensures
        r@ == cs@.subrange(from as int, to as int),
{
    let mut r: String = String::new();
    let mut i: usize = from;
    while i < to
        invariant
            from <= i <= to <= cs@.len(),
            r@ == cs@.subrange(from as int, i as int),
        decreases to - i,
    {
        r.push(cs[i]);
        i = i + 1;
        assert(cs@.subrange(from as int, i as int) =~= cs@.subrange(from as int, i - 1).push(
            cs@[i - 1],
        ));
    }
    r
}

/// A copy of a borrowed string.
pub fn owned(s: &str) -> (r: String)
    ensures
        r@ == s@,
{
    let mut r: String = String::new();
    r.append(s);
    assert(r@ =~= s@);
    r
}

/// True when the two strings hold the same characters.
pub fn same(a: &str, b: &str) -> (r: bool)
    ensures
        r == (a@ == b@),
{
    owned(a) == owned(b)
}

// ---------------------------------------------------------------------------
// Trimming
// ---------------------------------------------------------------------------

/// `s` without its longest prefix of characters of `class`.
pub open spec fn trim_start(s: Seq<char>, class: Class) -> Seq<char>
    decreases s.len(),
{
    if s.len() > 0 && class.has(s[0]) {
        trim_start(s.drop_first(), class)
    } else {
        s
    }
}

/// `s` without its longest suffix of characters of `class`.
pub open spec fn trim_end(s: Seq<char>, class: Class) -> Seq<char>
    decreases s.len(),
{
    if s.len() > 0 && class.has(s.last()) {
        trim_end(s.drop_last(), class)
    } else {
        s
    }
}

/// `s` without white space at either end.
pub open spec fn trim(s: Seq<char>) -> Seq<char> {
    trim_end(trim_start(s, Class::White), Class::White)
}

/// The first position from `from` on whose character is not in `class`.
fn skip_class(cs: &[char], from: usize, class: Class) -> (i: usize)
    requires
        from <= cs@.len(),
    ensures
        from <= i <= cs@.len(),
        forall|k: int| from <= k < i ==> class.has(#[trigger] cs@[k]),
        i < cs@.len() ==> !class.has(cs@[i as int]),
        cs@.skip(i as int) == trim_start(cs@.skip(from as int), class),
{
    let mut i: usize = from;
    while i < cs.len() && class.contains(cs[i])
        invariant
            from <= i <= cs@.len(),
            forall|k: int| from <= k < i ==> class.has(#[trigger] cs@[k]),
            trim_start(cs@.skip(i as int), class) == trim_start(cs@.skip(from as int), class),
        decreases cs@.len() - i,
    {
        assert(cs@.skip(i as int).drop_first() =~= cs@.skip(i + 1));
        i = i + 1;
    }
    i
}

/// The last position down to `from` such that every character of
/// `position..to` is in `class`.
fn skip_class_back(cs: &[char], from: usize, to: usize, class: Class) -> (i: usize)
    requires
        from <= to <= cs@.len(),
    ensures
        from <= i <= to,
        cs@.subrange(from as int, i as int) == trim_end(
            cs@.subrange(from as int, to as int),
            class,
        ),
{
    let mut i: usize = to;
    while i > from && class.contains(cs[i - 1])
        invariant
            from <= i <= to <= cs@.len(),
            trim_end(cs@.subrange(from as int, i as int), class) == trim_end(
                cs@.subrange(from as int, to as int),
                class,
            ),
        decreases i - from,
    {
        assert(cs@.subrange(from as int, i as int).drop_last() =~= cs@.subrange(
            from as int,
            i - 1,
        ));
        i = i - 1;
    }
    i
}

pub fn trimmed_start(s: &str, class: Class) -> (r: String)
    ensures
        r@ == trim_start(s@, class),
{
    let cs = chars_of(s);
    let i: usize = skip_class(cs.as_slice(), 0, class);
    assert(cs@.skip(0) =~= s@);
    assert(cs@.subrange(i as int, cs@.len() as int) =~= cs@.skip(i as int));
    string_of(cs.as_slice(), i, cs.len())
}

pub fn trimmed_end(s: &str, class: Class) -> (r: String)
    ensures
        r@ == trim_end(s@, class),
{
    let cs = chars_of(s);
    let i: usize = skip_class_back(cs.as_slice(), 0, cs.len(), class);
    assert(cs@.subrange(0, cs@.len() as int) =~= s@);
    string_of(cs.as_slice(), 0, i)
}

pub fn trimmed(s: &str) -> (r: String)
    ensures
        r@ == trim(s@),
{
    let start = trimmed_start(s, Class::White);
    trimmed_end(start.as_str(), Class::White)
}

/// What a trim at the end leaves is a prefix that does not end in the class.
pub proof fn lemma_trim_end(s: Seq<char>, class: Class)
    ensures
        trim_end(s, class).len() <= s.len(),
        trim_end(s, class) == s.take(trim_end(s, class).len() as int),
        trim_end(s, class).len() > 0 ==> !class.has(trim_end(s, class).last()),
        forall|k: int| trim_end(s, class).len() <= k < s.len() ==> class.has(#[trigger] s[k]),
    decreases s.len(),
{
    if s.len() > 0 && class.has(s.last()) {
        lemma_trim_end(s.drop_last(), class);
        let t = trim_end(s, class);
        assert(s.drop_last().take(t.len() as int) =~= s.take(t.len() as int));
        assert forall|k: int| t.len() <= k < s.len() implies class.has(#[trigger] s[k]) by {
            if k < s.len() - 1 {
                assert(s.drop_last()[k] == s[k]);
            }
        }
    } else {
        assert(s.take(s.len() as int) =~= s);
    }
}

/// What a trim at the start leaves is a suffix that does not begin in the
/// class.
pub proof fn lemma_trim_start(s: Seq<char>, class: Class)
    ensures
        trim_start(s, class).len() <= s.len(),
        trim_start(s, class) == s.skip(s.len() - trim_start(s, class).len()),
        trim_start(s, class).len() > 0 ==> !class.has(trim_start(s, class)[0]),
        forall|k: int|
            0 <= k < s.len() - trim_start(s, class).len() ==> class.has(#[trigger] s[k]),
    decreases s.len(),
{
    if s.len() > 0 && class.has(s[0]) {
        lemma_trim_start(s.drop_first(), class);
        let t = trim_start(s, class);
        assert(s.drop_first().skip(s.len() - 1 - t.len()) =~= s.skip(s.len() - t.len()));
        assert forall|k: int| 0 <= k < s.len() - t.len() implies class.has(#[trigger] s[k]) by {
            if k > 0 {
                assert(s.drop_first()[k - 1] == s[k]);
            }
        }
    } else {
        assert(s.skip(0) =~= s);
    }
}

// ---------------------------------------------------------------------------
// Splitting and joining
// ---------------------------------------------------------------------------

/// The position of the first character of `class`, or the length of `s` when
/// there is none.
pub open spec fn first_of(s: Seq<char>, class: Class) -> nat
    decreases s.len(),
{
    if s.len() == 0 || class.has(s[0]) {
        0
    } else {
        1 + first_of(s.drop_first(), class)
    }
}

pub proof fn lemma_first_of(s: Seq<char>, class: Class)
    ensures
        0 <= first_of(s, class) <= s.len(),
        first_of(s, class) < s.len() ==> class.has(s[first_of(s, class) as int]),
        forall|k: int| 0 <= k < first_of(s, class) ==> !class.has(#[trigger] s[k]),
    decreases s.len(),
{
    if s.len() == 0 || class.has(s[0]) {
    } else {
        lemma_first_of(s.drop_first(), class);
        assert forall|k: int| 0 <= k < first_of(s, class) implies !class.has(#[trigger] s[k]) by {
            if k > 0 {
                assert(s.drop_first()[k - 1] == s[k]);
            }
        }
    }
}

/// A position with the defining properties of [`first_of`] is that position.
pub proof fn lemma_first_of_is(s: Seq<char>, class: Class, i: int)
    requires
        0 <= i <= s.len(),
        i < s.len() ==> class.has(s[i]),
        forall|k: int| 0 <= k < i ==> !class.has(#[trigger] s[k]),
    ensures
        first_of(s, class) == i,
{
    lemma_first_of(s, class);
    let f = first_of(s, class) as int;
    if f < i {
        assert(!class.has(s[f]));
    } else if i < f {
        assert(!class.has(s[i]));
    }
}

/// The pieces of `s` between the characters of `class`; `n` such characters
/// give `n + 1` pieces, empty ones counted.
pub open spec fn split(s: Seq<char>, class: Class) -> Seq<Seq<char>>
    decreases s.len(),
{
    let i = first_of(s, class) as int;
    if i >= s.len() {
        seq![s]
    } else {
        seq![s.take(i)] + split(s.skip(i + 1), class)
    }
}

/// The part before the first `c` and the part after it, when `c` occurs.
pub open spec fn split_once(s: Seq<char>, c: char) -> Option<(Seq<char>, Seq<char>)> {
    let i = first_of(s, Class::One(c)) as int;
    if i < s.len() {
        Some((s.take(i), s.skip(i + 1)))
    } else {
        None
    }
}

/// The part of `s` before the first `c`, or all of it.
pub open spec fn before(s: Seq<char>, c: char) -> Seq<char> {
    s.take(first_of(s, Class::One(c)) as int)
}

fn find(cs: &[char], from: usize, class: Class) -> (i: usize)
    requires
        from <= cs@.len(),
    ensures
        from <= i <= cs@.len(),
        i - from == first_of(cs@.skip(from as int), class),
{
    let mut i: usize = from;
    while i < cs.len() && !class.contains(cs[i])
        invariant
            from <= i <= cs@.len(),
            forall|k: int| 0 <= k < i - from ==> !class.has(#[trigger] cs@.skip(from as int)[k]),
        decreases cs@.len() - i,
    {
        i = i + 1;
    }
    proof {
        lemma_first_of_is(cs@.skip(from as int), class, i - from);
    }
    i
}

pub fn splitted(s: &str, class: Class) -> (r: Vec<String>)
    ensures
        texts(r@) == split(s@, class),
{
    let cs = chars_of(s);
    let mut r: Vec<String> = Vec::new();
    let mut at: usize = 0;
    proof {
        assert(cs@.skip(0) =~= s@);
        assert(texts(r@) + split(s@, class) =~= split(s@, class));
    }
    loop
        invariant
            cs@ == s@,
            at <= cs@.len(),
            texts(r@) + split(cs@.skip(at as int), class) == split(s@, class),
        decreases cs@.len() - at,
    {
        let ghost rest = cs@.skip(at as int);
        let ghost done = r@;
        let i: usize = find(cs.as_slice(), at, class);
        proof {
            lemma_first_of(rest, class);
        }
        if i == cs.len() {
            r.push(string_of(cs.as_slice(), at, i));
            proof {
                assert(r@.last()@ =~= rest);
                lemma_texts_push(done, r@.last());
                assert(split(rest, class) == seq![rest]);
                assert(texts(r@) =~= texts(done) + seq![rest]);
            }
            return r;
        }
        r.push(string_of(cs.as_slice(), at, i));
        proof {
            assert(r@.last()@ =~= rest.take(i - at));
            lemma_texts_push(done, r@.last());
            assert(rest.skip(i - at + 1) =~= cs@.skip(i + 1));
            assert(split(rest, class) == seq![rest.take(i - at)] + split(cs@.skip(i + 1), class));
            assert(texts(r@) + split(cs@.skip(i + 1), class) =~= texts(done) + split(rest, class));
        }
        at = i + 1;
    }
}

pub fn splitted_once(s: &str, c: char) -> (r: Option<(String, String)>)
    ensures
        match r {
            Some((a, b)) => split_once(s@, c) == Some((a@, b@)),
            None => split_once(s@, c) is None,
        },
{
    let cs = chars_of(s);
    let i: usize = find(cs.as_slice(), 0, Class::One(c));
    assert(cs@.skip(0) =~= s@);
    if i < cs.len() {
        let a = string_of(cs.as_slice(), 0, i);
        let b = string_of(cs.as_slice(), i + 1, cs.len());
        assert(a@ =~= s@.take(i as int));
        assert(b@ =~= s@.skip(i + 1));
        Some((a, b))
    } else {
        None
    }
}

/// The part of `s` before the first `c`, or all of it.
pub fn part_before(s: &str, c: char) -> (r: String)
    ensures
        r@ == before(s@, c),
{
    let cs = chars_of(s);
    let i: usize = find(cs.as_slice(), 0, Class::One(c));
    assert(cs@.skip(0) =~= s@);
    let r = string_of(cs.as_slice(), 0, i);
    assert(r@ =~= s@.take(i as int));
    r
}

/// The parts in order, with `sep` between neighbours.
pub open spec fn join(parts: Seq<Seq<char>>, sep: Seq<char>) -> Seq<char>
    decreases parts.len(),
{
    if parts.len() == 0 {
        Seq::empty()
    } else if parts.len() == 1 {
        parts[0]
    } else {
        join(parts.drop_last(), sep) + sep + parts.last()
    }
}

pub fn joined(parts: &[String], sep: &str) -> (r: String)
    ensures
        r@ == join(texts(parts@), sep@),
{
    let mut r: String = String::new();
    let mut i: usize = 0;
    while i < parts.len()
        invariant
            i <= parts@.len(),
            r@ == join(texts(parts@.take(i as int)), sep@),
        decreases parts@.len() - i,
    {
        if i > 0 {
            r.append(sep);
        }
        r.append(parts[i].as_str());
        i = i + 1;
        proof {
            let upto = texts(parts@.take(i as int));
            assert(upto.drop_last() =~= texts(parts@.take(i - 1)));
            assert(upto.last() == parts@[i - 1]@);
            if i == 1 {
                assert(r@ =~= parts@[0]@);
            }
        }
    }
    assert(parts@.take(parts@.len() as int) =~= parts@);
    r
}

/// Joining from the front: the first part, the separator, then the rest.
pub proof fn lemma_join_front(first: Seq<char>, rest: Seq<Seq<char>>, sep: Seq<char>)
    requires
        rest.len() > 0,
    ensures
        join(seq![first] + rest, sep) == first + sep + join(rest, sep),
    decreases rest.len(),
{
    let all = seq![first] + rest;
    assert(all.last() == rest.last());
    if rest.len() == 1 {
        assert(all.drop_last() =~= seq![first]);
        assert(join(seq![first], sep) == first);
        assert(join(rest, sep) == rest.last());
    } else {
        assert(all.drop_last() =~= seq![first] + rest.drop_last());
        lemma_join_front(first, rest.drop_last(), sep);
        assert(first + sep + join(rest.drop_last(), sep) + sep + rest.last() =~= first + sep + (
        join(rest.drop_last(), sep) + sep + rest.last()));
    }
}

/// No text is split into nothing.
pub proof fn lemma_split_nonempty(s: Seq<char>, class: Class)
    ensures
        split(s, class).len() > 0,
{
}

/// Joining what was split on a character gives the text back.
pub proof fn lemma_join_split(s: Seq<char>, c: char)
    ensures
        join(split(s, Class::One(c)), seq![c]) == s,
    decreases s.len(),
{
    let class = Class::One(c);
    let i = first_of(s, class) as int;
    lemma_first_of(s, class);
    if i < s.len() {
        let rest = s.skip(i + 1);
        lemma_join_split(rest, c);
        lemma_split_nonempty(rest, class);
        lemma_join_front(s.take(i), split(rest, class), seq![c]);
        assert(s.take(i) + seq![c] + rest =~= s);
    }
}

/// The piece of a split has none of the characters that it was split on.
pub proof fn lemma_split_pieces(s: Seq<char>, class: Class)
    ensures
        forall|k: int, j: int|
            0 <= k < split(s, class).len() && 0 <= j < split(s, class)[k].len() ==> !class.has(
                #[trigger] split(s, class)[k][j],
            ),
    decreases s.len(),
{
    let i = first_of(s, class) as int;
    lemma_first_of(s, class);
    if i < s.len() {
        let rest = split(s.skip(i + 1), class);
        lemma_split_pieces(s.skip(i + 1), class);
        assert forall|k: int, j: int|
            0 <= k < split(s, class).len() && 0 <= j < split(s, class)[k].len() implies !class.has(
            #[trigger] split(s, class)[k][j],
        ) by {
            if k > 0 {
                assert(split(s, class)[k] == rest[k - 1]);
                assert(!class.has(rest[k - 1][j]));
            }
        }
    }
}

/// Splitting what was joined with a character gives the parts back, when no
/// part holds that character.
pub proof fn lemma_split_join(parts: Seq<Seq<char>>, c: char)
    requires
        parts.len() > 0,
        forall|k: int| 0 <= k < parts.len() ==> !contains_char(#[trigger] parts[k], c),
    ensures
        split(join(parts, seq![c]), Class::One(c)) == parts,
    decreases parts.len(),
{
    let class = Class::One(c);
    let first = parts[0];
    assert(!contains_char(parts[0], c));
    if parts.len() == 1 {
        lemma_first_of_is(first, class, first.len() as int);
        assert(parts =~= seq![first]);
    } else {
        let rest = parts.drop_first();
        assert(parts =~= seq![first] + rest);
        lemma_join_front(first, rest, seq![c]);
        assert forall|k: int| 0 <= k < rest.len() implies !contains_char(#[trigger] rest[k], c) by {
            assert(rest[k] == parts[k + 1]);
        }
        lemma_split_join(rest, c);
        let s = join(parts, seq![c]);
        assert(s == first + seq![c] + join(rest, seq![c]));
        assert(s[first.len() as int] == c);
        assert forall|k: int| 0 <= k < first.len() implies !class.has(#[trigger] s[k]) by {
            assert(s[k] == first[k]);
        }
        lemma_first_of_is(s, class, first.len() as int);
        assert(s.take(first.len() as int) =~= first);
        assert(s.skip(first.len() as int + 1) =~= join(rest, seq![c]));
    }
}

// ---------------------------------------------------------------------------
// Searching
// ---------------------------------------------------------------------------

/// True when `n` stands in `s` at position `i`.
pub open spec fn occurs_at(s: Seq<char>, n: Seq<char>, i: int) -> bool {
    0 <= i && i + n.len() <= s.len() && s.subrange(i, i + n.len()) == n
}

/// True when `n` stands somewhere in `s`.
pub open spec fn contains(s: Seq<char>, n: Seq<char>) -> bool {
    exists|i: int| occurs_at(s, n, i)
}

pub open spec fn starts_with(s: Seq<char>, n: Seq<char>) -> bool {
    occurs_at(s, n, 0)
}

fn matches_at(s: &[char], n: &[char], at: usize) -> (r: bool)
    ensures
        r == occurs_at(s@, n@, at as int),
{
    if s.len() < n.len() || at > s.len() - n.len() {
        return false;
    }
    let total: usize = s.len();
    let mut k: usize = 0;
    while k < n.len()
        invariant
            k <= n@.len(),
            at + n@.len() <= s@.len() == total,
            forall|j: int| 0 <= j < k ==> s@[at + j] == #[trigger] n@[j],
        decreases n@.len() - k,
    {
        if s[at + k] != n[k] {
            assert(s@.subrange(at as int, at + n@.len())[k as int] != n@[k as int]);
            return false;
        }
        k = k + 1;
    }
    assert(s@.subrange(at as int, at + n@.len()) =~= n@);
    true
}

/// True when `n` stands somewhere in `s`.
pub fn has_text(s: &str, n: &str) -> (r: bool)
    ensures
        r == contains(s@, n@),
{
    let sc = chars_of(s);
    let nc = chars_of(n);
    let mut i: usize = 0;
    loop
        invariant
            sc@ == s@,
            nc@ == n@,
            i <= sc@.len(),
            forall|k: int| 0 <= k < i ==> !occurs_at(s@, n@, k),
        decreases sc@.len() - i,
    {
        if matches_at(sc.as_slice(), nc.as_slice(), i) {
            assert(occurs_at(s@, n@, i as int));
            return true;
        }
        if i == sc.len() {
            return false;
        }
        i = i + 1;
    }
}

pub fn has_prefix(s: &str, n: &str) -> (r: bool)
    ensures
        r == starts_with(s@, n@),
{
    let sc = chars_of(s);
    let nc = chars_of(n);
    matches_at(sc.as_slice(), nc.as_slice(), 0)
}

/// What follows the prefix `n`, when `s` starts with it.
pub fn without_prefix(s: &str, n: &str) -> (r: Option<String>)
    ensures
        match r {
            Some(t) => starts_with(s@, n@) && t@ == s@.skip(n@.len() as int),
            None => !starts_with(s@, n@),
        },
{
    let sc = chars_of(s);
    let nc = chars_of(n);
    if matches_at(sc.as_slice(), nc.as_slice(), 0) {
        let t = string_of(sc.as_slice(), nc.len(), sc.len());
        assert(t@ =~= s@.skip(n@.len() as int));
        Some(t)
    } else {
        None
    }
}

/// True when `c` stands somewhere in `s`.
pub open spec fn contains_char(s: Seq<char>, c: char) -> bool {
    exists|i: int| 0 <= i < s.len() && s[i] == c
}

pub fn has_char(s: &str, c: char) -> (r: bool)
    ensures
        r == contains_char(s@, c),
{
    let cs = chars_of(s);
    let i: usize = find(cs.as_slice(), 0, Class::One(c));
    assert(cs@.skip(0) =~= s@);
    proof {
        lemma_first_of(s@, Class::One(c));
        assert(forall|k: int| 0 <= k < s@.len() && s@[k] == c ==> Class::One(c).has(s@[k]));
    }
    i < cs.len()
}

/// True when some string of `list` holds the characters `s`.
pub fn has_member(list: &[String], s: &str) -> (r: bool)
    ensures
        r == texts(list@).contains(s@),
{
    let mut i: usize = 0;
    while i < list.len()
        invariant
            i <= list@.len(),
            forall|k: int| 0 <= k < i ==> #[trigger] texts(list@)[k] != s@,
        decreases list@.len() - i,
    {
        if same(list[i].as_str(), s) {
            assert(texts(list@)[i as int] == s@);
            return true;
        }
        i = i + 1;
    }
    false
}

pub open spec fn ends_with(s: Seq<char>, n: Seq<char>) -> bool {
    occurs_at(s, n, s.len() - n.len())
}

/// What stands before the suffix `n`, when `s` ends with it.
pub fn without_suffix(s: &str, n: &str) -> (r: Option<String>)
    ensures
        match r {
            Some(t) => ends_with(s@, n@) && t@ == s@.take(s@.len() - n@.len()),
            None => !ends_with(s@, n@),
        },
{
    let sc = chars_of(s);
    let nc = chars_of(n);
    if nc.len() > sc.len() {
        return None;
    }
    let at: usize = sc.len() - nc.len();
    if matches_at(sc.as_slice(), nc.as_slice(), at) {
        let t = string_of(sc.as_slice(), 0, at);
        assert(t@ =~= s@.take(at as int));
        Some(t)
    } else {
        None
    }
}

// ---------------------------------------------------------------------------
// Letter case
// ---------------------------------------------------------------------------

/// The code point of `c` with an ASCII capital taken as its small letter.
pub open spec fn ascii_fold(c: char) -> int {
    let n = c as int;
    if 0x41 <= n <= 0x5a {
        n + 0x20
    } else {
        n
    }
}

/// Equality up to the case of ASCII letters.
pub open spec fn eq_ignore_case(a: Seq<char>, b: Seq<char>) -> bool {
    a.len() == b.len() && forall|i: int|
        0 <= i < a.len() ==> ascii_fold(#[trigger] a[i]) == ascii_fold(b[i])
}

fn folded(c: char) -> (r: u32)
    ensures
        r == ascii_fold(c),
{
    let n: u32 = c as u32;
    if 0x41 <= n && n <= 0x5a {
        n + 0x20
    } else {
        n
    }
}

pub fn same_ignoring_case(a: &str, b: &str) -> (r: bool)
    ensures
        r == eq_ignore_case(a@, b@),
{
    let ac = chars_of(a);
    let bc = chars_of(b);
    if ac.len() != bc.len() {
        return false;
    }
    let mut i: usize = 0;
    while i < ac.len()
        invariant
            ac@ == a@,
            bc@ == b@,
            ac@.len() == bc@.len(),
            i <= ac@.len(),
            forall|k: int| 0 <= k < i ==> ascii_fold(#[trigger] a@[k]) == ascii_fold(b@[k]),
        decreases ac@.len() - i,
    {
        if folded(ac[i]) != folded(bc[i]) {
            assert(ascii_fold(a@[i as int]) != ascii_fold(b@[i as int]));
            return false;
        }
        i = i + 1;
    }
    true
}

/// What `str::to_lowercase` makes of a text: the Unicode lower case of it,
/// which takes tables of code points to write down.
pub uninterp spec fn lowercase(s: Seq<char>) -> Seq<char>;

/// The lower case of a text that is all ASCII.
pub open spec fn ascii_lowercase(s: Seq<char>) -> Seq<char> {
    Seq::new(s.len(), |i: int| ascii_fold(s[i]) as char)
}

pub open spec fn all_ascii(s: Seq<char>) -> bool {
    forall|i: int| 0 <= i < s.len() ==> (#[trigger] s[i] as int) < 0x80
}

/// `str::to_lowercase`: the result depends on the text alone, and is named
/// [`lowercase`]; on a text of ASCII characters it turns the capitals into
/// small letters and leaves the rest. What it does to other characters is
/// not stated.
#[verifier::external_body]
pub(crate) fn lowered(s: &str) -> (r: String)
    ensures
        r@ == lowercase(s@),
        all_ascii(s@) ==> r@ == ascii_lowercase(s@),
{
    s.to_lowercase()
}

/// What `{:?}` prints for a text: the text in double quotes, with escapes.
pub uninterp spec fn debug_form(s: Seq<char>) -> Seq<char>;

/// `<str as Debug>::fmt`, through `format!`: the result depends on the text
/// alone, and is named [`debug_form`]. Which characters it escapes is not
/// stated.
#[verifier::external_body]
pub(crate) fn debug_text(s: &str) -> (r: String)
    ensures
        r@ == debug_form(s@),
{
    format!("{:?}", s)
}

// ---------------------------------------------------------------------------
// Numbers
// ---------------------------------------------------------------------------

/// The character of a digit below sixteen.
pub open spec fn digit_char(d: nat) -> char {
    if d < 10 {
        (0x30 + d) as char
    } else {
        (0x57 + d) as char
    }
}

/// `n` in decimal, without leading zeros.
pub open spec fn decimal(n: nat) -> Seq<char>
    decreases n,
{
    if n < 10 {
        seq![digit_char(n)]
    } else {
        decimal(n / 10).push(digit_char(n % 10))
    }
}

/// `n` in hexadecimal with small letters, without leading zeros.
pub open spec fn hexadecimal(n: nat) -> Seq<char>
    decreases n,
{
    if n < 16 {
        seq![digit_char(n)]
    } else {
        hexadecimal(n / 16).push(digit_char(n % 16))
    }
}

/// `n` in decimal, with zeros in front up to `width` characters.
pub open spec fn zero_padded(n: nat, width: nat) -> Seq<char> {
    if decimal(n).len() < width {
        Seq::new((width - decimal(n).len()) as nat, |i: int| '0') + decimal(n)
    } else {
        decimal(n)
    }
}

fn digit(d: u8) -> (c: char)
    requires
        d < 16,
    ensures
        c == digit_char(d as nat),
{
    if d < 10 {
        (0x30 + d) as char
    } else {
        (0x57 + d) as char
    }
}

pub fn decimal_text(n: u128) -> (r: String)
    ensures
        r@ == decimal(n as nat),
    decreases n,
{
    if n < 10 {
        let mut r: String = String::new();
        r.push(digit(n as u8));
        assert(r@ =~= seq![digit_char(n as nat)]);
        r
    } else {
        let mut r: String = decimal_text(n / 10);
        r.push(digit((n % 10) as u8));
        r
    }
}

pub fn hexadecimal_text(n: u16) -> (r: String)
    ensures
        r@ == hexadecimal(n as nat),
    decreases n,
{
    if n < 16 {
        let mut r: String = String::new();
        r.push(digit(n as u8));
        assert(r@ =~= seq![digit_char(n as nat)]);
        r
    } else {
        let mut r: String = hexadecimal_text(n / 16);
        r.push(digit((n % 16) as u8));
        r
    }
}

pub fn zero_padded_text(n: u128, width: usize) -> (r: String)
    ensures
        r@ == zero_padded(n as nat, width as nat),
{
    let body = decimal_text(n);
    let len: usize = chars_of(body.as_str()).len();
    let mut r: String = String::new();
    let mut k: usize = len;
    while k < width
        invariant
            len == body@.len(),
            k <= width || k == len,
            len <= k,
            r@ == Seq::new((k - len) as nat, |i: int| '0'),
        decreases width - k,
    {
        r.push('0');
        k = k + 1;
        assert(r@ =~= Seq::new((k - len) as nat, |i: int| '0'));
    }
    r.append(body.as_str());
    assert(r@ =~= zero_padded(n as nat, width as nat));
    r
}

pub open spec fn is_digit(c: char) -> bool {
    0x30 <= c as int <= 0x39
}

/// The number that a run of decimal digits spells.
pub open spec fn digits_value(s: Seq<char>) -> nat
    decreases s.len(),
{
    if s.len() == 0 {
        0
    } else {
        (digits_value(s.drop_last()) * 10 + (s.last() as int - 0x30)) as nat
    }
}

pub open spec fn all_digits(s: Seq<char>) -> bool {
    forall|i: int| 0 <= i < s.len() ==> is_digit(#[trigger] s[i])
}

/// The number that `s` spells when it is at most `max`: an optional plus
/// sign, then one or more decimal digits.
pub open spec fn number(s: Seq<char>, max: nat) -> Option<nat> {
    let d = if s.len() > 0 && s[0] == '+' {
        s.drop_first()
    } else {
        s
    };
    if d.len() > 0 && all_digits(d) && digits_value(d) <= max {
        Some(digits_value(d))
    } else {
        None
    }
}

fn code_point(c: char) -> (n: u32)
    ensures
        n == c as int,
{
    c as u32
}

/// The number that the characters `from..to` spell, digits only, when it is
/// at most `max`.
pub fn parse_digits(cs: &[char], from: usize, to: usize, max: u32) -> (r: Option<u32>)
    requires
        from <= to <= cs@.len(),
    ensures
        match r {
            Some(n) => {
                let d = cs@.subrange(from as int, to as int);
                d.len() > 0 && all_digits(d) && digits_value(d) == n && n <= max
            },
            None => {
                let d = cs@.subrange(from as int, to as int);
                !(d.len() > 0 && all_digits(d) && digits_value(d) <= max)
            },
        },
{
    let ghost d = cs@.subrange(from as int, to as int);
    if from == to {
        return None;
    }
    let mut acc: u64 = 0;
    let mut over: bool = false;
    let mut i: usize = from;
    while i < to
        invariant
            from <= i <= to <= cs@.len(),
            d == cs@.subrange(from as int, to as int),
            all_digits(d.take(i - from)),
            over ==> digits_value(d.take(i - from)) > max,
            !over ==> acc == digits_value(d.take(i - from)) && acc <= max,
        decreases to - i,
    {
        let n: u32 = code_point(cs[i]);
        assert(d[i - from] == cs@[i as int]);
        if n < 0x30 || n > 0x39 {
            assert(!is_digit(d[i - from]));
            return None;
        }
        proof {
            assert(d.take(i - from + 1).drop_last() =~= d.take(i - from));
            assert(d.take(i - from + 1).last() == cs@[i as int]);
            assert forall|k: int| 0 <= k < i - from + 1 implies is_digit(
                #[trigger] d.take(i - from + 1)[k],
            ) by {
                if k < i - from {
                    assert(d.take(i - from)[k] == d.take(i - from + 1)[k]);
                } else {
                    assert(d.take(i - from + 1)[k] == cs@[i as int]);
                }
            }
        }
        if !over {
            acc = acc * 10 + (n - 0x30) as u64;
            if acc > max as u64 {
                over = true;
            }
        }
        i = i + 1;
    }
    assert(d.take(to - from) =~= d);
    if over {
        None
    } else {
        Some(acc as u32)
    }
}

/// The number that `s` spells, see [`number`].
pub fn parse_number(s: &str, max: u32) -> (r: Option<u32>)
    ensures
        match r {
            Some(n) => number(s@, max as nat) == Some(n as nat),
            None => number(s@, max as nat) is None,
        },
{
    let cs = chars_of(s);
    let from: usize = if cs.len() > 0 && cs[0] == '+' {
        1
    } else {
        0
    };
    assert(cs@.subrange(0, cs@.len() as int) =~= s@);
    assert(cs@.len() > 0 ==> cs@.subrange(1, cs@.len() as int) =~= s@.drop_first());
    parse_digits(cs.as_slice(), from, cs.len(), max)
}

// ---------------------------------------------------------------------------
// Pieces that hold something
// ---------------------------------------------------------------------------

/// The parts, trimmed, without those that hold nothing but white space.
pub open spec fn nonblank(parts: Seq<Seq<char>>) -> Seq<Seq<char>>
    decreases parts.len(),
{
    if parts.len() == 0 {
        Seq::empty()
    } else if trim(parts.last()).len() == 0 {
        nonblank(parts.drop_last())
    } else {
        nonblank(parts.drop_last()).push(trim(parts.last()))
    }
}

/// The trimmed, nonempty pieces of `s` between the separators.
pub open spec fn pieces(s: Seq<char>, class: Class) -> Seq<Seq<char>> {
    nonblank(split(s, class))
}

/// The trimmed, nonempty pieces of `s` between the separators.
pub fn nonblank_pieces(s: &str, class: Class) -> (r: Vec<String>)
    ensures
        texts(r@) == pieces(s@, class),
{
    let parts = splitted(s, class);
    let mut out: Vec<String> = Vec::new();
    let mut i: usize = 0;
    let ghost all = texts(parts@);
    assert(texts(out@) =~= Seq::<Seq<char>>::empty());
    while i < parts.len()
        invariant
            all == texts(parts@),
            i <= parts@.len(),
            texts(out@) == nonblank(all.take(i as int)),
        decreases parts@.len() - i,
    {
        let t = trimmed(parts[i].as_str());
        proof {
            assert(all.take(i + 1).drop_last() =~= all.take(i as int));
            assert(all.take(i + 1).last() == parts@[i as int]@);
            lemma_texts_push(out@, t);
        }
        if !t.as_str().is_empty() {
            out.push(t);
        }
        i = i + 1;
    }
    assert(all.take(all.len() as int) =~= all);
    out
}

/// Decimal digits spell the number they were made of, without a zero in
/// front.
pub proof fn lemma_decimal(n: nat)
    ensures
        decimal(n).len() >= 1,
        all_digits(decimal(n)),
        digits_value(decimal(n)) == n,
        decimal(n).len() > 1 ==> n >= 10 && decimal(n)[0] != '0',
        decimal(n)[0] == '0' ==> n == 0,
        n < 10 ==> decimal(n).len() == 1,
        n < 100 ==> decimal(n).len() <= 2,
        n < 1000 ==> decimal(n).len() <= 3,
    decreases n,
{
    reveal_with_fuel(digits_value, 2);
    let s = decimal(n);
    if n < 10 {
        assert(s.drop_last() =~= Seq::<char>::empty());
        assert(s.last() == digit_char(n));
    } else {
        lemma_decimal(n / 10);
        let d = decimal(n / 10);
        assert(s.drop_last() =~= d);
        assert(s.last() == digit_char(n % 10));
        assert forall|i: int| 0 <= i < s.len() implies is_digit(#[trigger] s[i]) by {
            if i < d.len() {
                assert(s[i] == d[i]);
            }
        }
        assert(s[0] == d[0]);
    }
}

// ---------------------------------------------------------------------------
// Pieces that are written and read again
// ---------------------------------------------------------------------------

/// Trimming a trimmed text changes nothing, and trimming brings in no
/// character.
pub proof fn lemma_trim(s: Seq<char>)
    ensures
        trim(trim(s)) == trim(s),
        trim(s).len() <= s.len(),
        forall|c: char| #[trigger] contains_char(trim(s), c) ==> contains_char(s, c),
        trim(s).len() > 0 ==> !is_white_space(trim(s)[0]) && !is_white_space(trim(s).last()),
{
    let w = Class::White;
    let a = trim_start(s, w);
    let t = trim(s);
    lemma_trim_start(s, w);
    lemma_trim_end(a, w);
    assert forall|c: char| #[trigger] contains_char(t, c) implies contains_char(s, c) by {
        let k = choose|k: int| 0 <= k < t.len() && t[k] == c;
        assert(a[k] == c);
        assert(s[k + s.len() - a.len()] == c);
    }
    if t.len() > 0 {
        assert(t[0] == a[0]);
        assert(trim_start(t, w) == t);
        assert(trim_end(t, w) == t);
    }
}

/// The pieces of a split bring in no character.
pub proof fn lemma_split_chars(s: Seq<char>, class: Class)
    ensures
        forall|k: int, c: char|
            0 <= k < split(s, class).len() && #[trigger] contains_char(split(s, class)[k], c)
                ==> contains_char(s, c),
    decreases s.len(),
{
    lemma_first_of(s, class);
    let i = first_of(s, class) as int;
    let parts = split(s, class);
    if i < s.len() {
        let rest = s.skip(i + 1);
        lemma_split_chars(rest, class);
        assert forall|k: int, c: char|
            0 <= k < parts.len() && #[trigger] contains_char(parts[k], c) implies contains_char(
            s,
            c,
        ) by {
            if k == 0 {
                let j = choose|j: int| 0 <= j < parts[0].len() && parts[0][j] == c;
                assert(s[j] == c);
            } else {
                assert(parts[k] == split(rest, class)[k - 1]);
                assert(contains_char(rest, c));
                let j = choose|j: int| 0 <= j < rest.len() && rest[j] == c;
                assert(s[j + i + 1] == c);
            }
        }
    }
}

/// True for a piece that a list between separators `c` gives back: trimmed,
/// not empty, and without `c`.
pub open spec fn is_piece(p: Seq<char>, c: char) -> bool {
    p.len() > 0 && trim(p) == p && !contains_char(p, c)
}

/// The pieces of a text are such pieces, and bring in no character.
pub proof fn lemma_pieces(s: Seq<char>, c: char)
    ensures
        forall|k: int|
            0 <= k < pieces(s, Class::One(c)).len() ==> is_piece(
                #[trigger] pieces(s, Class::One(c))[k],
                c,
            ),
        forall|k: int, d: char|
            0 <= k < pieces(s, Class::One(c)).len() && #[trigger] contains_char(
                pieces(s, Class::One(c))[k],
                d,
            ) ==> contains_char(s, d),
{
    let class = Class::One(c);
    let parts = split(s, class);
    let r = pieces(s, class);
    lemma_split_chars(s, class);
    lemma_nonblank(parts);
    lemma_pieces_lack(s, class);
    assert forall|k: int| 0 <= k < r.len() implies is_piece(#[trigger] r[k], c) by {
        if contains_char(r[k], c) {
            let j = choose|j: int| 0 <= j < r[k].len() && r[k][j] == c;
            assert(!class.has(pieces(s, class)[k][j]));
        }
    }
    assert forall|k: int, d: char|
        0 <= k < r.len() && #[trigger] contains_char(r[k], d) implies contains_char(s, d) by {
        let j = choose|j: int| 0 <= j < parts.len() && r[k] == trim(#[trigger] parts[j]);
        lemma_trim(parts[j]);
        assert(contains_char(parts[j], d));
    }
}

proof fn lemma_nonblank(parts: Seq<Seq<char>>)
    ensures
        forall|k: int|
            0 <= k < nonblank(parts).len() ==> (#[trigger] nonblank(parts)[k]).len() > 0 && trim(
                nonblank(parts)[k],
            ) == nonblank(parts)[k] && exists|j: int|
                0 <= j < parts.len() && nonblank(parts)[k] == trim(#[trigger] parts[j]),
    decreases parts.len(),
{
    if parts.len() > 0 {
        let d = parts.drop_last();
        let r = nonblank(parts);
        let t = nonblank(d);
        lemma_nonblank(d);
        lemma_trim(parts.last());
        assert forall|k: int| 0 <= k < r.len() implies (#[trigger] r[k]).len() > 0 && trim(r[k])
            == r[k] && exists|j: int| 0 <= j < parts.len() && r[k] == trim(#[trigger] parts[j]) by {
            if k < t.len() {
                assert(r[k] == t[k]);
                let j = choose|j: int| 0 <= j < d.len() && t[k] == trim(#[trigger] d[j]);
                assert(r[k] == trim(parts[j]));
            } else {
                assert(r[k] == trim(parts[parts.len() - 1]));
            }
        }
    }
}

/// No piece is empty or holds a separator.
pub proof fn lemma_pieces_lack(s: Seq<char>, class: Class)
    ensures
        forall|k: int|
            0 <= k < pieces(s, class).len() ==> (#[trigger] pieces(s, class)[k]).len() > 0,
        forall|k: int, j: int|
            0 <= k < pieces(s, class).len() && 0 <= j < pieces(s, class)[k].len() ==> !class.has(
                #[trigger] pieces(s, class)[k][j],
            ),
{
    let parts = split(s, class);
    let r = pieces(s, class);
    lemma_split_pieces(s, class);
    lemma_nonblank(parts);
    assert forall|k: int, j: int| 0 <= k < r.len() && 0 <= j < r[k].len() implies !class.has(
        #[trigger] r[k][j],
    ) by {
        let m = choose|m: int| 0 <= m < parts.len() && r[k] == trim(#[trigger] parts[m]);
        lemma_trim(parts[m]);
        assert(contains_char(r[k], r[k][j]));
        let n = choose|n: int| 0 <= n < parts[m].len() && parts[m][n] == r[k][j];
        assert(!class.has(split(s, class)[m][n]));
    }
}

/// A separator parts the pieces before it from those after it.
proof fn lemma_split_at(a: Seq<char>, c: char, b: Seq<char>, class: Class)
    requires
        class.has(c),
    ensures
        split(a + seq![c] + b, class) == split(a, class) + split(b, class),
    decreases a.len(),
{
    let s = a + seq![c] + b;
    let i = first_of(a, class) as int;
    lemma_first_of(a, class);
    assert forall|k: int| 0 <= k < i implies !class.has(#[trigger] s[k]) by {
        assert(s[k] == a[k]);
    }
    assert(s[a.len() as int] == c);
    if i < a.len() {
        assert(s[i] == a[i]);
        lemma_first_of_is(s, class, i);
        lemma_split_at(a.skip(i + 1), c, b, class);
        assert(s.take(i) =~= a.take(i));
        assert(s.skip(i + 1) =~= a.skip(i + 1) + seq![c] + b);
        assert(split(s, class) =~= split(a, class) + split(b, class));
    } else {
        lemma_first_of_is(s, class, i);
        assert(s.take(i) =~= a);
        assert(s.skip(i + 1) =~= b);
        assert(split(s, class) =~= split(a, class) + split(b, class));
    }
}

proof fn lemma_nonblank_concat(a: Seq<Seq<char>>, b: Seq<Seq<char>>)
    ensures
        nonblank(a + b) == nonblank(a) + nonblank(b),
    decreases b.len(),
{
    if b.len() == 0 {
        assert(a + b =~= a);
        assert(nonblank(a) + nonblank(b) =~= nonblank(a));
    } else {
        lemma_nonblank_concat(a, b.drop_last());
        assert((a + b).drop_last() =~= a + b.drop_last());
        assert((a + b).last() == b.last());
        assert(nonblank(a + b) =~= nonblank(a) + nonblank(b));
    }
}

proof fn lemma_nonblank_one(p: Seq<char>)
    ensures
        nonblank(seq![p]) == if trim(p).len() == 0 {
            Seq::<Seq<char>>::empty()
        } else {
            seq![trim(p)]
        },
{
    let one = seq![p];
    assert(one.drop_last() =~= Seq::<Seq<char>>::empty());
    assert(one.last() == p);
    reveal_with_fuel(nonblank, 2);
    assert(nonblank(one.drop_last()) =~= Seq::<Seq<char>>::empty());
    assert(nonblank(one) =~= if trim(p).len() == 0 {
        Seq::<Seq<char>>::empty()
    } else {
        seq![trim(p)]
    });
}

/// The pieces on both sides of a separator are the pieces of the whole.
pub proof fn lemma_pieces_at(a: Seq<char>, c: char, b: Seq<char>, class: Class)
    requires
        class.has(c),
    ensures
        pieces(a + seq![c] + b, class) == pieces(a, class) + pieces(b, class),
{
    lemma_split_at(a, c, b, class);
    lemma_nonblank_concat(split(a, class), split(b, class));
}

/// A text without separators is one piece, unless it is blank.
pub proof fn lemma_pieces_of_one(p: Seq<char>, class: Class)
    requires
        forall|k: int| 0 <= k < p.len() ==> !class.has(#[trigger] p[k]),
    ensures
        pieces(p, class) == if trim(p).len() == 0 {
            Seq::<Seq<char>>::empty()
        } else {
            seq![trim(p)]
        },
{
    lemma_first_of_is(p, class, p.len() as int);
    assert(split(p, class) =~= seq![p]);
    lemma_nonblank_one(p);
}

/// Separators and white space in front of a text do not change its pieces.
pub proof fn lemma_pieces_after(front: Seq<char>, s: Seq<char>, class: Class)
    requires
        forall|k: int|
            0 <= k < front.len() ==> class.has(#[trigger] front[k]) || is_white_space(front[k]),
    ensures
        pieces(front + s, class) == pieces(s, class),
    decreases front.len(),
{
    if front.len() == 0 {
        assert(front + s =~= s);
    } else {
        let d = front.drop_last();
        let x = front[front.len() - 1];
        let padded = seq![x] + s;
        assert(front + s =~= d + padded);
        assert forall|k: int| 0 <= k < d.len() implies class.has(#[trigger] d[k])
            || is_white_space(d[k]) by {
            assert(d[k] == front[k]);
        }
        lemma_pieces_after(d, padded, class);
        if class.has(x) {
            let none = Seq::<char>::empty();
            assert(padded =~= none + seq![x] + s);
            lemma_pieces_at(none, x, s, class);
            lemma_pieces_of_one(none, class);
            assert(pieces(none, class) + pieces(s, class) =~= pieces(s, class));
        } else {
            let i = first_of(s, class) as int;
            lemma_first_of(s, class);
            let p = s.take(i);
            assert(padded.drop_first() =~= s);
            assert(first_of(padded, class) == i + 1);
            let q = seq![x] + p;
            assert(q.drop_first() =~= p);
            assert(trim(q) == trim(p));
            lemma_nonblank_one(p);
            lemma_nonblank_one(q);
            if i < s.len() {
                let rest = split(s.skip(i + 1), class);
                assert(padded.take(i + 1) =~= q);
                assert(padded.skip(i + 2) =~= s.skip(i + 1));
                lemma_nonblank_concat(seq![p], rest);
                lemma_nonblank_concat(seq![q], rest);
            } else {
                assert(p =~= s);
                assert(padded =~= q);
            }
        }
    }
}

/// Pieces joined with a separator, and whatever separators and white space
/// follow it, are read back as they were.
pub proof fn lemma_pieces_of_list(parts: Seq<Seq<char>>, sep: Seq<char>, class: Class)
    requires
        forall|k: int|
            0 <= k < parts.len() ==> (#[trigger] parts[k]).len() > 0 && trim(parts[k]) == parts[k],
        forall|k: int, j: int|
            0 <= k < parts.len() && 0 <= j < parts[k].len() ==> !class.has(
                #[trigger] parts[k][j],
            ),
        sep.len() > 0,
        class.has(sep[0]),
        forall|k: int|
            0 <= k < sep.len() ==> class.has(#[trigger] sep[k]) || is_white_space(sep[k]),
    ensures
        pieces(join(parts, sep), class) == parts,
    decreases parts.len(),
{
    if parts.len() == 0 {
        let none = Seq::<char>::empty();
        assert(join(parts, sep) =~= none);
        lemma_pieces_of_one(none, class);
        assert(pieces(none, class) =~= parts);
    } else {
        let d = parts.drop_last();
        let p = parts[parts.len() - 1];
        assert(trim(p) == p && p.len() > 0);
        assert forall|j: int| 0 <= j < p.len() implies !class.has(#[trigger] p[j]) by {
            assert(!class.has(parts[parts.len() - 1][j]));
        }
        lemma_pieces_of_one(p, class);
        if parts.len() == 1 {
            assert(join(parts, sep) =~= p);
            assert(pieces(p, class) =~= parts);
        } else {
            assert forall|k: int| 0 <= k < d.len() implies (#[trigger] d[k]).len() > 0 && trim(d[k])
                == d[k] by {
                assert(d[k] == parts[k]);
            }
            assert forall|k: int, j: int|
                0 <= k < d.len() && 0 <= j < d[k].len() implies !class.has(#[trigger] d[k][j]) by {
                assert(d[k] == parts[k]);
                assert(!class.has(parts[k][j]));
            }
            lemma_pieces_of_list(d, sep, class);
            let tail = sep.drop_first();
            assert(join(parts, sep) =~= join(d, sep) + seq![sep[0]] + (tail + p));
            lemma_pieces_at(join(d, sep), sep[0], tail + p, class);
            assert forall|k: int| 0 <= k < tail.len() implies class.has(#[trigger] tail[k])
                || is_white_space(tail[k]) by {
                assert(tail[k] == sep[k + 1]);
            }
            lemma_pieces_after(tail, p, class);
            assert(d + seq![p] =~= parts);
        }
    }
}

/// Pieces joined with a comma and a blank are read back as they were.
pub proof fn lemma_pieces_of_joined(parts: Seq<Seq<char>>)
    requires
        forall|k: int| 0 <= k < parts.len() ==> is_piece(#[trigger] parts[k], ','),
        parts.len() > 0,
    ensures
        pieces(join(parts, ", "@), Class::One(',')) == parts,
        trim(join(parts, ", "@)) == join(parts, ", "@),
        join(parts, ", "@).len() > 0,
        join(parts, ", "@)[0] == parts[0][0],
{
    reveal_strlit(", ");
    assert forall|k: int, j: int|
        0 <= k < parts.len() && 0 <= j < parts[k].len() implies !Class::One(',').has(
        #[trigger] parts[k][j],
    ) by {
        assert(is_piece(parts[k], ','));
        if parts[k][j] == ',' {
            assert(contains_char(parts[k], ','));
        }
    }
    assert forall|k: int| 0 <= k < parts.len() implies (#[trigger] parts[k]).len() > 0 && trim(
        parts[k],
    ) == parts[k] by {
        assert(is_piece(parts[k], ','));
    }
    lemma_pieces_of_list(parts, ", "@, Class::One(','));
    lemma_joined_ends(parts);
    assert(is_piece(parts[0], ','));
    assert(is_piece(parts[parts.len() - 1], ','));
    lemma_trim(parts[0]);
    lemma_trim(parts[parts.len() - 1]);
    let v = join(parts, ", "@);
    assert(trim_start(v, Class::White) == v);
    assert(trim_end(v, Class::White) == v);
}

proof fn lemma_joined_ends(parts: Seq<Seq<char>>)
    requires
        forall|k: int| 0 <= k < parts.len() ==> (#[trigger] parts[k]).len() > 0,
        parts.len() > 0,
    ensures
        join(parts, ", "@).len() > 0,
        join(parts, ", "@)[0] == parts[0][0],
        join(parts, ", "@).last() == parts.last().last(),
    decreases parts.len(),
{
    let v = join(parts, ", "@);
    assert(parts[parts.len() - 1].len() > 0);
    if parts.len() == 1 {
        assert(v =~= parts[0]);
    } else {
        let d = parts.drop_last();
        assert forall|k: int| 0 <= k < d.len() implies (#[trigger] d[k]).len() > 0 by {
            assert(d[k] == parts[k]);
        }
        lemma_joined_ends(d);
        assert(d[0] == parts[0]);
        assert(v[0] == join(d, ", "@)[0]);
    }
}

/// Joining brings in no character but those of the separator.
pub proof fn lemma_joined_chars(parts: Seq<Seq<char>>, c: char)
    requires
        forall|k: int| 0 <= k < parts.len() ==> !contains_char(#[trigger] parts[k], c),
        c != ',' && c != ' ',
    ensures
        !contains_char(join(parts, ", "@), c),
    decreases parts.len(),
{
    reveal_strlit(", ");
    let v = join(parts, ", "@);
    if parts.len() > 0 {
        let d = parts.drop_last();
        assert forall|k: int| 0 <= k < d.len() implies !contains_char(#[trigger] d[k], c) by {
            assert(d[k] == parts[k]);
        }
        lemma_joined_chars(d, c);
        let f = join(d, ", "@);
        let l = parts[parts.len() - 1];
        assert(!contains_char(l, c));
        if contains_char(v, c) {
            let k = choose|k: int| 0 <= k < v.len() && v[k] == c;
            if parts.len() == 1 {
                assert(l[k] == c);
            } else if k < f.len() {
                assert(f[k] == c);
            } else if k >= f.len() + 2 {
                assert(l[k - f.len() - 2] == c);
            }
            assert(false);
        }
    }
}

// ---------------------------------------------------------------------------
// Texts behind one another
// ---------------------------------------------------------------------------

pub fn cat2(a: &str, b: &str) -> (r: String)
    ensures
        r@ == a@ + b@,
{
    let mut s: String = owned(a);
    s.append(b);
    s
}

pub fn cat3(a: &str, b: &str, c: &str) -> (r: String)
    ensures
        r@ == a@ + b@ + c@,
{
    let mut s: String = cat2(a, b);
    s.append(c);
    s
}

pub fn cat4(a: &str, b: &str, c: &str, d: &str) -> (r: String)
    ensures
        r@ == a@ + b@ + c@ + d@,
{
    let mut s: String = cat3(a, b, c);
    s.append(d);
    s
}

pub fn cat5(a: &str, b: &str, c: &str, d: &str, e: &str) -> (r: String)
    ensures
        r@ == a@ + b@ + c@ + d@ + e@,
{
    let mut s: String = cat4(a, b, c, d);
    s.append(e);
    s
}

pub fn cat7(a: &str, b: &str, c: &str, d: &str, e: &str, f: &str, g: &str) -> (r: String)
    ensures
        r@ == a@ + b@ + c@ + d@ + e@ + f@ + g@,
{
    let mut s: String = cat5(a, b, c, d, e);
    s.append(f);
    s.append(g);
    s
}

/// A number in decimal.
pub fn count_text(n: usize) -> (r: String)
    ensures
        r@ == decimal(n as nat),
{
    decimal_text(n as u128)
}

// ---------------------------------------------------------------------------
// Laws
// ---------------------------------------------------------------------------

proof fn lemma_trim_start_all(a: Seq<char>, s: Seq<char>)
    requires
        forall|k: int| 0 <= k < a.len() ==> is_white_space(#[trigger] a[k]),
    ensures
        trim_start(a + s, Class::White) == trim_start(s, Class::White),
    decreases a.len(),
{
    if a.len() == 0 {
        assert(a + s =~= s);
    } else {
        let d = a.drop_first();
        assert forall|k: int| 0 <= k < d.len() implies is_white_space(#[trigger] d[k]) by {
            assert(d[k] == a[k + 1]);
        }
        lemma_trim_start_all(d, s);
        assert(is_white_space(a[0]));
        assert((a + s)[0] == a[0]);
        assert((a + s).drop_first() =~= d + s);
    }
}

pub proof fn lemma_trim_end_all(s: Seq<char>, b: Seq<char>)
    requires
        forall|k: int| 0 <= k < b.len() ==> is_white_space(#[trigger] b[k]),
    ensures
        trim_end(s + b, Class::White) == trim_end(s, Class::White),
    decreases b.len(),
{
    if b.len() == 0 {
        assert(s + b =~= s);
    } else {
        let d = b.drop_last();
        assert forall|k: int| 0 <= k < d.len() implies is_white_space(#[trigger] d[k]) by {
            assert(d[k] == b[k]);
        }
        lemma_trim_end_all(s, d);
        assert(is_white_space(b[b.len() - 1]));
        assert((s + b).last() == b.last());
        assert((s + b).drop_last() =~= s + d);
    }
}

/// Trimming takes the white space at both ends away, and nothing else.
pub proof fn law_trim_takes_white_space(a: Seq<char>, s: Seq<char>, b: Seq<char>)
    requires
        forall|k: int| 0 <= k < a.len() ==> is_white_space(#[trigger] a[k]),
        forall|k: int| 0 <= k < b.len() ==> is_white_space(#[trigger] b[k]),
        s.len() > 0 ==> !is_white_space(s[0]) && !is_white_space(s.last()),
    ensures
        trim(a + s + b) == s,
{
    let w = Class::White;
    assert(a + s + b =~= a + (s + b));
    lemma_trim_start_all(a, s + b);
    if s.len() == 0 {
        assert(s + b =~= b);
        let none = Seq::<char>::empty();
        assert(b =~= b + none);
        lemma_trim_start_all(b, none);
        assert(trim_start(none, w) =~= none);
        assert(trim_end(none, w) =~= none);
        assert(s =~= none);
    } else {
        assert((s + b)[0] == s[0]);
        assert(trim_start(s + b, w) == s + b);
        lemma_trim_end_all(s, b);
        assert(trim_end(s, w) == s);
    }
}

/// A text holds another if and only if it is that one with something, or
/// nothing, on either side.
pub proof fn law_contains_is_in_the_middle(s: Seq<char>, n: Seq<char>)
    ensures
        contains(s, n) <==> exists|a: Seq<char>, b: Seq<char>| s == #[trigger] (a + n + b),
        starts_with(s, n) <==> n.is_prefix_of(s),
        ends_with(s, n) <==> n.is_suffix_of(s),
{
    if contains(s, n) {
        let k = choose|k: int| occurs_at(s, n, k);
        let a = s.take(k);
        let b = s.skip(k + n.len());
        assert forall|i: int| 0 <= i < n.len() implies s[k + i] == n[i] by {
            assert(s.subrange(k, k + n.len())[i] == s[k + i]);
        }
        assert(s =~= a + n + b);
    }
    if exists|a: Seq<char>, b: Seq<char>| s == #[trigger] (a + n + b) {
        let (a, b) = choose|a: Seq<char>, b: Seq<char>| s == #[trigger] (a + n + b);
        assert(s.subrange(a.len() as int, (a.len() + n.len()) as int) =~= n);
        assert(occurs_at(s, n, a.len() as int));
    }
    assert(starts_with(s, n) ==> s.subrange(0, n.len() as int) =~= n);
    assert(ends_with(s, n) ==> s.subrange(s.len() - n.len(), s.len() as int) =~= n);
}

/// Numbers are written so that their digits give them back, without a zero
/// in front; padding only puts zeros before them.
pub proof fn law_numbers_are_read_back(n: nat, width: nat)
    ensures
        all_digits(decimal(n)),
        digits_value(decimal(n)) == n,
        n > 0 ==> decimal(n)[0] != '0',
        zero_padded(n, width).len() >= width,
        zero_padded(n, width).len() >= decimal(n).len(),
        zero_padded(n, width).skip(zero_padded(n, width).len() - decimal(n).len()) == decimal(n),
        forall|k: int|
            0 <= k < zero_padded(n, width).len() - decimal(n).len() ==> #[trigger] zero_padded(
                n,
                width,
            )[k] == '0',
        decimal(n).len() >= width ==> zero_padded(n, width) == decimal(n),
{
    lemma_decimal(n);
    let z = zero_padded(n, width);
    assert(z.skip(z.len() - decimal(n).len()) =~= decimal(n));
}

/// Two texts are equal up to the case of letters if and only if they are
/// equally long and differ in nothing but capital and small ASCII letters.
pub proof fn law_only_letter_case_is_ignored(a: Seq<char>, b: Seq<char>)
    ensures
        eq_ignore_case(a, b) <==> a.len() == b.len() && forall|i: int|
            0 <= i < a.len() ==> {
                ||| #[trigger] a[i] == b[i]
                ||| 'A' <= a[i] && a[i] <= 'Z' && b[i] as int == a[i] as int + 32
                ||| 'A' <= b[i] && b[i] <= 'Z' && a[i] as int == b[i] as int + 32
            },
{
    if eq_ignore_case(a, b) {
        assert forall|i: int| 0 <= i < a.len() implies {
            ||| #[trigger] a[i] == b[i]
            ||| 'A' <= a[i] && a[i] <= 'Z' && b[i] as int == a[i] as int + 32
            ||| 'A' <= b[i] && b[i] <= 'Z' && a[i] as int == b[i] as int + 32
        } by {
            assert(ascii_fold(a[i]) == ascii_fold(b[i]));
        }
    }
}

/// Splitting cuts a text at every separator, and nowhere else.
pub proof fn law_split_cuts_at_separators(a: Seq<char>, c: char, b: Seq<char>, class: Class)
    requires
        class.has(c),
    ensures
        split(a + seq![c] + b, class) == split(a, class) + split(b, class),
        (forall|k: int| 0 <= k < a.len() ==> !class.has(#[trigger] a[k])) ==> split(a, class)
            == seq![a],
{
    lemma_split_at(a, c, b, class);
    lemma_first_of(a, class);
}

/// Which characters separate what: no letter, digit or other visible ASCII
/// character but those named is a separator, and a blank, a tab and the line
/// endings are white space, as are the spaces of Unicode beyond ASCII.
pub proof fn law_separators(c: char)
    ensures
        c == ' ' || c == '\t' || c == '\n' || c == '\r' ==> Class::White.has(c),
        '!' <= c && c <= '~' ==> !Class::White.has(c),
        Class::White.has(c) && c as int > 127 ==> c == '\u{85}' || c == '\u{a0}' || c == '\u{1680}'
            || ('\u{2000}' <= c && c <= '\u{200a}') || c == '\u{2028}' || c == '\u{2029}' || c
            == '\u{202f}' || c == '\u{205f}' || c == '\u{3000}',
        c == '\u{85}' || c == '\u{a0}' || c == '\u{1680}' || c == '\u{2028}' || c == '\u{2029}' || c
            == '\u{202f}' || c == '\u{205f}' || c == '\u{3000}' ==> Class::White.has(c),
        '\u{2000}' <= c && c <= '\u{200a}' ==> Class::White.has(c),
        Class::EntrySeparator.has(c) <==> Class::White.has(c) || c == ',' || c == ';',
        Class::TargetSeparator.has(c) <==> Class::White.has(c) || c == ',',
        Class::ZeroNetwork.has(c) <==> c == '0' || c == '/' || c == ':',
        forall|x: char| #[trigger] Class::One(x).has(c) <==> c == x,
{
}

/// Two lists joined are joined with the separator between them.
pub proof fn law_joined_lists(x: Seq<Seq<char>>, y: Seq<Seq<char>>, sep: Seq<char>)
    requires
        x.len() > 0,
        y.len() > 0,
    ensures
        join(x + y, sep) == join(x, sep) + sep + join(y, sep),
    decreases y.len(),
{
    let all = x + y;
    assert(all.last() == y.last());
    if y.len() == 1 {
        assert(all.drop_last() =~= x);
    } else {
        let d = y.drop_last();
        assert(all.drop_last() =~= x + d);
        law_joined_lists(x, d, sep);
        assert(join(x, sep) + sep + join(d, sep) + sep + y.last() =~= join(x, sep) + sep + (join(
            d,
            sep,
        ) + sep + y.last()));
    }
}

/// A number is read from its digits, with or without a plus sign and zeros
/// in front, if it is not too large.
pub proof fn law_number_from_digits(n: nat, max: nat, d: Seq<char>)
    requires
        d.len() > 0,
        all_digits(d),
    ensures
        number(decimal(n), max) == (if n <= max {
            Some(n)
        } else {
            None
        }),
        number(seq!['+'] + d, max) == number(d, max),
        number(seq!['0'] + d, max) == number(d, max),
{
    lemma_decimal(n);
    assert(is_digit(decimal(n)[0]));
    assert(is_digit(d[0]));
    assert((seq!['+'] + d).drop_first() =~= d);
    let z = seq!['0'] + d;
    assert forall|i: int| 0 <= i < z.len() implies is_digit(#[trigger] z[i]) by {
        if i > 0 {
            assert(z[i] == d[i - 1]);
        }
    }
    lemma_zero_in_front(d);
}

proof fn lemma_zero_in_front(d: Seq<char>)
    ensures
        digits_value(seq!['0'] + d) == digits_value(d),
    decreases d.len(),
{
    let z = seq!['0'] + d;
    if d.len() == 0 {
        reveal_with_fuel(digits_value, 2);
        assert(z.drop_last() =~= Seq::<char>::empty());
        assert(z.last() == '0');
    } else {
        lemma_zero_in_front(d.drop_last());
        assert(z.drop_last() =~= seq!['0'] + d.drop_last());
        assert(z.last() == d.last());
    }
}

/// A text is parted at the first of the characters that part it.
pub proof fn law_parted_at_the_first(a: Seq<char>, c: char, b: Seq<char>)
    requires
        !contains_char(a, c),
    ensures
        split_once(a + seq![c] + b, c) == Some((a, b)),
        before(a + seq![c] + b, c) == a,
        split_once(a, c) is None,
        before(a, c) == a,
{
    let s = a + seq![c] + b;
    let i = a.len() as int;
    assert(s[i] == c);
    assert forall|k: int| 0 <= k < i implies !Class::One(c).has(#[trigger] s[k]) by {
        assert(s[k] == a[k]);
    }
    lemma_first_of_is(s, Class::One(c), i);
    assert(s.take(i) =~= a);
    assert(s.skip(i + 1) =~= b);
    lemma_first_of(a, Class::One(c));
    let j = first_of(a, Class::One(c)) as int;
    if j < i {
        assert(a[j] == c);
    }
    assert(a.take(i) =~= a);
}

/// Digits that are padded with zeros still spell the number.
pub proof fn law_padding_keeps_the_number(n: nat, width: nat)
    ensures
        digits_value(zero_padded(n, width)) == n,
        all_digits(zero_padded(n, width)),
        n < 10 && width == 2 ==> zero_padded(n, width).len() == 2,
        n < 100 && width == 2 ==> zero_padded(n, width).len() == 2,
        n < 10_000 && width == 4 ==> zero_padded(n, width).len() == 4,
    decreases width,
{
    let d = decimal(n);
    let z = zero_padded(n, width);
    lemma_decimal(n);
    if n >= 1000 && n < 10_000 {
        lemma_decimal(n / 10);
    }
    if width > d.len() {
        law_padding_keeps_the_number(n, (width - 1) as nat);
        let y = zero_padded(n, (width - 1) as nat);
        assert(z =~= seq!['0'] + y);
        lemma_zero_in_front(y);
        assert forall|i: int| 0 <= i < z.len() implies is_digit(#[trigger] z[i]) by {
            if i > 0 {
                assert(z[i] == y[i - 1]);
            }
        }
    } else {
        assert(z =~= d);
    }
}

/// The pieces of a text are what stands between the separators, without the
/// white space round it, and without what is then empty.
pub proof fn law_pieces_between_separators(a: Seq<char>, c: char, b: Seq<char>, class: Class)
    requires
        class.has(c),
    ensures
        pieces(a + seq![c] + b, class) == pieces(a, class) + pieces(b, class),
        (forall|k: int| 0 <= k < a.len() ==> !class.has(#[trigger] a[k])) ==> pieces(a, class)
            == (if trim(a).len() == 0 {
            Seq::empty()
        } else {
            seq![trim(a)]
        }),
{
    lemma_pieces_at(a, c, b, class);
    if forall|k: int| 0 <= k < a.len() ==> !class.has(#[trigger] a[k]) {
        lemma_pieces_of_one(a, class);
    }
}

/// A text holds the characters that are in it.
pub proof fn law_characters_of_a_text(a: Seq<char>, c: char, b: Seq<char>)
    ensures
        contains_char(a + seq![c] + b, c),
        contains_char(a, c) <==> a.contains(c),
{
    assert((a + seq![c] + b)[a.len() as int] == c);
}

/// Trimming one character takes it away at that end, as often as it stands
/// there, and nothing else.
pub proof fn law_trim_takes_one_character(s: Seq<char>, c: char, n: nat)
    ensures
        ({
            let run = Seq::new(n, |i: int| c);
            &&& s.len() > 0 && s[0] != c ==> trim_start(run + s, Class::One(c)) == s
            &&& s.len() > 0 && s.last() != c ==> trim_end(s + run, Class::One(c)) == s
            &&& trim_start(run, Class::One(c)).len() == 0
            &&& trim_end(run, Class::One(c)).len() == 0
        }),
    decreases n,
{
    let run = Seq::new(n, |i: int| c);
    if n == 0 {
        assert(run + s =~= s);
        assert(s + run =~= s);
    } else {
        let less = Seq::new((n - 1) as nat, |i: int| c);
        law_trim_takes_one_character(s, c, (n - 1) as nat);
        assert((run + s)[0] == c);
        assert((run + s).drop_first() =~= less + s);
        assert((s + run).last() == c);
        assert((s + run).drop_last() =~= s + less);
        assert(run[0] == c && run.last() == c);
        assert(run.drop_first() =~= less);
        assert(run.drop_last() =~= less);
    }
}

} // verus!
