//! The order of strings, and lists kept in that order.
//!
//! Strings compare by their characters' code points, byte strings by their
//! bytes; both are the lexicographic order of a sequence of numbers.

use vstd::prelude::*;

use crate::text::{chars_of, owned, same, texts};

verus! {

/// The lexicographic order: the first difference decides, and a proper
/// prefix comes first.
pub open spec fn less(a: Seq<int>, b: Seq<int>) -> bool
    decreases a.len(),
{
    if b.len() == 0 {
        false
    } else if a.len() == 0 {
        true
    } else if a[0] != b[0] {
        a[0] < b[0]
    } else {
        less(a.drop_first(), b.drop_first())
    }
}

/// The code points of a text.
pub open spec fn codes(s: Seq<char>) -> Seq<int> {
    Seq::new(s.len(), |i: int| s[i] as int)
}

/// The numbers of a byte string.
pub open spec fn numbers(s: Seq<u8>) -> Seq<int> {
    Seq::new(s.len(), |i: int| s[i] as int)
}

/// The order of texts.
pub open spec fn text_less(a: Seq<char>, b: Seq<char>) -> bool {
    less(codes(a), codes(b))
}

/// The order of byte strings.
pub open spec fn bytes_less(a: Seq<u8>, b: Seq<u8>) -> bool {
    less(numbers(a), numbers(b))
}

pub proof fn lemma_less_irreflexive(a: Seq<int>)
    ensures
        !less(a, a),
    decreases a.len(),
{
    if a.len() > 0 {
        lemma_less_irreflexive(a.drop_first());
    }
}

pub proof fn lemma_less_transitive(a: Seq<int>, b: Seq<int>, c: Seq<int>)
    requires
        less(a, b),
        less(b, c),
    ensures
        less(a, c),
    decreases a.len(),
{
    if a.len() > 0 && a[0] == b[0] && b[0] == c[0] {
        lemma_less_transitive(a.drop_first(), b.drop_first(), c.drop_first());
    }
}

pub proof fn lemma_less_total(a: Seq<int>, b: Seq<int>)
    ensures
        a == b || less(a, b) || less(b, a),
    decreases a.len(),
{
    if a.len() == 0 && b.len() == 0 {
        assert(a =~= b);
    } else if a.len() > 0 && b.len() > 0 && a[0] == b[0] {
        lemma_less_total(a.drop_first(), b.drop_first());
        if a.drop_first() == b.drop_first() {
            assert(a =~= seq![a[0]] + a.drop_first());
            assert(b =~= seq![b[0]] + b.drop_first());
        }
    }
}

proof fn lemma_code_injective(a: char, b: char)
    requires
        a as int == b as int,
    ensures
        a == b,
{
}

pub proof fn lemma_codes_injective(a: Seq<char>, b: Seq<char>)
    requires
        codes(a) == codes(b),
    ensures
        a == b,
{
    assert(a.len() == codes(a).len());
    assert(b.len() == codes(b).len());
    assert forall|i: int| 0 <= i < a.len() implies a[i] == b[i] by {
        assert(codes(a)[i] == a[i] as int);
        assert(codes(b)[i] == b[i] as int);
        lemma_code_injective(a[i], b[i]);
    }
    assert(a =~= b);
}

/// The order of texts is a strict total order.
pub proof fn lemma_text_order(a: Seq<char>, b: Seq<char>, c: Seq<char>)
    ensures
        !text_less(a, a),
        text_less(a, b) && text_less(b, c) ==> text_less(a, c),
        a == b || text_less(a, b) || text_less(b, a),
        !(text_less(a, b) && text_less(b, a)),
{
    lemma_less_irreflexive(codes(a));
    if text_less(a, b) && text_less(b, c) {
        lemma_less_transitive(codes(a), codes(b), codes(c));
    }
    lemma_less_total(codes(a), codes(b));
    if codes(a) == codes(b) {
        lemma_codes_injective(a, b);
    }
    if text_less(a, b) && text_less(b, a) {
        lemma_less_transitive(codes(a), codes(b), codes(a));
    }
}

/// The order of byte strings is a strict total one.
pub proof fn lemma_bytes_order(a: Seq<u8>, b: Seq<u8>, c: Seq<u8>)
    ensures
        !bytes_less(a, a),
        bytes_less(a, b) && bytes_less(b, c) ==> bytes_less(a, c),
        a == b || bytes_less(a, b) || bytes_less(b, a),
        !(bytes_less(a, b) && bytes_less(b, a)),
{
    lemma_less_irreflexive(numbers(a));
    if bytes_less(a, b) && bytes_less(b, c) {
        lemma_less_transitive(numbers(a), numbers(b), numbers(c));
    }
    lemma_less_total(numbers(a), numbers(b));
    if numbers(a) == numbers(b) {
        assert(a.len() == numbers(a).len());
        assert(b.len() == numbers(b).len());
        assert forall|i: int| 0 <= i < a.len() implies a[i] == b[i] by {
            assert(numbers(a)[i] == a[i] as int);
            assert(numbers(b)[i] == b[i] as int);
        }
        assert(a =~= b);
    }
    if bytes_less(a, b) && bytes_less(b, a) {
        lemma_less_transitive(numbers(a), numbers(b), numbers(a));
    }
}

/// True when `a` comes strictly before `b`.
pub fn comes_before(a: &str, b: &str) -> (r: bool)
    ensures
        r == text_less(a@, b@),
{
    let ac = chars_of(a);
    let bc = chars_of(b);
    let mut i: usize = 0;
    proof {
        assert(codes(a@).skip(0) =~= codes(a@));
        assert(codes(b@).skip(0) =~= codes(b@));
    }
    loop
        invariant
            ac@ == a@,
            bc@ == b@,
            i <= ac@.len(),
            i <= bc@.len(),
            less(codes(a@), codes(b@)) == less(
                codes(a@).skip(i as int),
                codes(b@).skip(i as int),
            ),
        decreases ac@.len() - i,
    {
        if i == bc.len() {
            return false;
        }
        if i == ac.len() {
            return true;
        }
        let ghost x = codes(a@).skip(i as int);
        let ghost y = codes(b@).skip(i as int);
        let p: char = ac[i];
        let q: char = bc[i];
        assert(x[0] == p as int && y[0] == q as int);
        if p != q {
            return p < q;
        }
        proof {
            assert(x.drop_first() =~= codes(a@).skip(i + 1));
            assert(y.drop_first() =~= codes(b@).skip(i + 1));
        }
        i = i + 1;
    }
}

/// True when the byte string `a` comes strictly before `b`.
pub fn bytes_come_before(a: &[u8], b: &[u8]) -> (r: bool)
    ensures
        r == bytes_less(a@, b@),
{
    let mut i: usize = 0;
    proof {
        assert(numbers(a@).skip(0) =~= numbers(a@));
        assert(numbers(b@).skip(0) =~= numbers(b@));
    }
    loop
        invariant
            i <= a@.len(),
            i <= b@.len(),
            less(numbers(a@), numbers(b@)) == less(
                numbers(a@).skip(i as int),
                numbers(b@).skip(i as int),
            ),
        decreases a@.len() - i,
    {
        if i == b.len() {
            return false;
        }
        if i == a.len() {
            return true;
        }
        let ghost x = numbers(a@).skip(i as int);
        let ghost y = numbers(b@).skip(i as int);
        assert(x[0] == a@[i as int] as int && y[0] == b@[i as int] as int);
        if a[i] != b[i] {
            return a[i] < b[i];
        }
        proof {
            assert(x.drop_first() =~= numbers(a@).skip(i + 1));
            assert(y.drop_first() =~= numbers(b@).skip(i + 1));
        }
        i = i + 1;
    }
}

// ---------------------------------------------------------------------------
// Sorted lists without repeats
// ---------------------------------------------------------------------------

/// Every text of the list comes strictly before the ones after it.
pub open spec fn increasing(s: Seq<Seq<char>>) -> bool {
    forall|i: int, j: int| 0 <= i < j < s.len() ==> text_less(#[trigger] s[i], #[trigger] s[j])
}

/// The number of texts of an increasing list that come before `x`.
pub open spec fn rank(s: Seq<Seq<char>>, x: Seq<char>) -> nat
    decreases s.len(),
{
    if s.len() == 0 || !text_less(s[0], x) {
        0
    } else {
        1 + rank(s.drop_first(), x)
    }
}

/// An increasing list with `x` put in its place, unless it is there already.
pub open spec fn with_member(s: Seq<Seq<char>>, x: Seq<char>) -> Seq<Seq<char>> {
    if s.contains(x) {
        s
    } else {
        s.insert(rank(s, x) as int, x)
    }
}

/// The different texts of a list, in increasing order.
pub open spec fn sorted_unique(s: Seq<Seq<char>>) -> Seq<Seq<char>>
    decreases s.len(),
{
    if s.len() == 0 {
        Seq::empty()
    } else {
        with_member(sorted_unique(s.drop_last()), s.last())
    }
}

pub proof fn lemma_rank(s: Seq<Seq<char>>, x: Seq<char>)
    requires
        increasing(s),
    ensures
        rank(s, x) <= s.len(),
        forall|k: int| 0 <= k < rank(s, x) ==> text_less(#[trigger] s[k], x),
        forall|k: int| rank(s, x) <= k < s.len() ==> !text_less(#[trigger] s[k], x),
    decreases s.len(),
{
    if s.len() > 0 {
        if text_less(s[0], x) {
            let t = s.drop_first();
            assert(increasing(t)) by {
                assert forall|i: int, j: int| 0 <= i < j < t.len() implies text_less(
                    #[trigger] t[i],
                    #[trigger] t[j],
                ) by {
                    assert(text_less(s[i + 1], s[j + 1]));
                }
            }
            lemma_rank(t, x);
            let r = rank(s, x) as int;
            assert forall|k: int| 0 <= k < r implies text_less(#[trigger] s[k], x) by {
                if k > 0 {
                    assert(t[k - 1] == s[k]);
                }
            }
            assert forall|k: int| r <= k < s.len() implies !text_less(#[trigger] s[k], x) by {
                assert(t[k - 1] == s[k]);
            }
        } else {
            assert forall|k: int| 0 <= k < s.len() implies !text_less(#[trigger] s[k], x) by {
                if k > 0 {
                    assert(text_less(s[0], s[k]));
                    lemma_text_order(s[0], s[k], x);
                }
            }
        }
    }
}

pub proof fn lemma_with_member(s: Seq<Seq<char>>, x: Seq<char>)
    requires
        increasing(s),
    ensures
        increasing(with_member(s, x)),
        with_member(s, x).contains(x),
        forall|y: Seq<char>| #[trigger]
            with_member(s, x).contains(y) <==> s.contains(y) || y == x,
{
    if !s.contains(x) {
        lemma_rank(s, x);
        let r = rank(s, x) as int;
        let t = s.insert(r, x);
        assert forall|i: int, j: int| 0 <= i < j < t.len() implies text_less(
            #[trigger] t[i],
            #[trigger] t[j],
        ) by {
            if i == r {
                assert(t[j] == s[j - 1]);
                lemma_text_order(s[j - 1], x, x);
                assert(s.contains(s[j - 1]));
            } else if j == r {
                assert(t[i] == s[i]);
            } else {
                let i2 = if i < r { i } else { i - 1 };
                let j2 = if j < r { j } else { j - 1 };
                assert(t[i] == s[i2] && t[j] == s[j2]);
                assert(text_less(s[i2], s[j2]));
            }
        }
        assert(t[r] == x);
        assert forall|y: Seq<char>| #[trigger] t.contains(y) <==> s.contains(y) || y == x by {
            if t.contains(y) {
                let k = choose|k: int| 0 <= k < t.len() && t[k] == y;
                if k < r {
                    assert(s[k] == y);
                } else if k > r {
                    assert(s[k - 1] == y);
                }
            }
            if s.contains(y) {
                let k = choose|k: int| 0 <= k < s.len() && s[k] == y;
                if k < r {
                    assert(t[k] == y);
                } else {
                    assert(t[k + 1] == y);
                }
            }
        }
    }
}

/// `sorted_unique` keeps every text of the list, adds none, and is in
/// increasing order.
pub proof fn lemma_sorted_unique(s: Seq<Seq<char>>)
    ensures
        increasing(sorted_unique(s)),
        forall|y: Seq<char>| #[trigger] sorted_unique(s).contains(y) <==> s.contains(y),
    decreases s.len(),
{
    if s.len() > 0 {
        lemma_sorted_unique(s.drop_last());
        lemma_with_member(sorted_unique(s.drop_last()), s.last());
        assert forall|y: Seq<char>| #[trigger] sorted_unique(s).contains(y) <==> s.contains(
            y,
        ) by {
            if s.contains(y) {
                let k = choose|k: int| 0 <= k < s.len() && s[k] == y;
                if k < s.len() - 1 {
                    assert(s.drop_last()[k] == y);
                }
            }
            if s.drop_last().contains(y) {
                let k = choose|k: int| 0 <= k < s.len() - 1 && s.drop_last()[k] == y;
                assert(s[k] == y);
            }
            assert(s[s.len() - 1] == s.last());
        }
    }
}

/// The rank of `x` in an increasing list, and whether it stands there.
pub fn find_place(list: &[String], x: &str) -> (r: (usize, bool))
    requires
        increasing(texts(list@)),
    ensures
        r.0 == rank(texts(list@), x@),
        r.0 <= list@.len(),
        r.1 == texts(list@).contains(x@),
        r.1 ==> r.0 < list@.len() && list@[r.0 as int]@ == x@,
{
    let ghost s = texts(list@);
    let mut i: usize = 0;
    proof {
        lemma_rank(s, x@);
    }
    while i < list.len() && comes_before(list[i].as_str(), x)
        invariant
            s == texts(list@),
            i <= list@.len(),
            forall|k: int| 0 <= k < i ==> text_less(#[trigger] s[k], x@),
        decreases list@.len() - i,
    {
        assert(s[i as int] == list@[i as int]@);
        i = i + 1;
    }
    proof {
        let r = rank(s, x@) as int;
        if r < i {
            assert(text_less(s[r], x@));
        }
        if i < r {
            assert(s[i as int] == list@[i as int]@);
        }
    }
    if i < list.len() && same(list[i].as_str(), x) {
        assert(s[i as int] == x@);
        (i, true)
    } else {
        proof {
            if s.contains(x@) {
                let k = choose|k: int| 0 <= k < s.len() && s[k] == x@;
                lemma_text_order(x@, x@, x@);
                if k > i {
                    assert(text_less(s[i as int], s[k]));
                }
            }
        }
        (i, false)
    }
}

/// Put `x` into an increasing list, unless it is there already.
pub fn add_member(list: &mut Vec<String>, x: &str)
    requires
        increasing(texts(old(list)@)),
    ensures
        texts(final(list)@) == with_member(texts(old(list)@), x@),
        increasing(texts(final(list)@)),
{
    proof {
        lemma_with_member(texts(list@), x@);
    }
    let (i, found) = find_place(list.as_slice(), x);
    if !found {
        let s = owned(x);
        let ghost before = list@;
        list.insert(i, s);
        assert(texts(list@) =~= texts(before).insert(i as int, x@));
    }
}

/// The different strings of a list, in increasing order.
pub fn sorted(list: &[String]) -> (r: Vec<String>)
    ensures
        texts(r@) == sorted_unique(texts(list@)),
{
    let mut r: Vec<String> = Vec::new();
    let mut i: usize = 0;
    assert(texts(r@) =~= Seq::<Seq<char>>::empty());
    while i < list.len()
        invariant
            i <= list@.len(),
            texts(r@) == sorted_unique(texts(list@).take(i as int)),
            increasing(texts(r@)),
        decreases list@.len() - i,
    {
        add_member(&mut r, list[i].as_str());
        i = i + 1;
        proof {
            let upto = texts(list@).take(i as int);
            assert(upto.drop_last() =~= texts(list@).take(i - 1));
            assert(upto.last() == list@[i - 1]@);
        }
    }
    assert(texts(list@).take(list@.len() as int) =~= texts(list@));
    r
}

proof fn lemma_less_front(p: Seq<int>, a: Seq<int>, b: Seq<int>)
    ensures
        less(p + a, p + b) == less(a, b),
    decreases p.len(),
{
    if p.len() == 0 {
        assert(p + a =~= a);
        assert(p + b =~= b);
    } else {
        lemma_less_front(p.drop_first(), a, b);
        assert((p + a).drop_first() =~= p.drop_first() + a);
        assert((p + b).drop_first() =~= p.drop_first() + b);
        assert((p + a)[0] == p[0] && (p + b)[0] == p[0]);
    }
}

/// Texts are ordered by the first character in which they differ, and a text
/// comes before those that go on where it ends.
pub proof fn law_first_difference_decides(
    p: Seq<char>,
    x: char,
    a: Seq<char>,
    y: char,
    b: Seq<char>,
)
    requires
        (x as int) < (y as int),
    ensures
        text_less(p + seq![x] + a, p + seq![y] + b),
        text_less(p, p + seq![x] + a),
        !text_less(p + seq![y] + b, p + seq![x] + a),
{
    let c = codes(p);
    let u = seq![x as int] + codes(a);
    let v = seq![y as int] + codes(b);
    assert(codes(p + seq![x] + a) =~= c + u);
    assert(codes(p + seq![y] + b) =~= c + v);
    assert(c =~= c + Seq::<int>::empty());
    lemma_less_front(c, u, v);
    lemma_less_front(c, v, u);
    lemma_less_front(c, Seq::<int>::empty(), u);
}

/// Byte strings are ordered in the same way.
pub proof fn law_first_byte_decides(p: Seq<u8>, x: u8, a: Seq<u8>, y: u8, b: Seq<u8>)
    requires
        x < y,
    ensures
        bytes_less(p + seq![x] + a, p + seq![y] + b),
        bytes_less(p, p + seq![x] + a),
        !bytes_less(p + seq![y] + b, p + seq![x] + a),
{
    let c = numbers(p);
    let u = seq![x as int] + numbers(a);
    let v = seq![y as int] + numbers(b);
    assert(numbers(p + seq![x] + a) =~= c + u);
    assert(numbers(p + seq![y] + b) =~= c + v);
    assert(c =~= c + Seq::<int>::empty());
    lemma_less_front(c, u, v);
    lemma_less_front(c, v, u);
    lemma_less_front(c, Seq::<int>::empty(), u);
}

/// Sorting keeps every text, each once, and puts none before a smaller one.
pub proof fn law_sorting_keeps_every_text(s: Seq<Seq<char>>)
    ensures
        forall|y: Seq<char>| #[trigger] sorted_unique(s).contains(y) <==> s.contains(y),
        sorted_unique(s).no_duplicates(),
        forall|i: int, j: int|
            0 <= i < j < sorted_unique(s).len() ==> text_less(
                #[trigger] sorted_unique(s)[i],
                #[trigger] sorted_unique(s)[j],
            ),
{
    lemma_sorted_unique(s);
    let r = sorted_unique(s);
    assert forall|i: int, j: int| 0 <= i < r.len() && 0 <= j < r.len() && i != j implies r[i]
        != r[j] by {
        lemma_text_order(r[i], r[j], r[i]);
        if i < j {
            assert(text_less(r[i], r[j]));
        } else {
            assert(text_less(r[j], r[i]));
        }
    }
}

} // verus!
