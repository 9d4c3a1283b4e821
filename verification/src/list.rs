//! Lists of strings used as small sets: adding what is missing, taking out
//! one text, keeping the first of equals.

use vstd::prelude::*;

use crate::text::{has_member, lemma_texts_push, owned, same, texts};

verus! {

/// `s` with `x` at its end, unless it is there already.
pub open spec fn with_text(s: Seq<Seq<char>>, x: Seq<char>) -> Seq<Seq<char>> {
    if s.contains(x) {
        s
    } else {
        s.push(x)
    }
}

/// `s`, then the texts of `more` that are not there yet, in order.
pub open spec fn add_missing(s: Seq<Seq<char>>, more: Seq<Seq<char>>) -> Seq<Seq<char>>
    decreases more.len(),
{
    if more.len() == 0 {
        s
    } else {
        with_text(add_missing(s, more.drop_last()), more.last())
    }
}

/// The texts of `s` without repeats, each at the place of its first
/// occurrence.
pub open spec fn unique(s: Seq<Seq<char>>) -> Seq<Seq<char>> {
    add_missing(Seq::empty(), s)
}

/// `s` without the texts equal to `x`.
pub open spec fn without(s: Seq<Seq<char>>, x: Seq<char>) -> Seq<Seq<char>>
    decreases s.len(),
{
    if s.len() == 0 {
        Seq::empty()
    } else if s.last() == x {
        without(s.drop_last(), x)
    } else {
        without(s.drop_last(), x).push(s.last())
    }
}

/// Adding keeps what is there, brings in all that is asked for and nothing
/// else, and repeats nothing that was not repeated before.
pub proof fn lemma_add_missing(s: Seq<Seq<char>>, more: Seq<Seq<char>>)
    ensures
        s.len() <= add_missing(s, more).len(),
        forall|i: int| 0 <= i < s.len() ==> add_missing(s, more)[i] == #[trigger] s[i],
        forall|x: Seq<char>| #[trigger]
            add_missing(s, more).contains(x) <==> s.contains(x) || more.contains(x),
        s.no_duplicates() ==> add_missing(s, more).no_duplicates(),
    decreases more.len(),
{
    if more.len() == 0 {
        assert forall|x: Seq<char>| #[trigger]
            add_missing(s, more).contains(x) <==> s.contains(x) || more.contains(x) by {}
    } else {
        let m = more.drop_last();
        let t = add_missing(s, m);
        lemma_add_missing(s, m);
        let r = add_missing(s, more);
        assert forall|i: int| 0 <= i < s.len() implies r[i] == #[trigger] s[i] by {
            assert(t[i] == s[i]);
        }
        assert forall|x: Seq<char>| #[trigger] r.contains(x) <==> s.contains(x) || more.contains(
            x,
        ) by {
            if r.contains(x) {
                let k = choose|k: int| 0 <= k < r.len() && r[k] == x;
                if k < t.len() {
                    assert(t[k] == x);
                    assert(t.contains(x));
                    if m.contains(x) {
                        let j = choose|j: int| 0 <= j < m.len() && m[j] == x;
                        assert(more[j] == x);
                    }
                } else {
                    assert(more[more.len() - 1] == x);
                }
            }
            if s.contains(x) || m.contains(x) {
                assert(t.contains(x));
                let k = choose|k: int| 0 <= k < t.len() && t[k] == x;
                assert(r[k] == x);
            }
            if more.contains(x) {
                let k = choose|k: int| 0 <= k < more.len() && more[k] == x;
                if k < more.len() - 1 {
                    assert(m[k] == x);
                } else if t.contains(x) {
                } else {
                    assert(r[t.len() as int] == x);
                }
            }
        }
    }
}

/// Adding what is there already changes nothing.
pub proof fn lemma_add_nothing(s: Seq<Seq<char>>, more: Seq<Seq<char>>)
    requires
        forall|k: int| 0 <= k < more.len() ==> s.contains(#[trigger] more[k]),
    ensures
        add_missing(s, more) == s,
    decreases more.len(),
{
    if more.len() > 0 {
        let d = more.drop_last();
        assert forall|k: int| 0 <= k < d.len() implies s.contains(#[trigger] d[k]) by {
            assert(d[k] == more[k]);
        }
        lemma_add_nothing(s, d);
        assert(s.contains(more[more.len() - 1]));
    }
}

/// Adding the same texts again changes nothing.
pub proof fn lemma_add_twice(s: Seq<Seq<char>>, more: Seq<Seq<char>>)
    ensures
        add_missing(add_missing(s, more), more) == add_missing(s, more),
        add_missing(more, more) == more,
{
    lemma_add_missing(s, more);
    assert forall|k: int| 0 <= k < more.len() implies add_missing(s, more).contains(
        #[trigger] more[k],
    ) by {
        assert(more.contains(more[k]));
    }
    lemma_add_nothing(add_missing(s, more), more);
    lemma_add_nothing(more, more);
}

/// Taking a text out leaves the others as they were.
pub proof fn lemma_without(s: Seq<Seq<char>>, x: Seq<char>)
    ensures
        !without(s, x).contains(x),
        without(s, x).len() <= s.len(),
        without(s, x).len() == s.len() <==> !s.contains(x),
        !s.contains(x) ==> without(s, x) == s,
        forall|y: Seq<char>| y != x ==> (#[trigger] without(s, x).contains(y) <==> s.contains(y)),
    decreases s.len(),
{
    if s.len() > 0 {
        let d = s.drop_last();
        let t = without(d, x);
        let r = without(s, x);
        lemma_without(d, x);
        assert(s[s.len() - 1] == s.last());
        assert forall|y: Seq<char>| y != x implies (#[trigger] r.contains(y) <==> s.contains(
            y,
        )) by {
            if r.contains(y) {
                let k = choose|k: int| 0 <= k < r.len() && r[k] == y;
                if k < t.len() {
                    assert(t[k] == y);
                    assert(t.contains(y));
                    let j = choose|j: int| 0 <= j < d.len() && d[j] == y;
                    assert(s[j] == y);
                }
            }
            if s.contains(y) {
                let k = choose|k: int| 0 <= k < s.len() && s[k] == y;
                if k < d.len() {
                    assert(d[k] == y);
                    assert(t.contains(y));
                    let j = choose|j: int| 0 <= j < t.len() && t[j] == y;
                    assert(r[j] == y);
                } else {
                    assert(r[t.len() as int] == y);
                }
            }
        }
        if r.contains(x) {
            let k = choose|k: int| 0 <= k < r.len() && r[k] == x;
            if k < t.len() {
                assert(t[k] == x);
                assert(t.contains(x));
            }
            assert(false);
        }
        if s.contains(x) {
            let k = choose|k: int| 0 <= k < s.len() && s[k] == x;
            if k < d.len() {
                assert(d[k] == x);
                assert(d.contains(x));
            }
        } else {
            assert(!d.contains(x)) by {
                if d.contains(x) {
                    let k = choose|k: int| 0 <= k < d.len() && d[k] == x;
                    assert(s[k] == x);
                }
            }
            assert(r =~= s);
        }
    }
}

/// Put `x` at the end of the list, unless it is there already.
pub fn add_text(list: &mut Vec<String>, x: &str)
    ensures
        texts(final(list)@) == with_text(texts(old(list)@), x@),
{
    if !has_member(list.as_slice(), x) {
        let s = owned(x);
        proof {
            lemma_texts_push(list@, s);
        }
        list.push(s);
    }
}

/// Put the texts of `more` that are not there yet at the end of the list.
pub fn add_texts(list: &mut Vec<String>, more: &[String])
    ensures
        texts(final(list)@) == add_missing(texts(old(list)@), texts(more@)),
{
    let mut i: usize = 0;
    assert(texts(more@).take(0) =~= Seq::<Seq<char>>::empty());
    while i < more.len()
        invariant
            i <= more@.len(),
            texts(list@) == add_missing(texts(old(list)@), texts(more@).take(i as int)),
        decreases more@.len() - i,
    {
        add_text(list, more[i].as_str());
        i = i + 1;
        proof {
            let upto = texts(more@).take(i as int);
            assert(upto.drop_last() =~= texts(more@).take(i - 1));
            assert(upto.last() == more@[i - 1]@);
        }
    }
    assert(texts(more@).take(more@.len() as int) =~= texts(more@));
}

/// A list without repeats.
pub fn uniqued(list: &[String]) -> (r: Vec<String>)
    ensures
        texts(r@) == unique(texts(list@)),
{
    let mut r: Vec<String> = Vec::new();
    assert(texts(r@) =~= Seq::<Seq<char>>::empty());
    add_texts(&mut r, list);
    r
}

/// A copy of a list.
pub fn copied(list: &[String]) -> (r: Vec<String>)
    ensures
        texts(r@) == texts(list@),
{
    let mut r: Vec<String> = Vec::new();
    let mut i: usize = 0;
    while i < list.len()
        invariant
            i <= list@.len(),
            r@.len() == i,
            forall|k: int| 0 <= k < i ==> (#[trigger] r@[k])@ == list@[k]@,
        decreases list@.len() - i,
    {
        r.push(list[i].clone());
        i = i + 1;
    }
    assert(texts(r@) =~= texts(list@));
    r
}

/// Take the texts equal to `x` out of the list.
pub fn remove_text(list: &mut Vec<String>, x: &str)
    ensures
        texts(final(list)@) == without(texts(old(list)@), x@),
{
    let mut kept: Vec<String> = Vec::new();
    let mut i: usize = 0;
    assert(texts(kept@) =~= Seq::<Seq<char>>::empty());
    while i < list.len()
        invariant
            list@ == old(list)@,
            i <= list@.len(),
            texts(kept@) == without(texts(list@).take(i as int), x@),
        decreases list@.len() - i,
    {
        let ghost done = kept@;
        if !same(list[i].as_str(), x) {
            let s = list[i].clone();
            proof {
                lemma_texts_push(done, s);
            }
            kept.push(s);
        }
        i = i + 1;
        proof {
            let upto = texts(list@).take(i as int);
            assert(upto.drop_last() =~= texts(list@).take(i - 1));
            assert(upto.last() == list@[i - 1]@);
        }
    }
    assert(texts(list@).take(list@.len() as int) =~= texts(list@));
    *list = kept;
}

/// True when `chosen` are the texts of `all` that come up for the first time,
/// in their order: `at` gives their places.
pub open spec fn first_of_each(
    all: Seq<Seq<char>>,
    chosen: Seq<Seq<char>>,
    at: Seq<int>,
) -> bool {
    &&& at.len() == chosen.len()
    &&& forall|k: int, m: int| 0 <= k < m < at.len() ==> #[trigger] at[k] < #[trigger] at[m]
    &&& forall|k: int|
        0 <= k < at.len() ==> 0 <= #[trigger] at[k] < all.len() && all[at[k]] == chosen[k]
    &&& forall|k: int, j: int|
        0 <= k < at.len() && 0 <= j < #[trigger] at[k] ==> #[trigger] all[j] != chosen[k]
    &&& forall|i: int| 0 <= i < all.len() ==> chosen.contains(#[trigger] all[i])
}

proof fn lemma_first_of_each(s: Seq<Seq<char>>) -> (at: Seq<int>)
    ensures
        first_of_each(s, unique(s), at),
    decreases s.len(),
{
    if s.len() == 0 {
        Seq::empty()
    } else {
        let n = s.len() - 1;
        let d = s.drop_last();
        let at = lemma_first_of_each(d);
        let u = unique(d);
        let r = unique(s);
        let e = s[n];
        let more = if u.contains(e) {
            at
        } else {
            at.push(n)
        };
        assert forall|k: int| 0 <= k < more.len() implies 0 <= #[trigger] more[k] < s.len()
            && s[more[k]] == r[k] by {
            if k < at.len() {
                assert(more[k] == at[k]);
                assert(0 <= at[k] < d.len() && d[at[k]] == u[k]);
            }
        }
        assert forall|k: int, m: int| 0 <= k < m < more.len() implies #[trigger] more[k]
            < #[trigger] more[m] by {
            assert(more[k] == at[k]);
            assert(0 <= at[k] < d.len());
            if m < at.len() {
                assert(at[k] < at[m]);
            }
        }
        assert forall|k: int, j: int| 0 <= k < more.len() && 0 <= j < #[trigger] more[k] implies
            #[trigger] s[j] != r[k] by {
            assert(d[j] == s[j]);
            if k < at.len() {
                assert(more[k] == at[k]);
                assert(d[j] != u[k]);
            } else {
                assert(u.contains(d[j]));
            }
        }
        assert forall|i: int| 0 <= i < s.len() implies r.contains(#[trigger] s[i]) by {
            if i < n {
                assert(u.contains(d[i]));
                let k = choose|k: int| 0 <= k < u.len() && u[k] == d[i];
                assert(r[k] == s[i]);
            } else if !u.contains(e) {
                assert(r[u.len() as int] == e);
            }
        }
        more
    }
}

/// A list without repeats holds the same texts, none twice, in the order in
/// which they came up first; one that repeats nothing is what it was.
pub proof fn law_unique_keeps_the_first(s: Seq<Seq<char>>)
    ensures
        unique(s).no_duplicates(),
        forall|x: Seq<char>| #[trigger] unique(s).contains(x) <==> s.contains(x),
        exists|at: Seq<int>| first_of_each(s, unique(s), at),
        s.no_duplicates() ==> unique(s) == s,
{
    lemma_add_missing(Seq::empty(), s);
    let at = lemma_first_of_each(s);
    assert(first_of_each(s, unique(s), at));
    if s.no_duplicates() {
        lemma_unique_same(s);
    }
}

proof fn lemma_unique_same(s: Seq<Seq<char>>)
    requires
        s.no_duplicates(),
    ensures
        unique(s) == s,
    decreases s.len(),
{
    if s.len() > 0 {
        let d = s.drop_last();
        assert forall|i: int, j: int| 0 <= i < d.len() && 0 <= j < d.len() && i != j implies d[i]
            != d[j] by {
            assert(d[i] == s[i] && d[j] == s[j]);
        }
        lemma_unique_same(d);
        assert(!d.contains(s.last())) by {
            if d.contains(s.last()) {
                let k = choose|k: int| 0 <= k < d.len() && d[k] == s.last();
                assert(s[k] == s[s.len() - 1]);
            }
        }
        assert(unique(s) =~= s);
    } else {
        assert(unique(s) =~= s);
    }
}

/// Taking a text out leaves the others, in their order.
pub proof fn law_without_keeps_the_others(s: Seq<Seq<char>>, x: Seq<char>)
    ensures
        without(s, x) == s.filter(|y: Seq<char>| y != x),
    decreases s.len(),
{
    reveal(Seq::filter);
    if s.len() > 0 {
        law_without_keeps_the_others(s.drop_last(), x);
    } else {
        assert(without(s, x) =~= s);
    }
}

/// Adding what is missing leaves the list as it was and puts behind it the
/// texts that it lacks, each once and in their order.
pub proof fn law_missing_texts_go_behind(s: Seq<Seq<char>>, more: Seq<Seq<char>>)
    ensures
        add_missing(s, more) == s + unique(more).filter(|x: Seq<char>| !s.contains(x)),
    decreases more.len(),
{
    reveal(Seq::filter);
    let lacks = |x: Seq<char>| !s.contains(x);
    if more.len() == 0 {
        assert(unique(more).filter(lacks) =~= Seq::<Seq<char>>::empty());
        assert(s + Seq::<Seq<char>>::empty() =~= s);
    } else {
        let d = more.drop_last();
        let x = more.last();
        let u = unique(d);
        law_missing_texts_go_behind(s, d);
        lemma_add_missing(s, d);
        lemma_add_missing(Seq::empty(), d);
        if !u.contains(x) {
            assert(u.push(x).drop_last() =~= u);
            if !s.contains(x) {
                assert(!add_missing(s, d).contains(x));
                assert(s + u.filter(lacks).push(x) =~= (s + u.filter(lacks)).push(x));
            }
        }
    }
}

} // verus!
