//! The text form of IP addresses and networks.
//!
//! An IPv4 address is four decimal numbers of at most 255 between dots,
//! without leading zeros. An IPv6 address is eight groups of up to four
//! hexadecimal digits between colons; one run of zero groups may be written
//! `::`, and the last two groups may be written as an IPv4 address.

use vstd::prelude::*;

use crate::text::{
    all_digits, ascii_fold, chars_of, contains_char, decimal, digit_char, digits_value,
    eq_ignore_case, first_of, hexadecimal, is_digit, join, lemma_decimal, lemma_first_of,
    lemma_first_of_is, lemma_join_split, lemma_split_join, number, parse_digits, parse_number,
    split, split_once, splitted, splitted_once, string_of, texts, Class,
};

verus! {

/// An IP address: four octets, or eight groups of sixteen bits.
#[derive(Debug, Clone, Copy, PartialEq, Eq)]
pub enum Ip {
    V4([u8; 4]),
    V6([u16; 8]),
}

/// What an [`Ip`] holds, as sequences.
pub enum IpView {
    V4(Seq<u8>),
    V6(Seq<u16>),
}

impl View for Ip {
    type V = IpView;

    open spec fn view(&self) -> IpView {
        match self {
            Ip::V4(o) => IpView::V4(o@),
            Ip::V6(g) => IpView::V6(g@),
        }
    }
}

// ---------------------------------------------------------------------------
// The grammar
// ---------------------------------------------------------------------------

/// One number of an IPv4 address.
pub open spec fn octet(t: Seq<char>) -> Option<u8> {
    if 1 <= t.len() <= 3 && all_digits(t) && (t.len() > 1 ==> t[0] != '0') && digits_value(t)
        <= 255 {
        Some(digits_value(t) as u8)
    } else {
        None
    }
}

/// The octets of an IPv4 address.
pub open spec fn v4_octets(s: Seq<char>) -> Option<Seq<u8>> {
    let p = split(s, Class::One('.'));
    if p.len() == 4 && forall|i: int| 0 <= i < 4 ==> octet(#[trigger] p[i]) is Some {
        Some(Seq::new(4, |i: int| octet(p[i])->0))
    } else {
        None
    }
}

/// The value of a hexadecimal digit, in either case of letter.
pub open spec fn hex_digit(c: char) -> Option<int> {
    let n = c as int;
    if 0x30 <= n <= 0x39 {
        Some(n - 0x30)
    } else if 0x61 <= n <= 0x66 {
        Some(n - 0x57)
    } else if 0x41 <= n <= 0x46 {
        Some(n - 0x37)
    } else {
        None
    }
}

pub open spec fn all_hex(t: Seq<char>) -> bool {
    forall|i: int| 0 <= i < t.len() ==> hex_digit(#[trigger] t[i]) is Some
}

/// The number that a run of hexadecimal digits spells.
pub open spec fn hex_value(t: Seq<char>) -> nat
    decreases t.len(),
{
    if t.len() == 0 {
        0
    } else {
        (hex_value(t.drop_last()) * 16 + hex_digit(t.last())->0) as nat
    }
}

/// One group of an IPv6 address.
pub open spec fn group(t: Seq<char>) -> Option<u16> {
    if 1 <= t.len() <= 4 && all_hex(t) {
        Some(hex_value(t) as u16)
    } else {
        None
    }
}

/// The two groups that an embedded IPv4 address stands for.
pub open spec fn embedded(o: Seq<u8>) -> Seq<u16> {
    seq![(o[0] * 256 + o[1]) as u16, (o[2] * 256 + o[3]) as u16]
}

/// The groups that the pieces of a colon-separated list stand for. With
/// `embed`, the last piece may be an IPv4 address.
pub open spec fn groups(p: Seq<Seq<char>>, embed: bool) -> Option<Seq<u16>>
    decreases p.len(),
{
    if p.len() == 0 {
        Some(Seq::empty())
    } else if p.len() == 1 && embed && v4_octets(p[0]) is Some {
        Some(embedded(v4_octets(p[0])->0))
    } else {
        match (group(p[0]), groups(p.drop_first(), embed)) {
            (Some(g), Some(rest)) => Some(seq![g] + rest),
            _ => None,
        }
    }
}

/// The groups of one side of `::`, or of a whole address without one. The
/// empty text has none.
pub open spec fn group_list(s: Seq<char>, embed: bool) -> Option<Seq<u16>> {
    if s.len() == 0 {
        Some(Seq::empty())
    } else {
        groups(split(s, Class::One(':')), embed)
    }
}

/// The position of the first `::`, or the length of `s` when there is none.
pub open spec fn double_colon(s: Seq<char>) -> nat
    decreases s.len(),
{
    if s.len() < 2 {
        s.len()
    } else if s[0] == ':' && s[1] == ':' {
        0
    } else {
        1 + double_colon(s.drop_first())
    }
}

/// The groups of an IPv6 address.
pub open spec fn v6_groups(s: Seq<char>) -> Option<Seq<u16>> {
    let i = double_colon(s) as int;
    if i >= s.len() {
        match group_list(s, true) {
            Some(g) => if g.len() == 8 {
                Some(g)
            } else {
                None
            },
            None => None,
        }
    } else {
        match (group_list(s.take(i), false), group_list(s.skip(i + 2), true)) {
            (Some(head), Some(tail)) => if head.len() + tail.len() <= 7 {
                Some(head + Seq::new((8 - head.len() - tail.len()) as nat, |k: int| 0u16) + tail)
            } else {
                None
            },
            _ => None,
        }
    }
}

/// The address that a text spells, if it spells one.
pub open spec fn ip(s: Seq<char>) -> Option<IpView> {
    match v4_octets(s) {
        Some(o) => Some(IpView::V4(o)),
        None => match v6_groups(s) {
            Some(g) => Some(IpView::V6(g)),
            None => None,
        },
    }
}

/// The longest prefix of an address of that family.
pub open spec fn width(a: IpView) -> nat {
    match a {
        IpView::V4(_) => 32,
        IpView::V6(_) => 128,
    }
}

/// True for an address, and for a network: an address, a slash, and a prefix
/// length that its family has.
pub open spec fn is_ip_or_network(s: Seq<char>) -> bool {
    ip(s) is Some || match split_once(s, '/') {
        Some((a, prefix)) => ip(a) is Some && number(prefix, 255) is Some && number(
            prefix,
            255,
        )->0 <= width(ip(a)->0),
        None => false,
    }
}

// ---------------------------------------------------------------------------
// Reading
// ---------------------------------------------------------------------------

fn parse_octet(t: &str) -> (r: Option<u8>)
    ensures
        r == octet(t@),
{
    let cs = chars_of(t);
    if cs.len() < 1 || cs.len() > 3 {
        return None;
    }
    if cs.len() > 1 && cs[0] == '0' {
        return None;
    }
    assert(cs@.subrange(0, cs@.len() as int) =~= t@);
    match parse_digits(cs.as_slice(), 0, cs.len(), 255) {
        Some(n) => Some(n as u8),
        None => None,
    }
}

/// The octets of an IPv4 address, if `s` spells one.
pub fn parse_v4(s: &str) -> (r: Option<[u8; 4]>)
    ensures
        match r {
            Some(o) => v4_octets(s@) == Some(o@),
            None => v4_octets(s@) is None,
        },
{
    let p = splitted(s, Class::One('.'));
    let ghost q = split(s@, Class::One('.'));
    assert(q.len() == p@.len());
    if p.len() != 4 {
        return None;
    }
    assert forall|i: int| 0 <= i < 4 implies #[trigger] q[i] == p@[i]@ by {
        assert(texts(p@)[i] == p@[i]@);
    }
    let a = parse_octet(p[0].as_str());
    let b = parse_octet(p[1].as_str());
    let c = parse_octet(p[2].as_str());
    let d = parse_octet(p[3].as_str());
    match (a, b, c, d) {
        (Some(w), Some(x), Some(y), Some(z)) => {
            let o: [u8; 4] = [w, x, y, z];
            proof {
                assert(octet(q[0]) is Some && octet(q[1]) is Some && octet(q[2]) is Some
                    && octet(q[3]) is Some);
                assert(forall|i: int| 0 <= i < 4 ==> octet(#[trigger] q[i]) is Some);
                assert(o@ =~= v4_octets(s@)->0);
            }
            Some(o)
        },
        _ => {
            assert(octet(q[0]) is None || octet(q[1]) is None || octet(q[2]) is None || octet(
                q[3],
            ) is None);
            None
        },
    }
}

fn parse_hex_digit(c: char) -> (r: Option<u32>)
    ensures
        match r {
            Some(d) => hex_digit(c) == Some(d as int) && d < 16,
            None => hex_digit(c) is None,
        },
{
    let n: u32 = c as u32;
    if 0x30 <= n && n <= 0x39 {
        Some(n - 0x30)
    } else if 0x61 <= n && n <= 0x66 {
        Some(n - 0x57)
    } else if 0x41 <= n && n <= 0x46 {
        Some(n - 0x37)
    } else {
        None
    }
}

fn parse_group(t: &str) -> (r: Option<u16>)
    ensures
        r == group(t@),
{
    let cs = chars_of(t);
    if cs.len() < 1 || cs.len() > 4 {
        return None;
    }
    let mut acc: u32 = 0;
    let mut i: usize = 0;
    while i < cs.len()
        invariant
            cs@ == t@,
            1 <= cs@.len() <= 4,
            i <= cs@.len(),
            all_hex(t@.take(i as int)),
            acc == hex_value(t@.take(i as int)),
            i == 0 ==> acc == 0,
            i == 1 ==> acc < 16,
            i == 2 ==> acc < 256,
            i == 3 ==> acc < 4096,
            i == 4 ==> acc < 65536,
        decreases cs@.len() - i,
    {
        match parse_hex_digit(cs[i]) {
            Some(d) => {
                proof {
                    let next = t@.take(i + 1);
                    assert(next.drop_last() =~= t@.take(i as int));
                    assert(next.last() == cs@[i as int]);
                    assert forall|k: int| 0 <= k < next.len() implies hex_digit(
                        #[trigger] next[k],
                    ) is Some by {
                        if k < i {
                            assert(t@.take(i as int)[k] == next[k]);
                        }
                    }
                }
                acc = acc * 16 + d;
                i = i + 1;
            },
            None => {
                assert(hex_digit(t@[i as int]) is None);
                return None;
            },
        }
    }
    assert(t@.take(t@.len() as int) =~= t@);
    Some(acc as u16)
}

fn parse_groups(p: &[String], embed: bool) -> (r: Option<Vec<u16>>)
    ensures
        match r {
            Some(g) => groups(texts(p@), embed) == Some(g@),
            None => groups(texts(p@), embed) is None,
        },
{
    let ghost t = texts(p@);
    let mut out: Vec<u16> = Vec::new();
    let mut i: usize = 0;
    assert(t.skip(0) =~= t);
    proof {
        if groups(t, embed) is Some {
            assert(out@ + groups(t, embed)->0 =~= groups(t, embed)->0);
        }
    }
    while i < p.len()
        invariant
            t == texts(p@),
            i <= p@.len(),
            groups(t, embed) is Some == groups(t.skip(i as int), embed) is Some,
            groups(t, embed) is Some ==> groups(t, embed)->0 == out@ + groups(
                t.skip(i as int),
                embed,
            )->0,
        decreases p@.len() - i,
    {
        let ghost rest = t.skip(i as int);
        assert(rest[0] == p@[i as int]@);
        if embed && i == p.len() - 1 {
            if let Some(o) = parse_v4(p[i].as_str()) {
                let high: u16 = o[0] as u16 * 256 + o[1] as u16;
                let low: u16 = o[2] as u16 * 256 + o[3] as u16;
                proof {
                    assert(groups(rest, embed) == Some(embedded(o@)));
                    assert(embedded(o@) =~= seq![high, low]);
                    assert(out@.push(high).push(low) =~= out@ + embedded(o@));
                }
                out.push(high);
                out.push(low);
                return Some(out);
            }
        }
        match parse_group(p[i].as_str()) {
            Some(g) => {
                proof {
                    assert(rest.drop_first() =~= t.skip(i + 1));
                    if groups(rest.drop_first(), embed) is Some {
                        let more = groups(rest.drop_first(), embed)->0;
                        assert(out@.push(g) + more =~= out@ + (seq![g] + more));
                    }
                }
                out.push(g);
                i = i + 1;
            },
            None => {
                return None;
            },
        }
    }
    proof {
        assert(t.skip(i as int).len() == 0);
        assert(out@ + Seq::<u16>::empty() =~= out@);
    }
    Some(out)
}

fn parse_group_list(s: &str, embed: bool) -> (r: Option<Vec<u16>>)
    ensures
        match r {
            Some(g) => group_list(s@, embed) == Some(g@),
            None => group_list(s@, embed) is None,
        },
{
    if s.is_empty() {
        return Some(Vec::new());
    }
    let p = splitted(s, Class::One(':'));
    parse_groups(p.as_slice(), embed)
}

fn find_double_colon(cs: &[char]) -> (i: usize)
    ensures
        i == double_colon(cs@),
        i <= cs@.len(),
        i < cs@.len() ==> i + 2 <= cs@.len(),
{
    let mut i: usize = 0;
    assert(cs@.skip(0) =~= cs@);
    while i < cs.len() && cs.len() - i >= 2 && !(cs[i] == ':' && cs[i + 1] == ':')
        invariant
            i <= cs@.len(),
            i + double_colon(cs@.skip(i as int)) == double_colon(cs@),
        decreases cs@.len() - i,
    {
        assert(cs@.skip(i as int).drop_first() =~= cs@.skip(i + 1));
        i = i + 1;
    }
    if cs.len() - i < 2 {
        cs.len()
    } else {
        i
    }
}

fn eight(g: &Vec<u16>) -> (r: [u16; 8])
    requires
        g@.len() == 8,
    ensures
        r@ == g@,
{
    let r: [u16; 8] = [g[0], g[1], g[2], g[3], g[4], g[5], g[6], g[7]];
    assert(r@ =~= g@);
    r
}

/// The groups of an IPv6 address, if `s` spells one.
pub fn parse_v6(s: &str) -> (r: Option<[u16; 8]>)
    ensures
        match r {
            Some(g) => v6_groups(s@) == Some(g@),
            None => v6_groups(s@) is None,
        },
{
    let cs = chars_of(s);
    let i: usize = find_double_colon(cs.as_slice());
    if i >= cs.len() {
        return match parse_group_list(s, true) {
            Some(g) => if g.len() == 8 {
                Some(eight(&g))
            } else {
                None
            },
            None => None,
        };
    }
    let before_it = string_of(cs.as_slice(), 0, i);
    let after_it = string_of(cs.as_slice(), i + 2, cs.len());
    assert(before_it@ =~= s@.take(i as int));
    assert(after_it@ =~= s@.skip(i + 2));
    match (parse_group_list(before_it.as_str(), false), parse_group_list(after_it.as_str(), true)) {
        (Some(head), Some(tail)) => {
            if head.len() > 7 || tail.len() > 7 - head.len() {
                return None;
            }
            let mut all: Vec<u16> = Vec::new();
            let mut k: usize = 0;
            while k < 8
                invariant
                    head@.len() + tail@.len() <= 7,
                    k <= 8,
                    all@.len() == k,
                    forall|j: int|
                        0 <= j < k ==> #[trigger] all@[j] == (if j < head@.len() {
                            head@[j]
                        } else if j < 8 - tail@.len() {
                            0u16
                        } else {
                            tail@[j - (8 - tail@.len())]
                        }),
                decreases 8 - k,
            {
                if k < head.len() {
                    all.push(head[k]);
                } else if k < 8 - tail.len() {
                    all.push(0);
                } else {
                    all.push(tail[k - (8 - tail.len())]);
                }
                k = k + 1;
            }
            assert(all@ =~= head@ + Seq::new(
                (8 - head@.len() - tail@.len()) as nat,
                |k: int| 0u16,
            ) + tail@);
            Some(eight(&all))
        },
        _ => None,
    }
}

/// The address that `s` spells, if it spells one.
pub fn parse_ip(s: &str) -> (r: Option<Ip>)
    ensures
        match r {
            Some(a) => ip(s@) == Some(a@),
            None => ip(s@) is None,
        },
{
    match parse_v4(s) {
        Some(o) => Some(Ip::V4(o)),
        None => match parse_v6(s) {
            Some(g) => Some(Ip::V6(g)),
            None => None,
        },
    }
}

/// True when `target` is an address or a network in CIDR form: something
/// that needs no DNS and can go into `AllowedIPs` as written.
///
/// A v4 prefix is at most 32 and a v6 prefix at most 128; `1.2.3.4/99` would
/// make a tunnel that takes the file and routes nothing.
pub fn is_address(target: &str) -> (r: bool)
    ensures
        r == is_ip_or_network(target@),
{
    if parse_ip(target).is_some() {
        return true;
    }
    match splitted_once(target, '/') {
        Some((a, prefix)) => match parse_ip(a.as_str()) {
            Some(Ip::V4(_)) => match parse_number(prefix.as_str(), 255) {
                Some(n) => n <= 32,
                None => false,
            },
            Some(Ip::V6(_)) => match parse_number(prefix.as_str(), 255) {
                Some(n) => n <= 128,
                None => false,
            },
            None => false,
        },
        None => false,
    }
}

// ---------------------------------------------------------------------------
// Written numbers are read back
// ---------------------------------------------------------------------------

/// A number below 256 in decimal is an octet.
pub proof fn lemma_decimal_octet(n: u8)
    ensures
        octet(decimal(n as nat)) == Some(n),
        forall|k: int|
            0 <= k < decimal(n as nat).len() ==> is_digit(#[trigger] decimal(n as nat)[k]),
{
    lemma_decimal(n as nat);
}

/// A number below 65536 in hexadecimal is a group.
pub proof fn lemma_hexadecimal_group(n: u16)
    ensures
        group(hexadecimal(n as nat)) == Some(n),
        1 <= hexadecimal(n as nat).len() <= 4,
        all_hex(hexadecimal(n as nat)),
{
    lemma_hexadecimal(n as nat);
}

proof fn lemma_hexadecimal(n: nat)
    ensures
        hexadecimal(n).len() >= 1,
        all_hex(hexadecimal(n)),
        hex_value(hexadecimal(n)) == n,
        n < 16 ==> hexadecimal(n).len() == 1,
        n < 256 ==> hexadecimal(n).len() <= 2,
        n < 4096 ==> hexadecimal(n).len() <= 3,
        n < 65536 ==> hexadecimal(n).len() <= 4,
    decreases n,
{
    reveal_with_fuel(hex_value, 2);
    let s = hexadecimal(n);
    if n < 16 {
        assert(s.drop_last() =~= Seq::<char>::empty());
        assert(s.last() == digit_char(n));
    } else {
        lemma_hexadecimal(n / 16);
        let d = hexadecimal(n / 16);
        assert(s.drop_last() =~= d);
        assert(s.last() == digit_char(n % 16));
        assert forall|i: int| 0 <= i < s.len() implies hex_digit(#[trigger] s[i]) is Some by {
            if i < d.len() {
                assert(s[i] == d[i]);
            }
        }
    }
}

/// The position of `::`, when no pair of colons comes before it.
pub proof fn lemma_double_colon_is(s: Seq<char>, i: int)
    requires
        0 <= i,
        i + 1 < s.len(),
        s[i] == ':',
        s[i + 1] == ':',
        forall|k: int| 0 <= k < i ==> !(#[trigger] s[k] == ':' && s[k + 1] == ':'),
    ensures
        double_colon(s) == i,
    decreases i,
{
    if i > 0 {
        let d = s.drop_first();
        assert(!(s[0] == ':' && s[1] == ':'));
        assert forall|k: int| 0 <= k < i - 1 implies !(#[trigger] d[k] == ':' && d[k + 1]
            == ':') by {
            assert(d[k] == s[k + 1]);
            assert(d[k + 1] == s[k + 2]);
        }
        lemma_double_colon_is(d, i - 1);
    }
}

/// Four octets between dots are an address.
pub proof fn lemma_written_v4(a: u8, b: u8, c: u8, d: u8)
    ensures
        ip(
            decimal(a as nat) + seq!['.'] + decimal(b as nat) + seq!['.'] + decimal(c as nat)
                + seq!['.'] + decimal(d as nat),
        ) == Some(IpView::V4(seq![a, b, c, d])),
{
    let s = decimal(a as nat) + seq!['.'] + decimal(b as nat) + seq!['.'] + decimal(c as nat)
        + seq!['.'] + decimal(d as nat);
    let p = seq![decimal(a as nat), decimal(b as nat), decimal(c as nat), decimal(d as nat)];
    lemma_decimal_octet(a);
    lemma_decimal_octet(b);
    lemma_decimal_octet(c);
    lemma_decimal_octet(d);
    assert forall|k: int| 0 <= k < p.len() implies !contains_char(#[trigger] p[k], '.') by {
        if contains_char(p[k], '.') {
            let j = choose|j: int| 0 <= j < p[k].len() && p[k][j] == '.';
            assert(is_digit(p[k][j]));
        }
    }
    reveal_with_fuel(join, 5);
    assert(p.drop_last() =~= seq![decimal(a as nat), decimal(b as nat), decimal(c as nat)]);
    assert(p.drop_last().drop_last() =~= seq![decimal(a as nat), decimal(b as nat)]);
    assert(p.drop_last().drop_last().drop_last() =~= seq![decimal(a as nat)]);
    assert(join(p, seq!['.']) =~= s);
    lemma_split_join(p, '.');
    assert(v4_octets(s)->0 =~= seq![a, b, c, d]);
}

/// Groups as they are written.
pub open spec fn group_texts(g: Seq<u16>) -> Seq<Seq<char>> {
    Seq::new(g.len(), |i: int| hexadecimal(g[i] as nat))
}

proof fn lemma_groups_written(g: Seq<u16>)
    ensures
        groups(group_texts(g), false) == Some(g),
    decreases g.len(),
{
    let p = group_texts(g);
    if g.len() == 0 {
        assert(groups(p, false)->0 =~= g);
    } else {
        lemma_hexadecimal_group(g[0]);
        lemma_groups_written(g.drop_first());
        assert(p.drop_first() =~= group_texts(g.drop_first()));
        assert(seq![g[0]] + g.drop_first() =~= g);
    }
}

/// Groups between colons neither begin nor end with a colon, and hold no two
/// of them in a row.
proof fn lemma_single_colons(g: Seq<u16>)
    requires
        g.len() > 0,
    ensures
        ({
            let s = join(group_texts(g), seq![':']);
            &&& s.len() > 0
            &&& s[0] != ':'
            &&& s.last() != ':'
            &&& forall|k: int| 0 <= k < s.len() - 1 ==> !(#[trigger] s[k] == ':' && s[k + 1] == ':')
        }),
    decreases g.len(),
{
    let p = group_texts(g);
    let s = join(p, seq![':']);
    let d = g.drop_last();
    let t = hexadecimal(g.last() as nat);
    lemma_hexadecimal_group(g.last());
    assert forall|k: int| 0 <= k < t.len() implies #[trigger] t[k] != ':' by {
        assert(hex_digit(t[k]) is Some);
    }
    assert(p.last() == t);
    assert(p.drop_last() =~= group_texts(d));
    if g.len() == 1 {
        assert(s =~= t);
    } else {
        lemma_single_colons(d);
        let f = join(group_texts(d), seq![':']);
        assert(s =~= f + seq![':'] + t);
        assert(s[0] == f[0]);
        assert(s.last() == t.last());
        assert forall|k: int| 0 <= k < s.len() - 1 implies !(#[trigger] s[k] == ':' && s[k + 1]
            == ':') by {
            if k < f.len() - 1 {
                assert(s[k] == f[k] && s[k + 1] == f[k + 1]);
            } else if k == f.len() - 1 {
                assert(s[k] == f.last());
            } else if k == f.len() {
                assert(s[k + 1] == t[0]);
            } else {
                assert(s[k] == t[k - f.len() - 1]);
            }
        }
    }
}

/// Groups between colons, with `::` behind them, are the address that begins
/// with those groups and goes on with zeros.
pub proof fn lemma_written_v6(g: Seq<u16>)
    requires
        g.len() <= 7,
    ensures
        ip(join(group_texts(g), seq![':']) + seq![':', ':']) == Some(
            IpView::V6(g + Seq::new((8 - g.len()) as nat, |k: int| 0u16)),
        ),
{
    let p = group_texts(g);
    let head = join(p, seq![':']);
    let s = head + seq![':', ':'];
    let n = head.len() as int;
    assert(s[n] == ':' && s[n + 1] == ':');
    if v4_octets(s) is Some {
        lemma_v4_chars(s);
        assert(is_digit(s[n]) || s[n] == '.');
    }
    if g.len() > 0 {
        lemma_single_colons(g);
        assert forall|k: int| 0 <= k < n implies !(#[trigger] s[k] == ':' && s[k + 1] == ':') by {
            assert(s[k] == head[k]);
            if k < n - 1 {
                assert(s[k + 1] == head[k + 1]);
            }
        }
        assert forall|k: int| 0 <= k < p.len() implies !contains_char(#[trigger] p[k], ':') by {
            lemma_hexadecimal_group(g[k]);
            if contains_char(p[k], ':') {
                let j = choose|j: int| 0 <= j < p[k].len() && p[k][j] == ':';
                assert(hex_digit(p[k][j]) is Some);
            }
        }
        lemma_split_join(p, ':');
        lemma_groups_written(g);
    } else {
        assert(head =~= Seq::<char>::empty());
        assert(g =~= Seq::<u16>::empty());
    }
    lemma_double_colon_is(s, n);
    assert(s.take(n) =~= head);
    assert(s.skip(n + 2) =~= Seq::<char>::empty());
    assert(g + Seq::new((8 - g.len()) as nat, |k: int| 0u16) =~= g + Seq::new(
        (8 - g.len()) as nat,
        |k: int| 0u16,
    ) + Seq::<u16>::empty());
}

/// The groups that texts spell one by one.
pub open spec fn spelled(p: Seq<Seq<char>>) -> Seq<u16> {
    Seq::new(p.len(), |i: int| group(p[i])->0)
}

/// True when pieces between colons spell groups: each is a group, but that
/// with `embed` the last may be an IPv4 address, which stands for two.
pub open spec fn spells(p: Seq<Seq<char>>, g: Seq<u16>, embed: bool) -> bool {
    ||| (forall|i: int| 0 <= i < p.len() ==> group(#[trigger] p[i]) is Some) && g == spelled(p)
    ||| embed && p.len() > 0 && (forall|i: int|
        0 <= i < p.len() - 1 ==> group(#[trigger] p[i]) is Some) && (ip(p.last()) matches Some(
        IpView::V4(o),
    ) && g == spelled(p.drop_last()) + seq![
        (o[0] * 256 + o[1]) as u16,
        (o[2] * 256 + o[3]) as u16,
    ])
}

proof fn lemma_group_text(t: Seq<char>)
    requires
        group(t) is Some || v4_octets(t) is Some,
    ensures
        t.len() > 0,
        !contains_char(t, ':'),
        group(t) is None || v4_octets(t) is None,
{
    if v4_octets(t) is Some {
        lemma_v4_chars(t);
        assert forall|k: int| 0 <= k < t.len() implies #[trigger] t[k] != ':' by {
            assert(is_digit(t[k]) || t[k] == '.');
        }
        lemma_first_of(t, Class::One('.'));
    }
    if group(t) is Some {
        assert forall|k: int| 0 <= k < t.len() implies #[trigger] t[k] != ':' && t[k] != '.' by {
            assert(hex_digit(t[k]) is Some);
        }
        lemma_first_of(t, Class::One('.'));
        assert(split(t, Class::One('.')).len() == 1);
    }
}

proof fn lemma_groups_spell(p: Seq<Seq<char>>, g: Seq<u16>, embed: bool)
    ensures
        groups(p, embed) == Some(g) <==> spells(p, g, embed),
    decreases p.len(),
{
    if p.len() == 0 {
        assert(spelled(p) =~= Seq::<u16>::empty());
    } else {
        let d = p.drop_first();
        if group(p[0]) is Some || v4_octets(p[0]) is Some {
            lemma_group_text(p[0]);
        }
        if p.len() == 1 {
            assert(p.drop_last() =~= Seq::<Seq<char>>::empty());
            assert(spelled(p.drop_last()) =~= Seq::<u16>::empty());
            assert(d =~= Seq::<Seq<char>>::empty());
            lemma_groups_spell(d, Seq::empty(), embed);
            assert(spelled(d) =~= Seq::<u16>::empty());
            if v4_octets(p[0]) is Some {
                let o = v4_octets(p[0])->0;
                assert(Seq::<u16>::empty() + embedded(o) =~= embedded(o));
                assert(groups(p, embed) == Some(g) ==> embed && g == embedded(o));
            } else if group(p[0]) is Some {
                assert(spelled(p) =~= seq![group(p[0])->0]);
                assert(seq![group(p[0])->0] + Seq::<u16>::empty() =~= spelled(p));
            }
        } else {
            let tail = g.drop_first();
            lemma_groups_spell(d, tail, embed);
            assert(d.last() == p.last());
            if group(p[0]) is Some {
                let first = group(p[0])->0;
                assert(seq![first] + spelled(d) =~= spelled(p));
                assert(p.drop_last().drop_first() =~= d.drop_last());
                assert(spelled(p.drop_last()) =~= seq![first] + spelled(d.drop_last()));
                if groups(p, embed) == Some(g) {
                    let rest = groups(d, embed)->0;
                    assert((seq![first] + rest).drop_first() =~= rest);
                    assert(spells(d, tail, embed));
                    assert(g =~= seq![first] + tail);
                    lemma_spells_on(p, g, embed);
                }
                if spells(p, g, embed) {
                    lemma_spells_rest(p, g, embed);
                    assert(g =~= seq![first] + tail);
                }
            } else {
                assert(!spells(p, g, embed)) by {
                    assert(group(p[0]) is None);
                }
            }
        }
    }
}

proof fn lemma_spells_on(p: Seq<Seq<char>>, g: Seq<u16>, embed: bool)
    requires
        p.len() > 1,
        group(p[0]) is Some,
        g.len() > 0,
        g[0] == group(p[0])->0,
        spells(p.drop_first(), g.drop_first(), embed),
    ensures
        spells(p, g, embed),
{
    let d = p.drop_first();
    let first = group(p[0])->0;
    assert(g =~= seq![first] + g.drop_first());
    assert(d.last() == p.last());
    if forall|i: int| 0 <= i < d.len() ==> group(#[trigger] d[i]) is Some {
        assert forall|i: int| 0 <= i < p.len() implies group(#[trigger] p[i]) is Some by {
            if i > 0 {
                assert(p[i] == d[i - 1]);
            }
        }
        assert(seq![first] + spelled(d) =~= spelled(p));
    }
    if forall|i: int| 0 <= i < d.len() - 1 ==> group(#[trigger] d[i]) is Some {
        assert forall|i: int| 0 <= i < p.len() - 1 implies group(#[trigger] p[i]) is Some by {
            if i > 0 {
                assert(p[i] == d[i - 1]);
            }
        }
        assert(spelled(p.drop_last()) =~= seq![first] + spelled(d.drop_last()));
        if let Some(IpView::V4(o)) = ip(p.last()) {
            let e = embedded(o);
            assert(seq![first] + (spelled(d.drop_last()) + e) =~= seq![first] + spelled(
                d.drop_last(),
            ) + e);
        }
    }
}

proof fn lemma_spells_rest(p: Seq<Seq<char>>, g: Seq<u16>, embed: bool)
    requires
        p.len() > 1,
        spells(p, g, embed),
    ensures
        group(p[0]) is Some,
        g.len() > 0,
        g[0] == group(p[0])->0,
        spells(p.drop_first(), g.drop_first(), embed),
{
    let d = p.drop_first();
    let first = group(p[0])->0;
    assert(d.last() == p.last());
    assert(group(p[0]) is Some);
    if forall|i: int| 0 <= i < p.len() ==> group(#[trigger] p[i]) is Some {
        assert forall|i: int| 0 <= i < d.len() implies group(#[trigger] d[i]) is Some by {
            assert(d[i] == p[i + 1]);
        }
        if g == spelled(p) {
            assert(g.drop_first() =~= spelled(d));
        }
    }
    if forall|i: int| 0 <= i < p.len() - 1 ==> group(#[trigger] p[i]) is Some {
        assert forall|i: int| 0 <= i < d.len() - 1 implies group(#[trigger] d[i]) is Some by {
            assert(d[i] == p[i + 1]);
        }
        assert(spelled(p.drop_last()) =~= seq![first] + spelled(d.drop_last()));
        if let Some(IpView::V4(o)) = ip(p.last()) {
            let e = embedded(o);
            if g == spelled(p.drop_last()) + e {
                assert(g.drop_first() =~= spelled(d.drop_last()) + e);
            }
        }
    }
}

proof fn lemma_spelling_pieces(p: Seq<Seq<char>>, g: Seq<u16>, embed: bool)
    requires
        spells(p, g, embed),
    ensures
        forall|i: int| 0 <= i < p.len() ==> (#[trigger] p[i]).len() > 0,
        forall|i: int| 0 <= i < p.len() ==> !contains_char(#[trigger] p[i], ':'),
{
    assert forall|i: int| 0 <= i < p.len() implies (#[trigger] p[i]).len() > 0 && !contains_char(
        p[i],
        ':',
    ) by {
        if i < p.len() - 1 {
            assert(group(p[i]) is Some);
        } else {
            assert(p[i] == p.last());
            if group(p[i]) is None {
                assert(v4_octets(p[i]) is Some);
            }
        }
        lemma_group_text(p[i]);
    }
}

/// Pieces between colons neither begin nor end with a colon, and hold no two
/// of them in a row.
proof fn lemma_colons_between(p: Seq<Seq<char>>)
    requires
        p.len() > 0,
        forall|i: int| 0 <= i < p.len() ==> (#[trigger] p[i]).len() > 0,
        forall|i: int| 0 <= i < p.len() ==> !contains_char(#[trigger] p[i], ':'),
    ensures
        ({
            let s = join(p, seq![':']);
            &&& s.len() > 0
            &&& s[0] != ':'
            &&& s.last() != ':'
            &&& forall|k: int| 0 <= k < s.len() - 1 ==> !(#[trigger] s[k] == ':' && s[k + 1] == ':')
        }),
    decreases p.len(),
{
    let s = join(p, seq![':']);
    let d = p.drop_last();
    let t = p[p.len() - 1];
    assert(t.len() > 0 && !contains_char(t, ':'));
    if p.len() == 1 {
        assert(s =~= t);
    } else {
        assert forall|i: int| 0 <= i < d.len() implies (#[trigger] d[i]).len() > 0
            && !contains_char(d[i], ':') by {
            assert(d[i] == p[i]);
        }
        lemma_colons_between(d);
        let f = join(d, seq![':']);
        assert(s =~= f + seq![':'] + t);
        assert(s[0] == f[0]);
        assert(s.last() == t.last());
        assert forall|k: int| 0 <= k < s.len() - 1 implies !(#[trigger] s[k] == ':' && s[k + 1]
            == ':') by {
            if k < f.len() - 1 {
                assert(s[k] == f[k] && s[k + 1] == f[k + 1]);
            } else if k == f.len() - 1 {
                assert(s[k] == f.last());
            } else if k == f.len() {
                assert(s[k + 1] == t[0]);
            } else {
                assert(s[k] == t[k - f.len() - 1]);
            }
        }
    }
}

proof fn lemma_group_list(p: Seq<Seq<char>>, g: Seq<u16>, embed: bool)
    requires
        spells(p, g, embed),
    ensures
        group_list(join(p, seq![':']), embed) == Some(g),
{
    if p.len() == 0 {
        assert(g =~= Seq::<u16>::empty());
    } else {
        lemma_spelling_pieces(p, g, embed);
        lemma_colons_between(p);
        lemma_split_join(p, ':');
        lemma_groups_spell(p, g, embed);
    }
}

proof fn lemma_group_list_spells(s: Seq<char>, embed: bool) -> (p: Seq<Seq<char>>)
    requires
        group_list(s, embed) is Some,
    ensures
        spells(p, group_list(s, embed)->0, embed),
        s == join(p, seq![':']),
{
    if s.len() == 0 {
        let p = Seq::<Seq<char>>::empty();
        assert(spelled(p) =~= Seq::<u16>::empty());
        assert(s =~= join(p, seq![':']));
        p
    } else {
        let p = split(s, Class::One(':'));
        lemma_join_split(s, ':');
        lemma_groups_spell(p, group_list(s, embed)->0, embed);
        p
    }
}

/// Pieces between colons, with `::` once between two of them, before all or
/// behind all, are the address in which zeros stand for the `::`.
pub proof fn law_gap_stands_for_zeros(
    head: Seq<Seq<char>>,
    x: Seq<u16>,
    tail: Seq<Seq<char>>,
    y: Seq<u16>,
)
    requires
        spells(head, x, false),
        spells(tail, y, true),
        x.len() + y.len() <= 7,
    ensures
        ip(join(head, seq![':']) + seq![':', ':'] + join(tail, seq![':'])) == Some(
            IpView::V6(x + Seq::new((8 - x.len() - y.len()) as nat, |k: int| 0u16) + y),
        ),
{
    let a = join(head, seq![':']);
    let b = join(tail, seq![':']);
    let s = a + seq![':', ':'] + b;
    let n = a.len() as int;
    assert(s[n] == ':' && s[n + 1] == ':');
    if v4_octets(s) is Some {
        lemma_v4_chars(s);
        assert(is_digit(s[n]) || s[n] == '.');
    }
    if head.len() > 0 {
        lemma_spelling_pieces(head, x, false);
        lemma_colons_between(head);
        assert forall|k: int| 0 <= k < n implies !(#[trigger] s[k] == ':' && s[k + 1] == ':') by {
            assert(s[k] == a[k]);
            if k < n - 1 {
                assert(s[k + 1] == a[k + 1]);
            }
        }
    } else {
        assert(a =~= Seq::<char>::empty());
    }
    lemma_double_colon_is(s, n);
    assert(s.take(n) =~= a);
    assert(s.skip(n + 2) =~= b);
    lemma_group_list(head, x, false);
    lemma_group_list(tail, y, true);
}

/// Pieces between colons that spell eight groups are the address of those
/// groups.
pub proof fn law_eight_groups_are_an_address(p: Seq<Seq<char>>, g: Seq<u16>)
    requires
        spells(p, g, true),
        g.len() == 8,
    ensures
        ip(join(p, seq![':'])) == Some(IpView::V6(g)),
{
    let s = join(p, seq![':']);
    let f = join(p.drop_last(), seq![':']);
    assert(p.len() >= 7);
    assert(s == f + seq![':'] + p.last());
    assert(s[f.len() as int] == ':');
    if v4_octets(s) is Some {
        lemma_v4_chars(s);
        assert(is_digit(s[f.len() as int]) || s[f.len() as int] == '.');
    }
    lemma_spelling_pieces(p, g, true);
    lemma_colons_between(p);
    lemma_double_colon(s);
    lemma_group_list(p, g, true);
}

/// The IPv6 addresses are these texts and no others: what is not spelled out
/// as eight groups has one `::`, with seven groups at most round it.
pub proof fn law_v6_is_groups(s: Seq<char>) -> (r: (Seq<Seq<char>>, Seq<u16>, Seq<Seq<char>>, Seq<
    u16,
>))
    requires
        ip(s) matches Some(IpView::V6(_)),
    ensures
        ({
            let g = ip(s)->0->V6_0;
            let (head, x, tail, y) = r;
            ||| spells(head, g, true) && g.len() == 8 && s == join(head, seq![':'])
            ||| spells(head, x, false) && spells(tail, y, true) && x.len() + y.len() <= 7 && s
                == join(head, seq![':']) + seq![':', ':'] + join(tail, seq![':']) && g == x
                + Seq::new((8 - x.len() - y.len()) as nat, |k: int| 0u16) + y
        }),
{
    let i = double_colon(s) as int;
    lemma_double_colon(s);
    if i >= s.len() {
        let p = lemma_group_list_spells(s, true);
        (p, group_list(s, true)->0, Seq::empty(), Seq::empty())
    } else {
        let a = s.take(i);
        let b = s.skip(i + 2);
        let head = lemma_group_list_spells(a, false);
        let tail = lemma_group_list_spells(b, true);
        assert(s =~= a + seq![':', ':'] + b);
        (head, group_list(a, false)->0, tail, group_list(b, true)->0)
    }
}

/// True for a character that an address can hold.
pub open spec fn is_address_char(c: char) -> bool {
    hex_digit(c) is Some || c == '.' || c == ':'
}

/// True for a text of such characters only.
pub open spec fn address_chars(s: Seq<char>) -> bool {
    forall|k: int| 0 <= k < s.len() ==> is_address_char(#[trigger] s[k])
}

proof fn lemma_double_colon(s: Seq<char>)
    ensures
        double_colon(s) <= s.len(),
        double_colon(s) < s.len() ==> double_colon(s) + 1 < s.len() && s[double_colon(s) as int]
            == ':' && s[double_colon(s) as int + 1] == ':',
    decreases s.len(),
{
    if s.len() >= 2 && !(s[0] == ':' && s[1] == ':') {
        lemma_double_colon(s.drop_first());
    }
}

/// Every character of a text is a separator or stands in one of the pieces.
proof fn lemma_split_covers(s: Seq<char>, class: Class, k: int)
    requires
        0 <= k < s.len(),
    ensures
        class.has(s[k]) || exists|j: int|
            0 <= j < split(s, class).len() && contains_char(#[trigger] split(s, class)[j], s[k]),
    decreases s.len(),
{
    let i = first_of(s, class) as int;
    lemma_first_of(s, class);
    let p = split(s, class);
    if !class.has(s[k]) {
        if i >= s.len() {
            assert(p[0] == s);
            assert(contains_char(p[0], s[k]));
        } else if k < i {
            assert(p[0] == s.take(i));
            assert(p[0][k] == s[k]);
            assert(contains_char(p[0], s[k]));
        } else {
            let rest = s.skip(i + 1);
            assert(rest[k - i - 1] == s[k]);
            lemma_split_covers(rest, class, k - i - 1);
            let q = split(rest, class);
            let j = choose|j: int| 0 <= j < q.len() && contains_char(#[trigger] q[j], s[k]);
            assert(p[j + 1] == q[j]);
            assert(contains_char(p[j + 1], s[k]));
        }
    }
}

proof fn lemma_v4_chars(s: Seq<char>)
    requires
        v4_octets(s) is Some,
    ensures
        forall|k: int| 0 <= k < s.len() ==> is_digit(#[trigger] s[k]) || s[k] == '.',
{
    let p = split(s, Class::One('.'));
    assert forall|k: int| 0 <= k < s.len() implies is_digit(#[trigger] s[k]) || s[k] == '.' by {
        lemma_split_covers(s, Class::One('.'), k);
        if s[k] != '.' {
            let j = choose|j: int| 0 <= j < p.len() && contains_char(#[trigger] p[j], s[k]);
            assert(octet(p[j]) is Some);
            let m = choose|m: int| 0 <= m < p[j].len() && p[j][m] == s[k];
            assert(is_digit(p[j][m]));
        }
    }
}

proof fn lemma_groups_chars(p: Seq<Seq<char>>, embed: bool, j: int)
    requires
        groups(p, embed) is Some,
        0 <= j < p.len(),
    ensures
        address_chars(p[j]),
    decreases p.len(),
{
    if p.len() == 1 && embed && v4_octets(p[0]) is Some {
        lemma_v4_chars(p[0]);
    } else if j == 0 {
        assert(group(p[0]) is Some);
        assert forall|k: int| 0 <= k < p[0].len() implies is_address_char(#[trigger] p[0][k]) by {
            assert(hex_digit(p[0][k]) is Some);
        }
    } else {
        lemma_groups_chars(p.drop_first(), embed, j - 1);
        assert(p.drop_first()[j - 1] == p[j]);
    }
}

proof fn lemma_group_list_chars(s: Seq<char>, embed: bool)
    requires
        group_list(s, embed) is Some,
    ensures
        address_chars(s),
{
    let p = split(s, Class::One(':'));
    assert forall|k: int| 0 <= k < s.len() implies is_address_char(#[trigger] s[k]) by {
        lemma_split_covers(s, Class::One(':'), k);
        if s[k] != ':' {
            let j = choose|j: int| 0 <= j < p.len() && contains_char(#[trigger] p[j], s[k]);
            lemma_groups_chars(p, embed, j);
            let m = choose|m: int| 0 <= m < p[j].len() && p[j][m] == s[k];
            assert(is_address_char(p[j][m]));
        }
    }
}

/// An address is not empty, and made of hexadecimal digits, dots and colons.
pub proof fn lemma_address_chars(s: Seq<char>)
    requires
        ip(s) is Some,
    ensures
        s.len() > 0,
        address_chars(s),
{
    if s.len() == 0 {
        assert(split(s, Class::One('.')).len() == 1);
        assert(group_list(s, true)->0.len() == 0);
    }
    if v4_octets(s) is Some {
        lemma_v4_chars(s);
    } else {
        let i = double_colon(s) as int;
        lemma_double_colon(s);
        if i >= s.len() {
            lemma_group_list_chars(s, true);
        } else {
            let head = s.take(i);
            let tail = s.skip(i + 2);
            lemma_group_list_chars(head, false);
            lemma_group_list_chars(tail, true);
            assert forall|k: int| 0 <= k < s.len() implies is_address_char(#[trigger] s[k]) by {
                if k < i {
                    assert(head[k] == s[k]);
                } else if k >= i + 2 {
                    assert(tail[k - i - 2] == s[k]);
                }
            }
        }
    }
}

// ---------------------------------------------------------------------------
// Laws
// ---------------------------------------------------------------------------

/// Digits without a zero in front are the decimal spelling of their number.
proof fn lemma_digits_text(t: Seq<char>)
    requires
        t.len() > 0,
        all_digits(t),
        t.len() > 1 ==> t[0] != '0',
    ensures
        decimal(digits_value(t)) == t,
    decreases t.len(),
{
    reveal_with_fuel(digits_value, 2);
    let d = t.drop_last();
    assert(is_digit(t[t.len() - 1]));
    if t.len() == 1 {
        assert(d =~= Seq::<char>::empty());
        assert(decimal(digits_value(t)) =~= t);
    } else {
        assert forall|i: int| 0 <= i < d.len() implies is_digit(#[trigger] d[i]) by {
            assert(d[i] == t[i]);
        }
        lemma_digits_text(d);
        assert(d[0] == t[0]);
        lemma_decimal(digits_value(d));
        assert(digits_value(d) > 0);
        assert(digits_value(t) / 10 == digits_value(d));
        assert(decimal(digits_value(t)) =~= t);
    }
}

/// Four octets as they are written.
pub open spec fn dotted(o: Seq<u8>) -> Seq<char> {
    decimal(o[0] as nat) + seq!['.'] + decimal(o[1] as nat) + seq!['.'] + decimal(o[2] as nat)
        + seq!['.'] + decimal(o[3] as nat)
}

/// The IPv4 addresses are the texts of four decimal numbers below 256 with
/// dots between them, and no others.
pub proof fn law_v4_is_four_numbers(s: Seq<char>, o: Seq<u8>)
    ensures
        ip(s) == Some(IpView::V4(o)) <==> o.len() == 4 && s == dotted(o),
{
    if o.len() == 4 && s == dotted(o) {
        lemma_written_v4(o[0], o[1], o[2], o[3]);
        assert(seq![o[0], o[1], o[2], o[3]] =~= o);
    }
    if ip(s) == Some(IpView::V4(o)) {
        let p = split(s, Class::One('.'));
        lemma_join_split(s, '.');
        assert forall|i: int| 0 <= i < 4 implies #[trigger] p[i] == decimal(o[i] as nat) by {
            assert(octet(p[i]) == Some(o[i]));
            lemma_digits_text(p[i]);
        }
        reveal_with_fuel(join, 5);
        let q = p.drop_last();
        assert(q.last() == p[2] && q.drop_last().last() == p[1]);
        assert(q.drop_last().drop_last() =~= seq![p[0]]);
        assert(s =~= dotted(o));
    }
}

/// The family of an address shows in its colons; it has four octets or
/// eight groups, and no slash.
pub proof fn law_colons_show_the_family(s: Seq<char>)
    requires
        ip(s) is Some,
    ensures
        s.len() > 0,
        !contains_char(s, '/'),
        match ip(s)->0 {
            IpView::V4(o) => o.len() == 4 && !contains_char(s, ':'),
            IpView::V6(g) => g.len() == 8 && contains_char(s, ':'),
        },
{
    lemma_address_chars(s);
    assert forall|k: int| 0 <= k < s.len() implies #[trigger] s[k] != '/' by {
        assert(is_address_char(s[k]));
    }
    if v4_octets(s) is Some {
        lemma_v4_chars(s);
        assert forall|k: int| 0 <= k < s.len() implies #[trigger] s[k] != ':' by {
            assert(is_digit(s[k]) || s[k] == '.');
        }
    } else {
        lemma_double_colon(s);
        if double_colon(s) >= s.len() && !contains_char(s, ':') {
            lemma_first_of(s, Class::One(':'));
            let p = split(s, Class::One(':'));
            assert(p =~= seq![s]);
            reveal_with_fuel(groups, 2);
            assert(p.drop_first() =~= Seq::<Seq<char>>::empty());
        }
    }
}

/// A group may be written with zeros in front, up to four digits, and in
/// either case of letter.
pub proof fn law_spelling_of_a_group(a: Seq<char>, b: Seq<char>)
    ensures
        0 < a.len() < 4 ==> group(seq!['0'] + a) == group(a),
        eq_ignore_case(a, b) ==> group(a) == group(b),
        group(a) is Some ==> 1 <= a.len() <= 4,
{
    let z = seq!['0'] + a;
    if 0 < a.len() < 4 {
        lemma_hex_zero(a);
        if all_hex(a) {
            assert forall|i: int| 0 <= i < z.len() implies hex_digit(#[trigger] z[i]) is Some by {
                if i > 0 {
                    assert(z[i] == a[i - 1]);
                }
            }
        }
        if all_hex(z) {
            assert forall|i: int| 0 <= i < a.len() implies hex_digit(#[trigger] a[i]) is Some by {
                assert(a[i] == z[i + 1]);
            }
        }
    }
    if eq_ignore_case(a, b) {
        lemma_hex_case(a, b);
    }
}

proof fn lemma_hex_zero(a: Seq<char>)
    ensures
        hex_value(seq!['0'] + a) == hex_value(a),
    decreases a.len(),
{
    let z = seq!['0'] + a;
    if a.len() == 0 {
        reveal_with_fuel(hex_value, 2);
        assert(z.drop_last() =~= Seq::<char>::empty());
        assert(z.last() == '0');
    } else {
        lemma_hex_zero(a.drop_last());
        assert(z.drop_last() =~= seq!['0'] + a.drop_last());
        assert(z.last() == a.last());
    }
}

proof fn lemma_hex_case(a: Seq<char>, b: Seq<char>)
    requires
        eq_ignore_case(a, b),
    ensures
        all_hex(a) == all_hex(b),
        hex_value(a) == hex_value(b),
    decreases a.len(),
{
    assert forall|i: int| 0 <= i < a.len() implies hex_digit(#[trigger] a[i]) == hex_digit(
        b[i],
    ) by {
        assert(ascii_fold(a[i]) == ascii_fold(b[i]));
    }
    assert(forall|i: int| 0 <= i < b.len() ==> hex_digit(#[trigger] b[i]) == hex_digit(a[i]));
    if a.len() > 0 {
        let c = a.drop_last();
        let d = b.drop_last();
        assert forall|i: int| 0 <= i < c.len() implies ascii_fold(#[trigger] c[i]) == ascii_fold(
            d[i],
        ) by {
            assert(ascii_fold(a[i]) == ascii_fold(b[i]));
        }
        lemma_hex_case(c, d);
        assert(hex_digit(a[a.len() - 1]) == hex_digit(b[b.len() - 1]));
    }
}

/// An address with a slash and a number behind it is a network if and only
/// if its family has prefixes of that length.
pub proof fn law_prefix_fits_the_family(a: Seq<char>, n: nat)
    ensures
        ip(a) is Some ==> (is_ip_or_network(a + seq!['/'] + decimal(n)) <==> n <= (if ip(
            a,
        )->0 is V4 {
            32
        } else {
            128nat
        })),
        ip(a) is None && !contains_char(a, '/') ==> !is_ip_or_network(a) && !is_ip_or_network(
            a + seq!['/'] + decimal(n),
        ),
{
    let d = decimal(n);
    let s = a + seq!['/'] + d;
    let i = a.len() as int;
    lemma_decimal(n);
    assert(is_digit(d[0]));
    if ip(a) is Some {
        law_colons_show_the_family(a);
    }
    lemma_first_of(a, Class::One('/'));
    if !contains_char(a, '/') {
        assert(s[i] == '/');
        assert forall|k: int| 0 <= k < i implies !Class::One('/').has(#[trigger] s[k]) by {
            assert(s[k] == a[k]);
        }
        lemma_first_of_is(s, Class::One('/'), i);
        assert(s.take(i) =~= a);
        assert(s.skip(i + 1) =~= d);
        if ip(s) is Some {
            law_colons_show_the_family(s);
            assert(contains_char(s, '/'));
        }
    }
}

/// What is taken for an address or a network is an address, alone or with a
/// slash and the length of a prefix that its family has.
pub proof fn law_network_is_address_and_prefix(s: Seq<char>) -> (r: (Seq<char>, Seq<char>))
    requires
        is_ip_or_network(s),
        ip(s) is None,
    ensures
        s == r.0 + seq!['/'] + r.1,
        ip(r.0) is Some,
        number(r.1, 255) is Some,
        number(r.1, 255)->0 <= (if ip(r.0)->0 is V4 {
            32
        } else {
            128nat
        }),
{
    lemma_first_of(s, Class::One('/'));
    let r = split_once(s, '/')->0;
    assert(s =~= r.0 + seq!['/'] + r.1);
    r
}

} // verus!
