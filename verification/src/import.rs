//! Importing a ready-made `AllowedIPs` from a base config.
//!
//! A config that the owner already has carries a list of addresses that are
//! known to work. The import turns it back into something a person can look
//! at: each address is named by a reverse lookup, and failing that by the
//! network it sits in, and the addresses of one name become one host. An
//! address that gets neither stays as itself; none is dropped.
//!
//! A default route is not a site: a config with nothing else is a full
//! tunnel, and is named as one. A lookup that fails costs a name, never an
//! address.

use vstd::prelude::*;

use crate::address::{
    all_hex, dotted, group_texts, hex_digit, ip, is_address, is_ip_or_network,
    law_colons_show_the_family, law_gap_stands_for_zeros, law_v4_is_four_numbers,
    lemma_decimal_octet, lemma_hexadecimal_group, lemma_written_v4, lemma_written_v6, parse_ip,
    spelled, width, Ip, IpView,
};
use crate::hosts::{
    address_added, all_entries, distinct_targets, entry, fed_host, has_target, host_index,
    host_views, is_entry_of, law_given_addresses_are_kept, law_value_is_every_address_once,
    lemma_has_target, lemma_host_index, Host, HostStore, HostView, Source, StoreView,
};
use crate::list::{
    add_missing, lemma_add_missing, lemma_add_twice, lemma_without, unique, uniqued, with_text,
    without,
};
use crate::order::{lemma_sorted_unique, lemma_text_order, sorted, sorted_unique, text_less};
use crate::text::{
    all_digits, ascii_fold, before, contains_char, decimal, decimal_text, digit_char, digits_value,
    eq_ignore_case, hexadecimal, hexadecimal_text, is_digit, is_white_space, join, joined,
    law_number_from_digits, law_parted_at_the_first, law_trim_takes_one_character,
    law_trim_takes_white_space, lemma_decimal, lemma_first_of, lemma_first_of_is,
    lemma_pieces_after, lemma_pieces_at, lemma_pieces_lack, lemma_pieces_of_list,
    lemma_pieces_of_one, lemma_texts_push, lemma_trim, lowercase, lowered, nonblank_pieces, number,
    owned, parse_number, part_before, pieces, same, same_ignoring_case, split_once, splitted_once,
    text_option, text_result, texts, trim, trim_end, trim_start, trimmed, trimmed_end, Class,
};
use crate::wgconf::{conf, law_lines_are_independent, values, WgConfig};

verus! {

// ---------------------------------------------------------------------------
// Reverse lookups
// ---------------------------------------------------------------------------

/// A name, or the reason why there is none, as character sequences.
pub type NameView = Result<Seq<char>, Seq<char>>;

/// A reverse lookup used to name an address.
pub trait NameResolver {
    /// A name for an address, or `Err` when there is none.
    fn reverse(&self, addr: &str) -> (r: Result<String, String>);
}

/// True when a resolver may give this answer for an address.
pub open spec fn may_name<R: NameResolver>(names: R, addr: Seq<char>, answer: NameView) -> bool {
    exists|t: &str, a: Result<String, String>|
        t@ == addr && text_result(a) == answer && #[trigger] call_ensures(
            R::reverse,
            (&names, t),
            a,
        )
}

/// The four digits of a group, last first, each with a dot behind it.
pub open spec fn nibbles(g: nat) -> Seq<char> {
    hexadecimal(g % 16) + "."@ + hexadecimal(g / 16 % 16) + "."@ + hexadecimal(g / 256 % 16) + "."@
        + hexadecimal(g / 4096) + "."@
}

/// The digits of the groups, last first, each with a dot behind it.
pub open spec fn reversed_nibbles(groups: Seq<u16>) -> Seq<char>
    decreases groups.len(),
{
    if groups.len() == 0 {
        Seq::empty()
    } else {
        nibbles(groups.last() as nat) + reversed_nibbles(groups.drop_last())
    }
}

/// The name under which the reverse name of an address is looked up.
pub open spec fn reverse_name(a: IpView) -> Seq<char> {
    match a {
        IpView::V4(o) => decimal(o[3] as nat) + "."@ + decimal(o[2] as nat) + "."@ + decimal(
            o[1] as nat,
        ) + "."@ + decimal(o[0] as nat) + ".in-addr.arpa"@,
        IpView::V6(g) => reversed_nibbles(g) + "ip6.arpa"@,
    }
}

/// What is looked up to name an address.
pub open spec fn reverse_query(addr: Seq<char>) -> NameView {
    match ip(addr) {
        Some(a) => Ok(reverse_name(a)),
        None => Err("not an address"@),
    }
}

/// What a finished lookup of a reverse name says.
pub open spec fn reverse_answer(query: Seq<char>, found: bool) -> NameView {
    if found {
        Ok(trim_end(query, Class::One('.')))
    } else {
        Err("no reverse name for "@ + query)
    }
}

fn append_nibbles(s: &mut String, g: u16)
    ensures
        final(s)@ == old(s)@ + nibbles(g as nat),
{
    let ghost start = s@;
    s.append(hexadecimal_text(g % 16).as_str());
    s.append(".");
    s.append(hexadecimal_text(g / 16 % 16).as_str());
    s.append(".");
    s.append(hexadecimal_text(g / 256 % 16).as_str());
    s.append(".");
    s.append(hexadecimal_text(g / 4096).as_str());
    s.append(".");
    assert(s@ =~= start + nibbles(g as nat));
}

/// The reverse lookup through the system resolver: the question that is put
/// to it, and what its reply means.
pub struct PtrResolver;

impl PtrResolver {
    /// What is looked up to name an address.
    pub fn query(&self, addr: &str) -> (r: Result<String, String>)
        ensures
            text_result(r) == reverse_query(addr@),
    {
        match parse_ip(addr) {
            None => Err(owned("not an address")),
            Some(Ip::V4(o)) => {
                let mut s: String = decimal_text(o[3] as u128);
                s.append(".");
                s.append(decimal_text(o[2] as u128).as_str());
                s.append(".");
                s.append(decimal_text(o[1] as u128).as_str());
                s.append(".");
                s.append(decimal_text(o[0] as u128).as_str());
                s.append(".in-addr.arpa");
                Ok(s)
            },
            Some(Ip::V6(g)) => {
                let mut s: String = owned("");
                let mut i: usize = 8;
                let ghost all = g@;
                proof {
                    reveal_strlit("");
                    assert(all.take(8) =~= all);
                    assert(s@ + reversed_nibbles(all) =~= reversed_nibbles(all));
                }
                while i > 0
                    invariant
                        i <= 8,
                        all == g@,
                        all.len() == 8,
                        s@ + reversed_nibbles(all.take(i as int)) == reversed_nibbles(all),
                    decreases i,
                {
                    let ghost done = s@;
                    i = i - 1;
                    append_nibbles(&mut s, g[i]);
                    proof {
                        let rest = all.take(i + 1);
                        assert(rest.drop_last() =~= all.take(i as int));
                        assert(rest.last() == g@[i as int]);
                        assert(s@ + reversed_nibbles(all.take(i as int)) =~= done
                            + reversed_nibbles(rest));
                    }
                }
                assert(s@ =~= reversed_nibbles(all)) by {
                    assert(all.take(0) =~= Seq::<u16>::empty());
                    assert(s@ + Seq::<char>::empty() =~= s@);
                }
                s.append("ip6.arpa");
                Ok(s)
            },
        }
    }

    /// What it means that the lookup of a reverse name found something, or
    /// did not.
    pub fn answer(&self, query: &str, found: bool) -> (r: Result<String, String>)
        ensures
            text_result(r) == reverse_answer(query@, found),
    {
        if found {
            Ok(trimmed_end(query, Class::One('.')))
        } else {
            let mut e: String = owned("no reverse name for ");
            e.append(query);
            Err(e)
        }
    }
}

/// Reverse names from a fixed table.
pub struct FakeNames {
    table: Vec<(String, String)>,
}

impl View for FakeNames {
    type V = Seq<(Seq<char>, Seq<char>)>;

    closed spec fn view(&self) -> Seq<(Seq<char>, Seq<char>)> {
        Seq::new(self.table@.len(), |i: int| (self.table@[i].0@, self.table@[i].1@))
    }
}

/// The first name that a table holds for an address.
pub open spec fn table_name(table: Seq<(Seq<char>, Seq<char>)>, addr: Seq<char>) -> NameView
    decreases table.len(),
{
    if table.len() == 0 {
        Err("no name for "@ + addr)
    } else if table[0].0 == addr {
        Ok(table[0].1)
    } else {
        table_name(table.drop_first(), addr)
    }
}

impl FakeNames {
    /// Pairs of address and name. An address not in the table has no name.
    pub fn new(table: &[(&str, &str)]) -> (r: Self)
        ensures
            r@ == Seq::new(table@.len(), |i: int| (table@[i].0@, table@[i].1@)),
    {
        let mut rows: Vec<(String, String)> = Vec::new();
        let mut i: usize = 0;
        while i < table.len()
            invariant
                i <= table@.len(),
                rows@.len() == i,
                forall|k: int|
                    0 <= k < i ==> (#[trigger] rows@[k]).0@ == table@[k].0@ && rows@[k].1@
                        == table@[k].1@,
            decreases table@.len() - i,
        {
            let (addr, name) = table[i];
            rows.push((owned(addr), owned(name)));
            i = i + 1;
        }
        let r = FakeNames { table: rows };
        assert(r@ =~= Seq::new(table@.len(), |i: int| (table@[i].0@, table@[i].1@)));
        r
    }
}

impl NameResolver for FakeNames {
    fn reverse(&self, addr: &str) -> (r: Result<String, String>)
        ensures
            text_result(r) == table_name(self@, addr@),
    {
        let mut i: usize = 0;
        assert(self@.skip(0) =~= self@);
        while i < self.table.len()
            invariant
                i <= self.table@.len() == self@.len(),
                table_name(self@, addr@) == table_name(self@.skip(i as int), addr@),
            decreases self.table@.len() - i,
        {
            assert(self@.skip(i as int)[0] == (
                self.table@[i as int].0@,
                self.table@[i as int].1@,
            ));
            if same(self.table[i].0.as_str(), addr) {
                return Ok(self.table[i].1.clone());
            }
            assert(self@.skip(i as int).drop_first() =~= self@.skip(i + 1));
            i = i + 1;
        }
        let mut e: String = owned("no name for ");
        e.append(addr);
        Err(e)
    }
}

// ---------------------------------------------------------------------------
// Entries and labels
// ---------------------------------------------------------------------------

/// The entries of an `AllowedIPs` value: what stands between commas,
/// semicolons and white space.
pub open spec fn listed_entries(value: Seq<char>) -> Seq<Seq<char>> {
    pieces(value, Class::EntrySeparator)
}

/// Split an `AllowedIPs` value into individual entries.
pub fn split_entries(value: &str) -> (r: Vec<String>)
    ensures
        texts(r@) == listed_entries(value@),
{
    nonblank_pieces(value, Class::EntrySeparator)
}

/// True for the unspecified address of either family.
pub open spec fn is_unspecified(a: Seq<char>) -> bool {
    a == "0.0.0.0"@ || eq_ignore_case(a, "::"@)
}

/// True for the default route of either family, with or without its prefix
/// length.
pub open spec fn default_route(entry: Seq<char>) -> bool {
    match split_once(entry, '/') {
        Some((a, len)) => is_unspecified(a) && trim(len) == "0"@,
        None => is_unspecified(entry),
    }
}

/// True for the default route in either family, with or without a prefix
/// length: `0.0.0.0/0`, `0.0.0.0`, `::/0`, `::`.
pub fn is_default_route(entry: &str) -> (r: bool)
    ensures
        r == default_route(entry@),
{
    match splitted_once(entry, '/') {
        Some((a, len)) => (same(a.as_str(), "0.0.0.0") || same_ignoring_case(a.as_str(), "::"))
            && same(trimmed(len.as_str()).as_str(), "0"),
        None => same(entry, "0.0.0.0") || same_ignoring_case(entry, "::"),
    }
}

/// Groups without the zeros at their end.
pub open spec fn significant(g: Seq<u16>) -> Seq<u16>
    decreases g.len(),
{
    if g.len() > 0 && g.last() == 0 {
        significant(g.drop_last())
    } else {
        g
    }
}

/// The network an address sits in: 24 bits of it, or 48 of a long one. Zero
/// groups directly before the `::` are left to it.
pub open spec fn network(a: IpView) -> Seq<char> {
    match a {
        IpView::V4(o) => decimal(o[0] as nat) + "."@ + decimal(o[1] as nat) + "."@ + decimal(
            o[2] as nat,
        ) + ".0/24"@,
        IpView::V6(g) => join(group_texts(significant(g.take(3))), ":"@) + "::/48"@,
    }
}

/// The network of an address, whatever prefix is written behind it.
pub open spec fn subnet(addr: Seq<char>) -> Option<Seq<char>> {
    match ip(before(addr, '/')) {
        Some(a) => Some(network(a)),
        None => None,
    }
}

/// The network an address sits in, written the way a config would write it:
/// `31.13.64.0/24` for IPv4, `2001:db8::/48` for IPv6.
pub fn subnet_of(addr: &str) -> (r: Option<String>)
    ensures
        text_option(r) == subnet(addr@),
{
    match parse_ip(part_before(addr, '/').as_str()) {
        None => None,
        Some(Ip::V4(o)) => {
            let mut s: String = decimal_text(o[0] as u128);
            s.append(".");
            s.append(decimal_text(o[1] as u128).as_str());
            s.append(".");
            s.append(decimal_text(o[2] as u128).as_str());
            s.append(".0/24");
            Some(s)
        },
        Some(Ip::V6(g)) => {
            let mut n: usize = 3;
            while n > 0 && g[n - 1] == 0
                invariant
                    n <= 3,
                    significant(g@.take(3)) == significant(g@.take(n as int)),
                decreases n,
            {
                assert(g@.take(n as int).drop_last() =~= g@.take(n - 1));
                n = n - 1;
            }
            let mut parts: Vec<String> = Vec::new();
            let mut i: usize = 0;
            while i < n
                invariant
                    n <= 3,
                    i <= n,
                    parts@.len() == i,
                    forall|k: int|
                        0 <= k < i ==> (#[trigger] parts@[k])@ == hexadecimal(g@[k] as nat),
                decreases n - i,
            {
                parts.push(hexadecimal_text(g[i]));
                i = i + 1;
            }
            proof {
                if n > 0 {
                    assert(g@.take(n as int).last() == g@[n - 1]);
                }
                assert(significant(g@.take(n as int)) == g@.take(n as int));
                assert(texts(parts@) =~= group_texts(g@.take(n as int)));
            }
            let mut s: String = joined(parts.as_slice(), ":");
            s.append("::/48");
            Some(s)
        },
    }
}

/// True for an address with a prefix length below the width of its family.
pub open spec fn subnet_label(label: Seq<char>) -> bool {
    match split_once(label, '/') {
        Some((a, prefix)) => ip(a) is Some && number(prefix, 255) is Some && number(
            prefix,
            255,
        )->Some_0 < width(ip(a)->Some_0),
        None => false,
    }
}

/// True when `label` is the subnet fallback rather than a real name.
pub fn is_subnet_label(label: &str) -> (r: bool)
    ensures
        r == subnet_label(label@),
{
    match splitted_once(label, '/') {
        Some((a, prefix)) => match (parse_ip(a.as_str()), parse_number(prefix.as_str(), 255)) {
            (Some(Ip::V4(_)), Some(n)) => n < 32,
            (Some(Ip::V6(_)), Some(n)) => n < 128,
            _ => false,
        },
        None => false,
    }
}

/// A reverse name as the table shows it: trimmed, without the dot of the
/// root, in lower case.
pub open spec fn plain_name(name: Seq<char>) -> Seq<char> {
    lowercase(trim_end(trim(name), Class::One('.')))
}

fn normalize_name(name: &str) -> (r: String)
    ensures
        r@ == plain_name(name@),
{
    lowered(trimmed_end(trimmed(name).as_str(), Class::One('.')).as_str())
}

/// The name that an answer gives to an address. An answer that is the
/// address itself is no name.
pub open spec fn name_in(addr: Seq<char>, answer: NameView) -> Option<Seq<char>> {
    match answer {
        Ok(name) => if plain_name(name).len() > 0 && plain_name(name) != addr {
            Some(plain_name(name))
        } else {
            None
        },
        Err(_) => None,
    }
}

fn name_from(addr: &str, answer: &Result<String, String>) -> (r: Option<String>)
    ensures
        text_option(r) == name_in(addr@, text_result(*answer)),
{
    match answer {
        Ok(name) => {
            let n = normalize_name(name.as_str());
            if !n.as_str().is_empty() && !same(n.as_str(), addr) {
                Some(n)
            } else {
                None
            }
        },
        Err(_) => None,
    }
}

/// The name of the first address in a network that has one.
pub open spec fn network_name(
    addrs: Seq<Seq<char>>,
    answers: Seq<NameView>,
    net: Seq<char>,
) -> Option<Seq<char>>
    decreases addrs.len(),
{
    if addrs.len() == 0 {
        None
    } else if subnet(addrs[0]) == Some(net) && name_in(addrs[0], answers[0]) is Some {
        name_in(addrs[0], answers[0])
    } else {
        network_name(addrs.drop_first(), answers.drop_first(), net)
    }
}

/// What an address is filed under: its name; failing that the name of a
/// neighbour in its network, to which the network yields; failing that the
/// network; and the address itself as the last resort.
pub open spec fn label_for(addrs: Seq<Seq<char>>, answers: Seq<NameView>, i: int) -> Seq<char> {
    match name_in(addrs[i], answers[i]) {
        Some(name) => name,
        None => match subnet(addrs[i]) {
            Some(net) => match network_name(addrs, answers, net) {
                Some(name) => name,
                None => net,
            },
            None => addrs[i],
        },
    }
}

/// The labels of a list of addresses.
pub open spec fn labels(addrs: Seq<Seq<char>>, answers: Seq<NameView>) -> Seq<Seq<char>> {
    Seq::new(addrs.len(), |i: int| label_for(addrs, answers, i))
}

// ---------------------------------------------------------------------------
// Candidate hosts
// ---------------------------------------------------------------------------

/// What a config turned out to hold.
#[derive(Debug, Clone, PartialEq, Eq)]
pub enum Imported {
    /// The candidate hosts, by label.
    Hosts(Vec<Host>),
    /// Every entry is a default route, so there is no list of sites to take.
    FullTunnel,
    /// No `AllowedIPs` line, or an empty value.
    Nothing,
}

/// An [`Imported`] as character sequences.
pub enum ImportedView {
    Hosts(Seq<HostView>),
    FullTunnel,
    Nothing,
}

impl View for Imported {
    type V = ImportedView;

    open spec fn view(&self) -> ImportedView {
        match self {
            Imported::Hosts(h) => ImportedView::Hosts(host_views(h@)),
            Imported::FullTunnel => ImportedView::FullTunnel,
            Imported::Nothing => ImportedView::Nothing,
        }
    }
}

/// The entries that are no default route.
pub open spec fn sites(entries: Seq<Seq<char>>) -> Seq<Seq<char>>
    decreases entries.len(),
{
    if entries.len() == 0 {
        Seq::empty()
    } else if default_route(entries.last()) {
        sites(entries.drop_last())
    } else {
        sites(entries.drop_last()).push(entries.last())
    }
}

/// The entries that a value lists and that are no default route.
pub open spec fn sites_of(value: Seq<char>) -> Seq<Seq<char>> {
    sites(listed_entries(value))
}

/// The addresses of entries, without their prefix lengths.
pub open spec fn bare_addresses(entries: Seq<Seq<char>>) -> Seq<Seq<char>> {
    Seq::new(entries.len(), |i: int| before(entries[i], '/'))
}

/// The entries that carry a label.
pub open spec fn labelled(
    entries: Seq<Seq<char>>,
    labels: Seq<Seq<char>>,
    label: Seq<char>,
) -> Seq<Seq<char>>
    decreases entries.len(),
{
    if entries.len() == 0 {
        Seq::empty()
    } else if labels.last() == label {
        labelled(entries.drop_last(), labels.drop_last(), label).push(entries.last())
    } else {
        labelled(entries.drop_last(), labels.drop_last(), label)
    }
}

/// The host that a label stands for, with the addresses filed under it and
/// no other: the label is a name, not a route.
pub open spec fn candidate(
    entries: Seq<Seq<char>>,
    labels: Seq<Seq<char>>,
    label: Seq<char>,
) -> HostView {
    HostView {
        target: label,
        groups: Seq::empty(),
        ips: unique(labelled(entries, labels, label)),
        source: Source::Template,
        error: None,
    }
}

/// The hosts of labelled entries, one per label, in the order of the labels.
pub open spec fn candidates(entries: Seq<Seq<char>>, labels: Seq<Seq<char>>) -> Seq<HostView> {
    let order = sorted_unique(labels);
    Seq::new(order.len(), |i: int| candidate(entries, labels, order[i]))
}

/// The hosts of a value, given the answer for each address of its sites.
pub open spec fn hosts_of(value: Seq<char>, answers: Seq<NameView>) -> Seq<HostView> {
    candidates(sites_of(value), labels(bare_addresses(sites_of(value)), answers))
}

/// What a value holds, given the answer for each address of its sites.
pub open spec fn imported(value: Seq<char>, answers: Seq<NameView>) -> ImportedView {
    if listed_entries(value).len() == 0 {
        ImportedView::Nothing
    } else if sites_of(value).len() == 0 {
        ImportedView::FullTunnel
    } else {
        ImportedView::Hosts(hosts_of(value, answers))
    }
}

/// A list of answers as character sequences.
pub open spec fn name_views(answers: Seq<Result<String, String>>) -> Seq<NameView> {
    Seq::new(answers.len(), |i: int| text_result(answers[i]))
}

fn site_entries(entries: &[String]) -> (r: Vec<String>)
    ensures
        texts(r@) == sites(texts(entries@)),
{
    let mut out: Vec<String> = Vec::new();
    let mut i: usize = 0;
    let ghost all = texts(entries@);
    assert(texts(out@) =~= Seq::<Seq<char>>::empty());
    while i < entries.len()
        invariant
            all == texts(entries@),
            i <= entries@.len(),
            texts(out@) == sites(all.take(i as int)),
        decreases entries@.len() - i,
    {
        proof {
            assert(all.take(i + 1).drop_last() =~= all.take(i as int));
            assert(all.take(i + 1).last() == entries@[i as int]@);
        }
        if !is_default_route(entries[i].as_str()) {
            let e = entries[i].clone();
            proof {
                lemma_texts_push(out@, e);
            }
            out.push(e);
        }
        i = i + 1;
    }
    assert(all.take(all.len() as int) =~= all);
    out
}

fn bare_list(entries: &[String]) -> (r: Vec<String>)
    ensures
        texts(r@) == bare_addresses(texts(entries@)),
{
    let mut out: Vec<String> = Vec::new();
    let mut i: usize = 0;
    while i < entries.len()
        invariant
            i <= entries@.len(),
            out@.len() == i,
            forall|k: int| 0 <= k < i ==> (#[trigger] out@[k])@ == before(entries@[k]@, '/'),
        decreases entries@.len() - i,
    {
        out.push(part_before(entries[i].as_str(), '/'));
        i = i + 1;
    }
    assert(texts(out@) =~= bare_addresses(texts(entries@)));
    out
}

fn find_network_name(
    addrs: &[String],
    answers: &[Result<String, String>],
    net: &str,
) -> (r: Option<String>)
    requires
        addrs@.len() == answers@.len(),
    ensures
        text_option(r) == network_name(texts(addrs@), name_views(answers@), net@),
{
    let mut i: usize = 0;
    let ghost a = texts(addrs@);
    let ghost n = name_views(answers@);
    assert(a.skip(0) =~= a);
    assert(n.skip(0) =~= n);
    while i < addrs.len()
        invariant
            a == texts(addrs@),
            n == name_views(answers@),
            i <= addrs@.len() == answers@.len(),
            network_name(a, n, net@) == network_name(a.skip(i as int), n.skip(i as int), net@),
        decreases addrs@.len() - i,
    {
        proof {
            assert(a.skip(i as int)[0] == addrs@[i as int]@);
            assert(n.skip(i as int)[0] == text_result(answers@[i as int]));
            assert(a.skip(i as int).drop_first() =~= a.skip(i + 1));
            assert(n.skip(i as int).drop_first() =~= n.skip(i + 1));
        }
        let here: bool = match subnet_of(addrs[i].as_str()) {
            Some(s) => same(s.as_str(), net),
            None => false,
        };
        if here {
            let name = name_from(addrs[i].as_str(), &answers[i]);
            if name.is_some() {
                return name;
            }
        }
        i = i + 1;
    }
    None
}

fn label_list(addrs: &[String], answers: &[Result<String, String>]) -> (r: Vec<String>)
    requires
        addrs@.len() == answers@.len(),
    ensures
        texts(r@) == labels(texts(addrs@), name_views(answers@)),
{
    let mut out: Vec<String> = Vec::new();
    let mut i: usize = 0;
    let ghost a = texts(addrs@);
    let ghost n = name_views(answers@);
    while i < addrs.len()
        invariant
            a == texts(addrs@),
            n == name_views(answers@),
            i <= addrs@.len() == answers@.len(),
            out@.len() == i,
            forall|k: int| 0 <= k < i ==> (#[trigger] out@[k])@ == label_for(a, n, k),
        decreases addrs@.len() - i,
    {
        let label = match name_from(addrs[i].as_str(), &answers[i]) {
            Some(name) => name,
            None => match subnet_of(addrs[i].as_str()) {
                Some(net) => match find_network_name(addrs, answers, net.as_str()) {
                    Some(name) => name,
                    None => net,
                },
                None => addrs[i].clone(),
            },
        };
        out.push(label);
        i = i + 1;
    }
    assert(texts(out@) =~= labels(a, n));
    out
}

fn labelled_entries(entries: &[String], labels: &[String], label: &str) -> (r: Vec<String>)
    requires
        entries@.len() == labels@.len(),
    ensures
        texts(r@) == labelled(texts(entries@), texts(labels@), label@),
{
    let mut out: Vec<String> = Vec::new();
    let mut i: usize = 0;
    let ghost e = texts(entries@);
    let ghost l = texts(labels@);
    assert(texts(out@) =~= Seq::<Seq<char>>::empty());
    while i < entries.len()
        invariant
            e == texts(entries@),
            l == texts(labels@),
            i <= entries@.len() == labels@.len(),
            texts(out@) == labelled(e.take(i as int), l.take(i as int), label@),
        decreases entries@.len() - i,
    {
        proof {
            assert(e.take(i + 1).drop_last() =~= e.take(i as int));
            assert(e.take(i + 1).last() == entries@[i as int]@);
            assert(l.take(i + 1).drop_last() =~= l.take(i as int));
            assert(l.take(i + 1).last() == labels@[i as int]@);
        }
        if same(labels[i].as_str(), label) {
            let s = entries[i].clone();
            proof {
                lemma_texts_push(out@, s);
            }
            out.push(s);
        }
        i = i + 1;
    }
    assert(e.take(e.len() as int) =~= e);
    assert(l.take(l.len() as int) =~= l);
    out
}

/// Turn one `AllowedIPs` value into candidate hosts, given the answer of the
/// reverse lookup for each of its sites, in order.
pub fn hosts_from_answers(value: &str, answers: &[Result<String, String>]) -> (r: Imported)
    requires
        answers@.len() == sites_of(value@).len(),
    ensures
        r@ == imported(value@, name_views(answers@)),
{
    let all = split_entries(value);
    if all.len() == 0 {
        return Imported::Nothing;
    }
    let entries = site_entries(all.as_slice());
    if entries.len() == 0 {
        return Imported::FullTunnel;
    }
    let addrs = bare_list(entries.as_slice());
    let labels = label_list(addrs.as_slice(), answers);
    let order = sorted(labels.as_slice());
    let mut hosts: Vec<Host> = Vec::new();
    let mut i: usize = 0;
    let ghost e = texts(entries@);
    let ghost l = texts(labels@);
    let ghost o = texts(order@);
    while i < order.len()
        invariant
            e == texts(entries@),
            l == texts(labels@),
            o == texts(order@),
            entries@.len() == labels@.len(),
            i <= order@.len(),
            hosts@.len() == i,
            forall|k: int| 0 <= k < i ==> (#[trigger] hosts@[k])@ == candidate(e, l, o[k]),
        decreases order@.len() - i,
    {
        let listed = labelled_entries(
            entries.as_slice(),
            labels.as_slice(),
            order[i].as_str(),
        );
        let h = Host {
            target: order[i].clone(),
            groups: Vec::new(),
            ips: uniqued(listed.as_slice()),
            source: Source::Template,
            error: None,
        };
        assert(h@.groups =~= Seq::<Seq<char>>::empty());
        hosts.push(h);
        i = i + 1;
    }
    assert(host_views(hosts@) =~= hosts_of(value@, name_views(answers@)));
    Imported::Hosts(hosts)
}

/// True when `answers` holds an answer that the resolver may give for each
/// site of a value.
pub open spec fn answered<R: NameResolver>(
    names: R,
    value: Seq<char>,
    answers: Seq<NameView>,
) -> bool {
    &&& answers.len() == sites_of(value).len()
    &&& forall|i: int|
        0 <= i < answers.len() ==> may_name(
            names,
            bare_addresses(sites_of(value))[i],
            #[trigger] answers[i],
        )
}

/// Turn one `AllowedIPs` value into candidate hosts.
///
/// Each address is labelled by its reverse name, falling back to its
/// network, and addresses sharing a label become one host carrying all of
/// them. A network wider than a host is kept as written rather than
/// expanded.
pub fn hosts_from_value<R: NameResolver>(value: &str, names: &R) -> (r: Imported)
    ensures
        exists|answers: Seq<NameView>|
            answered(*names, value@, answers) && r@ == imported(value@, answers),
{
    let all = split_entries(value);
    let entries = site_entries(all.as_slice());
    let addrs = bare_list(entries.as_slice());
    let mut answers: Vec<Result<String, String>> = Vec::new();
    let mut i: usize = 0;
    let ghost a = texts(addrs@);
    while i < addrs.len()
        invariant
            a == texts(addrs@),
            i <= addrs@.len(),
            answers@.len() == i,
            forall|k: int|
                0 <= k < i ==> may_name(*names, a[k], text_result(#[trigger] answers@[k])),
        decreases addrs@.len() - i,
    {
        let answer = names.reverse(addrs[i].as_str());
        assert(may_name(*names, a[i as int], text_result(answer)));
        answers.push(answer);
        i = i + 1;
    }
    let ghost n = name_views(answers@);
    assert forall|k: int| 0 <= k < n.len() implies may_name(
        *names,
        bare_addresses(sites_of(value@))[k],
        #[trigger] n[k],
    ) by {
        assert(may_name(*names, a[k], text_result(answers@[k])));
    }
    assert(a == bare_addresses(sites_of(value@)));
    assert(n.len() == a.len());
    assert(answered(*names, value@, n));
    hosts_from_answers(value, answers.as_slice())
}

// ---------------------------------------------------------------------------
// A whole config
// ---------------------------------------------------------------------------

/// Values behind one another, with a comma before one that follows text.
pub open spec fn run_together(vals: Seq<Seq<char>>) -> Seq<char>
    decreases vals.len(),
{
    if vals.len() == 0 {
        Seq::empty()
    } else {
        let done = run_together(vals.drop_last());
        if done.len() > 0 {
            done + ", "@ + vals.last()
        } else {
            vals.last()
        }
    }
}

/// The value that is imported from the text of a config: every `AllowedIPs`
/// line contributes.
pub open spec fn config_value(text: Seq<char>) -> Seq<char> {
    run_together(values(conf(text)))
}

/// Read the text of a base config and produce the candidate list. Nothing
/// is changed by it: the caller shows it first.
pub fn from_config<R: NameResolver>(text: &str, names: &R) -> (r: Imported)
    ensures
        exists|answers: Seq<NameView>|
            answered(*names, config_value(text@), answers) && r@ == imported(
                config_value(text@),
                answers,
            ),
{
    let parsed = WgConfig::parse(text);
    let vals = parsed.allowed_ips();
    let mut all: String = owned("");
    let mut i: usize = 0;
    let ghost v = texts(vals@);
    proof {
        reveal_strlit("");
        assert(all@ =~= Seq::<char>::empty());
    }
    while i < vals.len()
        invariant
            v == texts(vals@),
            i <= vals@.len(),
            all@ == run_together(v.take(i as int)),
        decreases vals@.len() - i,
    {
        proof {
            assert(v.take(i + 1).drop_last() =~= v.take(i as int));
            assert(v.take(i + 1).last() == vals@[i as int]@);
        }
        if !all.as_str().is_empty() {
            all.append(", ");
        }
        let ghost front = all@;
        all.append(vals[i].as_str());
        assert(front.len() == 0 ==> front + vals@[i as int]@ =~= vals@[i as int]@);
        i = i + 1;
    }
    assert(v.take(v.len() as int) =~= v);
    assert(all@ == config_value(text@));
    hosts_from_value(all.as_str(), names)
}

/// True when `entry` could be typed into the host box.
pub fn is_importable(entry: &str) -> (r: bool)
    ensures
        r == is_ip_or_network(entry@),
{
    is_address(entry)
}

// ---------------------------------------------------------------------------
// Taking the candidates into the list
// ---------------------------------------------------------------------------

/// The list after hosts were imported into it.
pub open spec fn imported_into(
    s: StoreView,
    hosts: Seq<HostView>,
    groups: Seq<Seq<char>>,
) -> StoreView
    decreases hosts.len(),
{
    if hosts.len() == 0 {
        s
    } else {
        address_added(
            imported_into(s, hosts.drop_last(), groups),
            hosts.last().target,
            hosts.last().ips,
            groups,
        )
    }
}

/// How many hosts an import adds to the list.
pub open spec fn newly_imported(
    s: StoreView,
    hosts: Seq<HostView>,
    groups: Seq<Seq<char>>,
) -> nat
    decreases hosts.len(),
{
    if hosts.len() == 0 {
        0
    } else {
        let known = has_target(
            imported_into(s, hosts.drop_last(), groups).hosts,
            hosts.last().target,
        );
        newly_imported(s, hosts.drop_last(), groups) + if known {
            0nat
        } else {
            1nat
        }
    }
}

/// The groups that an optional group stands for.
pub open spec fn as_groups(group: Option<&str>) -> Seq<Seq<char>> {
    match group {
        Some(g) => seq![g@],
        None => Seq::empty(),
    }
}

/// Add imported hosts to the list.
///
/// A host already in the list absorbs the new addresses instead of being
/// duplicated. Returns how many hosts were not in the list before.
pub fn apply_import(store: &mut HostStore, hosts: Vec<Host>, group: Option<&str>) -> (r: usize)
    ensures
        final(store)@ == imported_into(old(store)@, host_views(hosts@), as_groups(group)),
        r == newly_imported(old(store)@, host_views(hosts@), as_groups(group)),
{
    let mut groups: Vec<String> = Vec::new();
    if let Some(g) = group {
        groups.push(owned(g));
    }
    let ghost gs = as_groups(group);
    assert(texts(groups@) =~= gs);
    let mut added: usize = 0;
    let mut i: usize = 0;
    let ghost all = host_views(hosts@);
    while i < hosts.len()
        invariant
            all == host_views(hosts@),
            texts(groups@) == gs,
            i <= hosts@.len(),
            added <= i,
            store@ == imported_into(old(store)@, all.take(i as int), gs),
            added == newly_imported(old(store)@, all.take(i as int), gs),
        decreases hosts@.len() - i,
    {
        let ghost before = store@;
        let h: &Host = &hosts[i];
        proof {
            assert(all.take(i + 1).drop_last() =~= all.take(i as int));
            assert(all.take(i + 1).last() == h@);
        }
        let known: bool = store.position(h.target.as_str()).is_some();
        {
            let _fed = store.add_address(
                h.target.as_str(),
                h.ips.as_slice(),
                groups.as_slice(),
            );
        }
        proof {
            lemma_host_index(before.hosts, h@.target);
            let new = address_added(before, h@.target, h@.ips, gs);
            let at = host_index(before.hosts, h@.target) as int;
            assert(new.hosts.update(at, new.hosts[at]) =~= new.hosts);
        }
        if !known {
            added = added + 1;
        }
        i = i + 1;
    }
    assert(all.take(all.len() as int) =~= all);
    added
}

// ---------------------------------------------------------------------------
// Laws
// ---------------------------------------------------------------------------

/// Names from a fixed table are the names of that table, and no others.
pub proof fn law_table_decides(names: FakeNames, addr: Seq<char>, answer: NameView)
    requires
        may_name(names, addr, answer),
    ensures
        answer == table_name(names@, addr),
{
}

/// True when some host has that address.
pub open spec fn has_address(hosts: Seq<HostView>, e: Seq<char>) -> bool {
    exists|i: int| 0 <= i < hosts.len() && (#[trigger] hosts[i]).ips.contains(e)
}

proof fn lemma_labelled(
    entries: Seq<Seq<char>>,
    labels: Seq<Seq<char>>,
    label: Seq<char>,
    e: Seq<char>,
)
    requires
        entries.len() == labels.len(),
    ensures
        labelled(entries, labels, label).contains(e) <==> exists|j: int|
            0 <= j < entries.len() && #[trigger] entries[j] == e && labels[j] == label,
    decreases entries.len(),
{
    if entries.len() > 0 {
        let n = entries.len() - 1;
        let d = entries.drop_last();
        let l = labels.drop_last();
        let t = labelled(d, l, label);
        let r = labelled(entries, labels, label);
        lemma_labelled(d, l, label, e);
        if r.contains(e) {
            let k = choose|k: int| 0 <= k < r.len() && r[k] == e;
            if k < t.len() {
                assert(t[k] == e);
                assert(t.contains(e));
                let j = choose|j: int|
                    0 <= j < d.len() && #[trigger] d[j] == e && l[j] == label;
                assert(entries[j] == e && labels[j] == label);
            } else {
                assert(entries[n] == e && labels[n] == label);
            }
        }
        if exists|j: int|
            0 <= j < entries.len() && #[trigger] entries[j] == e && labels[j] == label {
            let j = choose|j: int|
                0 <= j < entries.len() && #[trigger] entries[j] == e && labels[j] == label;
            if j < n {
                assert(d[j] == e && l[j] == label);
                assert(t.contains(e));
                let k = choose|k: int| 0 <= k < t.len() && t[k] == e;
                assert(r[k] == e);
            } else {
                assert(r[t.len() as int] == e);
            }
        }
    }
}

/// Naming the addresses drops none and invents none, whatever the lookups
/// answered: the addresses of the candidate hosts are the entries that the
/// value lists, but for its default routes.
pub proof fn law_import_keeps_every_address(value: Seq<char>, answers: Seq<NameView>)
    ensures
        forall|e: Seq<char>| #[trigger]
            has_address(hosts_of(value, answers), e) <==> sites_of(value).contains(e),
{
    let entries = sites_of(value);
    let names = labels(bare_addresses(entries), answers);
    let order = sorted_unique(names);
    let hosts = hosts_of(value, answers);
    lemma_sorted_unique(names);
    assert forall|e: Seq<char>| #[trigger] has_address(hosts, e) <==> entries.contains(e) by {
        if has_address(hosts, e) {
            let i = choose|i: int| 0 <= i < hosts.len() && (#[trigger] hosts[i]).ips.contains(e);
            lemma_add_missing(Seq::empty(), labelled(entries, names, order[i]));
            lemma_labelled(entries, names, order[i], e);
        }
        if entries.contains(e) {
            let j = choose|j: int| 0 <= j < entries.len() && entries[j] == e;
            assert(names.contains(names[j]));
            assert(order.contains(names[j]));
            let i = choose|i: int| 0 <= i < order.len() && order[i] == names[j];
            lemma_labelled(entries, names, order[i], e);
            lemma_add_missing(Seq::empty(), labelled(entries, names, order[i]));
            assert(hosts[i].ips.contains(e));
        }
    }
}

/// No two candidate hosts share a label, and none holds an address twice.
pub proof fn law_candidates_are_distinct(value: Seq<char>, answers: Seq<NameView>)
    ensures
        distinct_targets(hosts_of(value, answers)),
        forall|i: int|
            0 <= i < hosts_of(value, answers).len() ==> (#[trigger] hosts_of(
                value,
                answers,
            )[i]).ips.no_duplicates(),
{
    let entries = sites_of(value);
    let names = labels(bare_addresses(entries), answers);
    let order = sorted_unique(names);
    let hosts = hosts_of(value, answers);
    lemma_sorted_unique(names);
    assert forall|i: int, j: int| 0 <= i < j < hosts.len() implies (#[trigger] hosts[i]).target != (
    #[trigger] hosts[j]).target by {
        lemma_text_order(order[i], order[j], order[i]);
        assert(text_less(order[i], order[j]));
    }
    assert forall|i: int| 0 <= i < hosts.len() implies (
    #[trigger] hosts[i]).ips.no_duplicates() by {
        lemma_add_missing(Seq::empty(), labelled(entries, names, order[i]));
    }
}

/// An import removes no host, and leaves each of its own in the list.
proof fn lemma_targets_after_import(
    s: StoreView,
    hosts: Seq<HostView>,
    groups: Seq<Seq<char>>,
    target: Seq<char>,
)
    ensures
        has_target(s.hosts, target) ==> has_target(imported_into(s, hosts, groups).hosts, target),
        (exists|i: int| 0 <= i < hosts.len() && (#[trigger] hosts[i]).target == target)
            ==> has_target(imported_into(s, hosts, groups).hosts, target),
        imported_into(s, hosts, groups).hosts.len() >= s.hosts.len(),
    decreases hosts.len(),
{
    if hosts.len() > 0 {
        let d = hosts.drop_last();
        let p = imported_into(s, d, groups);
        let h = hosts.last();
        let r = imported_into(s, hosts, groups);
        lemma_targets_after_import(s, d, groups, target);
        lemma_host_index(p.hosts, h.target);
        lemma_host_index(p.hosts, target);
        if has_target(p.hosts, target) {
            lemma_has_target(r.hosts, target, host_index(p.hosts, target) as int);
        }
        if exists|i: int| 0 <= i < hosts.len() && (#[trigger] hosts[i]).target == target {
            let i = choose|i: int| 0 <= i < hosts.len() && (#[trigger] hosts[i]).target == target;
            if i < d.len() {
                assert(d[i].target == target);
            } else {
                lemma_has_target(r.hosts, target, host_index(p.hosts, target) as int);
            }
        }
    }
}

proof fn lemma_known_hosts(
    s: StoreView,
    hosts: Seq<HostView>,
    groups: Seq<Seq<char>>,
)
    requires
        forall|i: int|
            0 <= i < hosts.len() ==> has_target(s.hosts, (#[trigger] hosts[i]).target),
    ensures
        newly_imported(s, hosts, groups) == 0,
        imported_into(s, hosts, groups).hosts.len() == s.hosts.len(),
    decreases hosts.len(),
{
    if hosts.len() > 0 {
        let d = hosts.drop_last();
        assert forall|i: int| 0 <= i < d.len() implies has_target(
            s.hosts,
            (#[trigger] d[i]).target,
        ) by {
            assert(hosts[i] == d[i]);
        }
        lemma_known_hosts(s, d, groups);
        assert(has_target(s.hosts, hosts[hosts.len() - 1].target));
        lemma_targets_after_import(s, d, groups, hosts.last().target);
    }
}

/// Importing twice adds nothing the second time: no host counts as new, and
/// the list is no longer than before.
pub proof fn law_importing_twice_adds_none(
    s: StoreView,
    hosts: Seq<HostView>,
    groups: Seq<Seq<char>>,
)
    ensures
        newly_imported(imported_into(s, hosts, groups), hosts, groups) == 0,
        imported_into(imported_into(s, hosts, groups), hosts, groups).hosts.len()
            == imported_into(s, hosts, groups).hosts.len(),
{
    let once = imported_into(s, hosts, groups);
    assert forall|i: int| 0 <= i < hosts.len() implies has_target(
        once.hosts,
        (#[trigger] hosts[i]).target,
    ) by {
        lemma_targets_after_import(s, hosts, groups, hosts[i].target);
    }
    lemma_known_hosts(once, hosts, groups);
}

/// How many hosts an import counts as new is how many it adds.
pub proof fn law_import_counts_new_hosts(
    s: StoreView,
    hosts: Seq<HostView>,
    groups: Seq<Seq<char>>,
)
    ensures
        imported_into(s, hosts, groups).hosts.len() == s.hosts.len() + newly_imported(
            s,
            hosts,
            groups,
        ),
    decreases hosts.len(),
{
    if hosts.len() > 0 {
        law_import_counts_new_hosts(s, hosts.drop_last(), groups);
        lemma_host_index(
            imported_into(s, hosts.drop_last(), groups).hosts,
            hosts.last().target,
        );
    }
}

/// The addresses of imported hosts reach the list, and with it what is
/// written: each is an address of the host with that label. Its own label
/// counts as one too, as long as no second host of the import has it.
pub proof fn law_imported_addresses_are_written(
    s: StoreView,
    hosts: Seq<HostView>,
    groups: Seq<Seq<char>>,
    i: int,
    e: Seq<char>,
)
    requires
        0 <= i < hosts.len(),
        hosts[i].ips.contains(e),
        e != hosts[i].target || distinct_targets(hosts),
    ensures
        ({
            let after = imported_into(s, hosts, groups).hosts;
            let at = host_index(after, hosts[i].target) as int;
            &&& at < after.len()
            &&& after[at].ips.contains(e)
            &&& unique(all_entries(after)).contains(entry(e))
        }),
    decreases hosts.len(),
{
    let d = hosts.drop_last();
    let p = imported_into(s, d, groups);
    let h = hosts.last();
    let after = imported_into(s, hosts, groups).hosts;
    let t = hosts[i].target;
    let at = host_index(after, t) as int;
    lemma_host_index(p.hosts, h.target);
    lemma_host_index(p.hosts, t);
    lemma_host_index(after, t);
    let fed = host_index(p.hosts, h.target) as int;
    if i == hosts.len() - 1 {
        lemma_same_place(p.hosts, after, t);
        law_given_addresses_are_kept(p, t, h.ips, groups);
        assert(after[at].ips.contains(e));
    } else {
        if distinct_targets(hosts) {
            assert forall|i: int, j: int| 0 <= i < j < d.len() implies (#[trigger] d[i]).target != (
            #[trigger] d[j]).target by {
                assert(hosts[i].target != hosts[j].target);
            }
            assert(hosts[i].target != hosts[hosts.len() - 1].target);
        }
        law_imported_addresses_are_written(s, d, groups, i, e);
        assert(p.hosts[host_index(p.hosts, t) as int].ips.contains(e));
        lemma_same_place(p.hosts, after, t);
        if t == h.target {
            law_given_addresses_are_kept(p, t, h.ips, groups);
            assert(after[at].ips.contains(e));
        } else {
            assert(at != fed);
            assert(after[at] == p.hosts[at]);
            assert(after[at].ips.contains(e));
        }
    }
    let k = choose|k: int| 0 <= k < after[at].ips.len() && after[at].ips[k] == e;
    assert(entry(after[at].ips[k]) == entry(e));
    assert(is_entry_of(after, entry(e)));
    law_value_is_every_address_once(after);
}

/// Where a host stands does not change as long as the targets before it do
/// not, nor where a new one is put.
proof fn lemma_same_place(a: Seq<HostView>, b: Seq<HostView>, t: Seq<char>)
    requires
        b.len() >= a.len(),
        forall|k: int| 0 <= k < a.len() ==> (#[trigger] b[k]).target == a[k].target,
        has_target(a, t) || (b.len() > a.len() && b[a.len() as int].target == t),
    ensures
        host_index(b, t) == host_index(a, t),
{
    lemma_host_index(a, t);
    lemma_host_index(b, t);
    let i = host_index(a, t) as int;
    let j = host_index(b, t) as int;
    if j < i {
        assert(b[j].target == t);
        assert(a[j].target == t);
    }
    if i < j {
        assert(b[i].target == t);
    }
}

/// Entries are given back as they were written, whatever separators stand
/// between them.
pub proof fn law_listed_entries_are_given_back(parts: Seq<Seq<char>>, sep: Seq<char>)
    requires
        forall|k: int| 0 <= k < parts.len() ==> (#[trigger] parts[k]).len() > 0,
        forall|k: int, j: int|
            0 <= k < parts.len() && 0 <= j < parts[k].len() ==> !Class::EntrySeparator.has(
                #[trigger] parts[k][j],
            ),
        sep.len() > 0,
        forall|k: int| 0 <= k < sep.len() ==> Class::EntrySeparator.has(#[trigger] sep[k]),
    ensures
        listed_entries(join(parts, sep)) == parts,
{
    assert forall|k: int| 0 <= k < parts.len() implies (#[trigger] parts[k]).len() > 0 && trim(
        parts[k],
    ) == parts[k] by {
        let p = parts[k];
        assert(!Class::EntrySeparator.has(parts[k][0]));
        assert(!Class::EntrySeparator.has(parts[k][p.len() - 1]));
        assert(trim_start(p, Class::White) == p);
        assert(trim_end(p, Class::White) == p);
    }
    lemma_pieces_of_list(parts, sep, Class::EntrySeparator);
}

/// No entry of a value is empty or holds a separator.
pub proof fn law_entries_hold_no_separator(value: Seq<char>)
    ensures
        forall|k: int|
            0 <= k < listed_entries(value).len() ==> (#[trigger] listed_entries(value)[k]).len()
                > 0,
        forall|k: int, j: int|
            0 <= k < listed_entries(value).len() && 0 <= j < listed_entries(value)[k].len()
                ==> !Class::EntrySeparator.has(#[trigger] listed_entries(value)[k][j]),
{
    lemma_pieces_lack(value, Class::EntrySeparator);
}

/// True when the same address is always answered alike.
pub open spec fn answered_alike(value: Seq<char>, answers: Seq<NameView>) -> bool {
    let addrs = bare_addresses(sites_of(value));
    forall|i: int, j: int|
        0 <= i < addrs.len() && 0 <= j < addrs.len() && #[trigger] addrs[i] == #[trigger] addrs[j]
            ==> answers[i] == answers[j]
}

/// Entries that are the same are filed under the same label.
proof fn lemma_labels_alike(value: Seq<char>, answers: Seq<NameView>, a: int, b: int)
    requires
        answered_alike(value, answers),
        0 <= a < sites_of(value).len(),
        0 <= b < sites_of(value).len(),
        sites_of(value)[a] == sites_of(value)[b],
    ensures
        labels(bare_addresses(sites_of(value)), answers)[a] == labels(
            bare_addresses(sites_of(value)),
            answers,
        )[b],
{
    let addrs = bare_addresses(sites_of(value));
    assert(addrs[a] == addrs[b]);
}

/// No entry is filed twice: where the same address is always answered alike,
/// an address belongs to one candidate host at most. With
/// [`law_import_keeps_every_address`] that is exactly one for each entry of
/// the value.
pub proof fn law_each_site_has_one_host(
    value: Seq<char>,
    answers: Seq<NameView>,
    i: int,
    j: int,
    e: Seq<char>,
)
    requires
        answered_alike(value, answers),
        0 <= i < hosts_of(value, answers).len(),
        0 <= j < hosts_of(value, answers).len(),
        hosts_of(value, answers)[i].ips.contains(e),
        hosts_of(value, answers)[j].ips.contains(e),
    ensures
        i == j,
{
    let entries = sites_of(value);
    let names = labels(bare_addresses(entries), answers);
    let order = sorted_unique(names);
    lemma_sorted_unique(names);
    lemma_add_missing(Seq::empty(), labelled(entries, names, order[i]));
    lemma_add_missing(Seq::empty(), labelled(entries, names, order[j]));
    lemma_labelled(entries, names, order[i], e);
    lemma_labelled(entries, names, order[j], e);
    let a = choose|a: int|
        0 <= a < entries.len() && #[trigger] entries[a] == e && names[a] == order[i];
    let b = choose|b: int|
        0 <= b < entries.len() && #[trigger] entries[b] == e && names[b] == order[j];
    lemma_labels_alike(value, answers, a, b);
    law_candidates_are_distinct(value, answers);
    let hosts = hosts_of(value, answers);
    if i < j {
        assert(hosts[i].target != hosts[j].target);
    } else if j < i {
        assert(hosts[j].target != hosts[i].target);
    }
}

/// True when `chosen` are texts of `all` in their order, each at the place of
/// its first occurrence: `at` gives the places.
pub open spec fn chosen_at(
    all: Seq<Seq<char>>,
    chosen: Seq<Seq<char>>,
    at: Seq<int>,
) -> bool {
    &&& at.len() == chosen.len()
    &&& forall|k: int, m: int| 0 <= k < m < at.len() ==> #[trigger] at[k] < #[trigger] at[m]
    &&& forall|k: int|
        0 <= k < at.len() ==> 0 <= #[trigger] at[k] < all.len() && all[at[k]] == chosen[k]
    &&& forall|k: int, j: int|
        0 <= k < at.len() && 0 <= j < #[trigger] at[k] ==> #[trigger] all[j] != chosen[k]
}

proof fn lemma_chosen(
    entries: Seq<Seq<char>>,
    labels: Seq<Seq<char>>,
    label: Seq<char>,
) -> (at: Seq<int>)
    requires
        entries.len() == labels.len(),
        forall|a: int, b: int|
            0 <= a < entries.len() && 0 <= b < entries.len() && #[trigger] entries[a]
                == #[trigger] entries[b] ==> labels[a] == labels[b],
    ensures
        chosen_at(entries, unique(labelled(entries, labels, label)), at),
    decreases entries.len(),
{
    if entries.len() == 0 {
        Seq::empty()
    } else {
        let n = entries.len() - 1;
        let d = entries.drop_last();
        let l = labels.drop_last();
        assert forall|a: int, b: int|
            0 <= a < d.len() && 0 <= b < d.len() && #[trigger] d[a] == #[trigger] d[b] implies l[a]
            == l[b] by {
            assert(entries[a] == entries[b]);
        }
        let at = lemma_chosen(d, l, label);
        let t = labelled(d, l, label);
        let u = unique(t);
        let e = entries[n];
        let r = unique(labelled(entries, labels, label));
        assert forall|k: int, j: int|
            0 <= k < at.len() && 0 <= j < #[trigger] at[k] implies #[trigger] entries[j] != u[k] by {
            assert(d[j] == entries[j]);
        }
        assert forall|k: int| 0 <= k < at.len() implies 0 <= #[trigger] at[k] < entries.len()
            && entries[at[k]] == u[k] by {
            assert(d[at[k]] == entries[at[k]]);
        }
        if labels[n] == label {
            assert(labelled(entries, labels, label).drop_last() =~= t);
            assert(r == with_text(u, e));
            if u.contains(e) {
                at
            } else {
                let more = at.push(n);
                assert forall|j: int| 0 <= j < n implies #[trigger] entries[j] != e by {
                    if entries[j] == e {
                        assert(entries[n] == e);
                        assert(d[j] == e && l[j] == label);
                        lemma_labelled(d, l, label, e);
                        lemma_add_missing(Seq::empty(), t);
                    }
                }
                assert forall|k: int, j: int|
                    0 <= k < more.len() && 0 <= j < #[trigger] more[k] implies #[trigger] entries[j]
                    != r[k] by {
                    if k < at.len() {
                        assert(more[k] == at[k]);
                        assert(r[k] == u[k]);
                    }
                }
                assert forall|k: int| 0 <= k < more.len() implies 0 <= #[trigger] more[k]
                    < entries.len() && entries[more[k]] == r[k] by {
                    if k < at.len() {
                        assert(more[k] == at[k]);
                        assert(r[k] == u[k]);
                    }
                }
                assert forall|k: int, m: int| 0 <= k < m < more.len() implies #[trigger] more[k]
                    < #[trigger] more[m] by {
                    if m == at.len() {
                        assert(0 <= at[k] < d.len());
                    } else {
                        assert(at[k] < at[m]);
                    }
                }
                more
            }
        } else {
            at
        }
    }
}

/// A candidate host lists its addresses in the order of the file, each at the
/// place where it came first, and is a template host without groups and
/// without an error.
pub proof fn law_candidates_are_in_file_order(
    value: Seq<char>,
    answers: Seq<NameView>,
    i: int,
)
    requires
        answered_alike(value, answers),
        0 <= i < hosts_of(value, answers).len(),
    ensures
        exists|at: Seq<int>|
            chosen_at(sites_of(value), hosts_of(value, answers)[i].ips, at),
        hosts_of(value, answers)[i].source == Source::Template,
        hosts_of(value, answers)[i].groups.len() == 0,
        hosts_of(value, answers)[i].error is None,
{
    let entries = sites_of(value);
    let names = labels(bare_addresses(entries), answers);
    assert forall|a: int, b: int|
        0 <= a < entries.len() && 0 <= b < entries.len() && #[trigger] entries[a]
            == #[trigger] entries[b] implies names[a] == names[b] by {
        lemma_labels_alike(value, answers, a, b);
    }
    let at = lemma_chosen(entries, names, sorted_unique(names)[i]);
    assert(chosen_at(entries, hosts_of(value, answers)[i].ips, at));
}

/// How many of the hosts have a target that none of the known hosts has.
pub open spec fn unknown(known: Seq<HostView>, hosts: Seq<HostView>) -> nat
    decreases hosts.len(),
{
    if hosts.len() == 0 {
        0
    } else {
        unknown(known, hosts.drop_last()) + if has_target(known, hosts.last().target) {
            0nat
        } else {
            1nat
        }
    }
}

/// True when one of the hosts has that target.
pub open spec fn is_target_of(hosts: Seq<HostView>, target: Seq<char>) -> bool {
    exists|i: int| 0 <= i < hosts.len() && (#[trigger] hosts[i]).target == target
}

/// An import leaves every other host as it was, and each of the list in its
/// place.
pub proof fn law_import_leaves_other_hosts(
    s: StoreView,
    hosts: Seq<HostView>,
    groups: Seq<Seq<char>>,
)
    ensures
        ({
            let after = imported_into(s, hosts, groups).hosts;
            &&& after.len() >= s.hosts.len()
            &&& forall|k: int|
                0 <= k < s.hosts.len() ==> (#[trigger] after[k]).target == s.hosts[k].target && (
                !is_target_of(hosts, s.hosts[k].target) ==> after[k] == s.hosts[k])
            &&& forall|k: int|
                s.hosts.len() <= k < after.len() ==> is_target_of(
                    hosts,
                    (#[trigger] after[k]).target,
                )
        }),
    decreases hosts.len(),
{
    if hosts.len() > 0 {
        let d = hosts.drop_last();
        let h = hosts[hosts.len() - 1];
        let p = imported_into(s, d, groups).hosts;
        let after = imported_into(s, hosts, groups).hosts;
        law_import_leaves_other_hosts(s, d, groups);
        lemma_host_index(p, h.target);
        assert forall|t: Seq<char>| is_target_of(d, t) implies #[trigger] is_target_of(
            hosts,
            t,
        ) by {
            let i = choose|i: int| 0 <= i < d.len() && (#[trigger] d[i]).target == t;
            assert(hosts[i].target == t);
        }
        assert(is_target_of(hosts, h.target));
        assert forall|k: int| 0 <= k < s.hosts.len() implies (#[trigger] after[k]).target
            == s.hosts[k].target && (!is_target_of(hosts, s.hosts[k].target) ==> after[k]
            == s.hosts[k]) by {
            assert(p[k].target == s.hosts[k].target);
        }
        assert forall|k: int| s.hosts.len() <= k < after.len() implies is_target_of(
            hosts,
            (#[trigger] after[k]).target,
        ) by {
            if k < p.len() {
                assert(after[k].target == p[k].target);
            }
        }
    }
}

/// How many hosts an import of distinct targets counts as new is how many of
/// the targets the list did not have.
pub proof fn law_import_counts_unknown_targets(
    s: StoreView,
    hosts: Seq<HostView>,
    groups: Seq<Seq<char>>,
)
    requires
        distinct_targets(hosts),
    ensures
        newly_imported(s, hosts, groups) == unknown(s.hosts, hosts),
    decreases hosts.len(),
{
    if hosts.len() > 0 {
        let d = hosts.drop_last();
        let n = hosts.len() - 1;
        let t = hosts[n].target;
        let p = imported_into(s, d, groups).hosts;
        assert forall|i: int, j: int| 0 <= i < j < d.len() implies (#[trigger] d[i]).target != (
        #[trigger] d[j]).target by {
            assert(hosts[i].target != hosts[j].target);
        }
        law_import_counts_unknown_targets(s, d, groups);
        law_import_leaves_other_hosts(s, d, groups);
        lemma_targets_after_import(s, d, groups, t);
        lemma_host_index(p, t);
        lemma_host_index(s.hosts, t);
        if has_target(p, t) && !has_target(s.hosts, t) {
            let k = host_index(p, t) as int;
            if k < s.hosts.len() {
                assert(p[k].target == s.hosts[k].target);
            } else {
                assert(is_target_of(d, p[k].target));
                let i = choose|i: int| 0 <= i < d.len() && (#[trigger] d[i]).target == t;
                assert(hosts[i].target != hosts[n].target);
            }
        }
    }
}

/// True when the target of a host is not one of its addresses, unless it is
/// the last of them.
pub open spec fn own_target_last(h: HostView) -> bool {
    forall|k: int| 0 <= k < h.ips.len() - 1 ==> #[trigger] h.ips[k] != h.target
}

/// True when importing the host again would change nothing.
spec fn is_settled(s: StoreView, h: HostView, groups: Seq<Seq<char>>) -> bool {
    &&& has_target(s.hosts, h.target)
    &&& fed_host(s.hosts[host_index(s.hosts, h.target) as int], h.ips, groups)
        == s.hosts[host_index(s.hosts, h.target) as int]
    &&& add_missing(s.groups, groups) == s.groups
}

proof fn lemma_feeding_again(w: Seq<Seq<char>>, ips: Seq<Seq<char>>, t: Seq<char>)
    requires
        !w.contains(t),
        forall|k: int| 0 <= k < ips.len() - 1 ==> #[trigger] ips[k] != t,
    ensures
        add_missing(without(add_missing(w, ips), t), ips) == add_missing(w, ips),
{
    let a = add_missing(w, ips);
    lemma_add_missing(w, ips);
    lemma_add_twice(w, ips);
    lemma_without(a, t);
    if ips.contains(t) {
        let k = choose|k: int| 0 <= k < ips.len() && ips[k] == t;
        assert(k == ips.len() - 1);
        let d = ips.drop_last();
        let b = add_missing(w, d);
        lemma_add_missing(w, d);
        lemma_add_twice(w, d);
        lemma_without(b, t);
        assert(!d.contains(t)) by {
            if d.contains(t) {
                let j = choose|j: int| 0 <= j < d.len() && d[j] == t;
                assert(ips[j] == t);
            }
        }
        assert(!b.contains(t));
        assert(a == b.push(t));
        assert(a.drop_last() =~= b);
        assert(without(a, t) == b);
    }
}

proof fn lemma_settles(s: StoreView, h: HostView, groups: Seq<Seq<char>>)
    requires
        own_target_last(h),
    ensures
        is_settled(address_added(s, h.target, h.ips, groups), h, groups),
{
    let t = h.target;
    let r = address_added(s, t, h.ips, groups);
    let i = host_index(s.hosts, t) as int;
    lemma_host_index(s.hosts, t);
    lemma_add_twice(s.groups, groups);
    lemma_same_place(s.hosts, r.hosts, t);
    if i < s.hosts.len() {
        let o = s.hosts[i];
        lemma_without(o.ips, t);
        lemma_add_twice(o.groups, groups);
        lemma_feeding_again(without(o.ips, t), h.ips, t);
    } else {
        lemma_add_twice(groups, groups);
        lemma_feeding_again(Seq::empty(), h.ips, t);
    }
    assert(fed_host(r.hosts[i], h.ips, groups) =~= r.hosts[i]);
}

proof fn lemma_all_settled(s: StoreView, hosts: Seq<HostView>, groups: Seq<Seq<char>>)
    requires
        distinct_targets(hosts),
        forall|i: int| 0 <= i < hosts.len() ==> own_target_last(#[trigger] hosts[i]),
    ensures
        forall|i: int|
            0 <= i < hosts.len() ==> is_settled(
                imported_into(s, hosts, groups),
                #[trigger] hosts[i],
                groups,
            ),
    decreases hosts.len(),
{
    if hosts.len() > 0 {
        let d = hosts.drop_last();
        let n = hosts.len() - 1;
        let h = hosts[n];
        assert forall|i: int, j: int| 0 <= i < j < d.len() implies (#[trigger] d[i]).target != (
        #[trigger] d[j]).target by {
            assert(hosts[i].target != hosts[j].target);
        }
        assert forall|i: int| 0 <= i < d.len() implies own_target_last(#[trigger] d[i]) by {
            assert(d[i] == hosts[i]);
        }
        lemma_all_settled(s, d, groups);
        let p = imported_into(s, d, groups);
        let r = imported_into(s, hosts, groups);
        lemma_settles(p, h, groups);
        lemma_host_index(p.hosts, h.target);
        assert forall|i: int| 0 <= i < hosts.len() implies is_settled(
            r,
            #[trigger] hosts[i],
            groups,
        ) by {
            if i < n {
                assert(is_settled(p, d[i], groups));
                assert(hosts[i].target != hosts[n].target);
                lemma_host_index(p.hosts, hosts[i].target);
                lemma_same_place(p.hosts, r.hosts, hosts[i].target);
            }
        }
    }
}

proof fn lemma_nothing_imported(s: StoreView, hosts: Seq<HostView>, groups: Seq<Seq<char>>)
    requires
        forall|i: int| 0 <= i < hosts.len() ==> is_settled(s, #[trigger] hosts[i], groups),
    ensures
        imported_into(s, hosts, groups) == s,
    decreases hosts.len(),
{
    if hosts.len() > 0 {
        let d = hosts.drop_last();
        assert forall|i: int| 0 <= i < d.len() implies is_settled(s, #[trigger] d[i], groups) by {
            assert(d[i] == hosts[i]);
        }
        lemma_nothing_imported(s, d, groups);
        let h = hosts[hosts.len() - 1];
        assert(is_settled(s, h, groups));
        let i = host_index(s.hosts, h.target) as int;
        assert(s.hosts.update(i, s.hosts[i]) =~= s.hosts);
        assert(address_added(s, h.target, h.ips, groups) =~= s);
    }
}

/// Importing the same hosts a second time leaves the list as it is, where
/// their targets are distinct and no host lists its own target in front of
/// another address.
pub proof fn law_second_import_changes_nothing(
    s: StoreView,
    hosts: Seq<HostView>,
    groups: Seq<Seq<char>>,
)
    requires
        distinct_targets(hosts),
        forall|i: int| 0 <= i < hosts.len() ==> own_target_last(#[trigger] hosts[i]),
    ensures
        imported_into(imported_into(s, hosts, groups), hosts, groups) == imported_into(
            s,
            hosts,
            groups,
        ),
{
    lemma_all_settled(s, hosts, groups);
    lemma_nothing_imported(imported_into(s, hosts, groups), hosts, groups);
}

/// Imported hosts join the groups that they are imported into, and the list
/// knows those groups.
pub proof fn law_imported_hosts_join_the_groups(
    s: StoreView,
    hosts: Seq<HostView>,
    groups: Seq<Seq<char>>,
    i: int,
    g: Seq<char>,
)
    requires
        0 <= i < hosts.len(),
        groups.contains(g),
    ensures
        ({
            let r = imported_into(s, hosts, groups);
            let at = host_index(r.hosts, hosts[i].target) as int;
            &&& at < r.hosts.len()
            &&& r.hosts[at].groups.contains(g)
            &&& r.groups.contains(g)
        }),
    decreases hosts.len(),
{
    let d = hosts.drop_last();
    let p = imported_into(s, d, groups);
    let r = imported_into(s, hosts, groups);
    let h = hosts[hosts.len() - 1];
    let t = hosts[i].target;
    let fed = host_index(p.hosts, h.target) as int;
    lemma_host_index(p.hosts, h.target);
    lemma_host_index(p.hosts, t);
    lemma_add_missing(p.groups, groups);
    if fed < p.hosts.len() {
        lemma_add_missing(p.hosts[fed].groups, groups);
    }
    if i < d.len() {
        law_imported_hosts_join_the_groups(s, d, groups, i, g);
    }
    lemma_same_place(p.hosts, r.hosts, t);
}

/// An import brings in only what its hosts carry: every address in the list
/// afterwards was there before or is one of theirs.
pub proof fn law_import_adds_only_what_is_listed(
    s: StoreView,
    hosts: Seq<HostView>,
    groups: Seq<Seq<char>>,
    e: Seq<char>,
)
    ensures
        has_address(imported_into(s, hosts, groups).hosts, e) ==> has_address(s.hosts, e)
            || has_address(hosts, e),
    decreases hosts.len(),
{
    if hosts.len() > 0 {
        let d = hosts.drop_last();
        let p = imported_into(s, d, groups);
        let h = hosts.last();
        let after = imported_into(s, hosts, groups).hosts;
        law_import_adds_only_what_is_listed(s, d, groups, e);
        if has_address(after, e) {
            let k = choose|k: int| 0 <= k < after.len() && (#[trigger] after[k]).ips.contains(e);
            let fed = host_index(p.hosts, h.target) as int;
            lemma_host_index(p.hosts, h.target);
                    if k == fed {
                if fed < p.hosts.len() {
                    lemma_add_missing(without(p.hosts[fed].ips, h.target), h.ips);
                    lemma_without(p.hosts[fed].ips, h.target);
                } else {
                    lemma_add_missing(Seq::empty(), h.ips);
                }
            }
            if h.ips.contains(e) {
                assert(hosts[hosts.len() - 1].ips.contains(e));
            } else {
                assert(p.hosts[k].ips.contains(e));
                if has_address(d, e) {
                    let j = choose|j: int| 0 <= j < d.len() && (#[trigger] d[j]).ips.contains(e);
                    assert(hosts[j].ips.contains(e));
                }
            }
        }
    }
}

proof fn lemma_subnet_label(body: Seq<char>, x: char, y: char)
    requires
        lacks(body, '/'),
        ip(body) is Some,
        is_digit(x),
        is_digit(y),
        (x as int - 0x30) * 10 + (y as int - 0x30) < width(ip(body)->Some_0),
    ensures
        subnet_label(body + seq!['/', x, y]),
        before(body + seq!['/', x, y], '/') == body,
{
    let label = body + seq!['/', x, y];
    let n = body.len() as int;
    assert forall|k: int| 0 <= k < n implies !Class::One('/').has(#[trigger] label[k]) by {
        assert(label[k] == body[k]);
    }
    assert(label[n] == '/');
    lemma_first_of_is(label, Class::One('/'), n);
    assert(label.take(n) =~= body);
    let d = label.skip(n + 1);
    assert(d =~= seq![x, y]);
    reveal_with_fuel(digits_value, 3);
    assert(d.drop_last() =~= seq![x]);
    assert(d.drop_last().drop_last() =~= Seq::<char>::empty());
    assert(all_digits(d));
    assert(d[0] != '+');
}

spec fn lacks(s: Seq<char>, c: char) -> bool {
    forall|k: int| 0 <= k < s.len() ==> #[trigger] s[k] != c
}

proof fn lemma_lacks_concat(a: Seq<char>, b: Seq<char>, c: char)
    requires
        lacks(a, c),
        lacks(b, c),
    ensures
        lacks(a + b, c),
{
}

proof fn lemma_digits_lack_slash(t: Seq<char>)
    requires
        all_digits(t) || all_hex(t),
    ensures
        lacks(t, '/'),
{
    assert forall|k: int| 0 <= k < t.len() implies #[trigger] t[k] != '/' by {
        assert(is_digit(t[k]) || hex_digit(t[k]) is Some);
    }
}

proof fn lemma_written_network_v4(o: Seq<u8>)
    requires
        o.len() == 4,
    ensures
        subnet_label(network(IpView::V4(o))),
        ip(before(network(IpView::V4(o)), '/')) == Some(IpView::V4(o.update(3, 0))),
{
    reveal_strlit(".");
    reveal_strlit(".0/24");
    let dot = seq!['.'];
    let x = decimal(o[0] as nat);
    let y = decimal(o[1] as nat);
    let z = decimal(o[2] as nat);
    lemma_decimal_octet(o[0]);
    lemma_decimal_octet(o[1]);
    lemma_decimal_octet(o[2]);
    lemma_written_v4(o[0], o[1], o[2], 0);
    assert(o.update(3, 0) =~= seq![o[0], o[1], o[2], 0]);
    assert(decimal(0) =~= seq!['0']);
    lemma_digits_lack_slash(x);
    lemma_digits_lack_slash(y);
    lemma_digits_lack_slash(z);
    lemma_lacks_concat(x, dot, '/');
    lemma_lacks_concat(x + dot, y, '/');
    lemma_lacks_concat(x + dot + y, dot, '/');
    lemma_lacks_concat(x + dot + y + dot, z, '/');
    lemma_lacks_concat(x + dot + y + dot + z, dot, '/');
    let body = x + dot + y + dot + z + dot + decimal(0);
    lemma_lacks_concat(x + dot + y + dot + z + dot, decimal(0), '/');
    lemma_subnet_label(body, '2', '4');
    assert("."@ =~= dot);
    assert(body + seq!['/', '2', '4'] =~= x + "."@ + y + "."@ + z + ".0/24"@);
}

proof fn lemma_groups_lack_slash(g: Seq<u16>)
    ensures
        lacks(join(group_texts(g), seq![':']), '/'),
    decreases g.len(),
{
    let p = group_texts(g);
    if g.len() > 0 {
        let d = g.drop_last();
        let t = hexadecimal(g.last() as nat);
        lemma_hexadecimal_group(g.last());
        lemma_digits_lack_slash(t);
        assert(p.drop_last() =~= group_texts(d));
        assert(p.last() == t);
        lemma_groups_lack_slash(d);
        if g.len() == 1 {
            assert(join(p, seq![':']) =~= t);
        } else {
            let f = join(group_texts(d), seq![':']);
            lemma_lacks_concat(f, seq![':'], '/');
            lemma_lacks_concat(f + seq![':'], t, '/');
        }
    }
}

proof fn lemma_significant(g: Seq<u16>)
    ensures
        significant(g).len() <= g.len(),
        forall|k: int| 0 <= k < significant(g).len() ==> #[trigger] significant(g)[k] == g[k],
        forall|k: int| significant(g).len() <= k < g.len() ==> #[trigger] g[k] == 0,
    decreases g.len(),
{
    if g.len() > 0 && g.last() == 0 {
        let d = g.drop_last();
        lemma_significant(d);
        assert forall|k: int| significant(g).len() <= k < g.len() implies #[trigger] g[k] == 0 by {
            if k < d.len() {
                assert(d[k] == g[k]);
            }
        }
    }
}

/// The groups of a long address with all but the first 48 bits cleared.
pub open spec fn first_groups(g: Seq<u16>) -> Seq<u16> {
    g.take(3) + Seq::new(5, |k: int| 0u16)
}

proof fn lemma_written_network_v6(g: Seq<u16>)
    requires
        g.len() == 8,
    ensures
        subnet_label(network(IpView::V6(g))),
        ip(before(network(IpView::V6(g)), '/')) == Some(IpView::V6(first_groups(g))),
{
    reveal_strlit(":");
    reveal_strlit("::/48");
    let colon = seq![':'];
    assert(":"@ =~= colon);
    let m = significant(g.take(3));
    lemma_significant(g.take(3));
    lemma_written_v6(m);
    assert(m + Seq::new((8 - m.len()) as nat, |k: int| 0u16) =~= first_groups(g)) by {
        assert forall|k: int| 0 <= k < 8 implies (m + Seq::new(
            (8 - m.len()) as nat,
            |k: int| 0u16,
        ))[k] == #[trigger] first_groups(g)[k] by {
            if k < 3 {
                assert(g.take(3)[k] == g[k]);
            }
        }
    }
    let head = join(group_texts(m), colon);
    lemma_groups_lack_slash(m);
    lemma_lacks_concat(head, seq![':', ':'], '/');
    let body = head + seq![':', ':'];
    lemma_subnet_label(body, '4', '8');
    assert(body + seq!['/', '4', '8'] =~= head + "::/48"@);
}

/// The network that an address falls back to is recognised as one, and is
/// the one that the address sits in: it has its first 24 bits, or 48 of a
/// long one, and zeros behind them.
pub proof fn law_network_is_a_subnet_label(addr: Seq<char>)
    requires
        subnet(addr) is Some,
    ensures
        subnet_label(subnet(addr)->Some_0),
        ip(before(subnet(addr)->Some_0, '/')) == Some(
            match ip(before(addr, '/'))->Some_0 {
                IpView::V4(o) => IpView::V4(o.update(3, 0)),
                IpView::V6(g) => IpView::V6(first_groups(g)),
            },
        ),
{
    match ip(before(addr, '/'))->Some_0 {
        IpView::V4(o) => {
            lemma_written_network_v4(o);
        },
        IpView::V6(g) => {
            lemma_written_network_v6(g);
        },
    }
}

/// A network yields to a name: where one address of a network has a name, no
/// address of it is filed under the network. Each is filed under its own
/// name or under that of a neighbour.
pub proof fn law_network_yields_to_a_name(
    addrs: Seq<Seq<char>>,
    answers: Seq<NameView>,
    i: int,
    j: int,
)
    requires
        addrs.len() == answers.len(),
        0 <= i < addrs.len(),
        0 <= j < addrs.len(),
        subnet(addrs[i]) is Some,
        subnet(addrs[j]) == subnet(addrs[i]),
        name_in(addrs[j], answers[j]) is Some,
    ensures
        exists|k: int|
            0 <= k < addrs.len() && subnet(#[trigger] addrs[k]) == subnet(addrs[i]) && name_in(
                addrs[k],
                answers[k],
            ) == Some(label_for(addrs, answers, i)),
{
    if name_in(addrs[i], answers[i]) is None {
        let net = subnet(addrs[i])->Some_0;
        let k = lemma_network_name(addrs, answers, net, j);
        assert(name_in(addrs[k], answers[k]) == Some(label_for(addrs, answers, i)));
    } else {
        assert(name_in(addrs[i], answers[i]) == Some(label_for(addrs, answers, i)));
    }
}

proof fn lemma_network_name(
    addrs: Seq<Seq<char>>,
    answers: Seq<NameView>,
    net: Seq<char>,
    j: int,
) -> (k: int)
    requires
        addrs.len() == answers.len(),
        0 <= j < addrs.len(),
        subnet(addrs[j]) == Some(net),
        name_in(addrs[j], answers[j]) is Some,
    ensures
        0 <= k < addrs.len(),
        subnet(addrs[k]) == Some(net),
        name_in(addrs[k], answers[k]) is Some,
        network_name(addrs, answers, net) == name_in(addrs[k], answers[k]),
    decreases addrs.len(),
{
    if subnet(addrs[0]) == Some(net) && name_in(addrs[0], answers[0]) is Some {
        0
    } else {
        1 + lemma_network_name(addrs.drop_first(), answers.drop_first(), net, j - 1)
    }
}

/// True for a route to everything: the address before the slash is the
/// all-zero address of its family, and the prefix length, if one is written,
/// is 0.
pub open spec fn routes_everything(e: Seq<char>) -> bool {
    &&& ip(before(e, '/')) matches Some(a) && (match a {
        IpView::V4(o) => o.len() == 4 && forall|k: int| 0 <= k < 4 ==> #[trigger] o[k] == 0,
        IpView::V6(g) => g.len() == 8 && forall|k: int| 0 <= k < 8 ==> #[trigger] g[k] == 0,
    })
    &&& split_once(e, '/') matches Some((_, len)) ==> number(trim(len), 255) == Some(0nat)
}

proof fn lemma_zero_addresses()
    ensures
        ip("0.0.0.0"@) == Some(IpView::V4(seq![0u8, 0u8, 0u8, 0u8])),
        ip("::"@) matches Some(IpView::V6(g)) && g.len() == 8 && forall|k: int|
            0 <= k < 8 ==> #[trigger] g[k] == 0,
{
    reveal_strlit("0.0.0.0");
    reveal_strlit("::");
    let zeros = seq![0u8, 0u8, 0u8, 0u8];
    assert(decimal(0) =~= seq!['0']);
    assert("0.0.0.0"@ =~= dotted(zeros));
    law_v4_is_four_numbers("0.0.0.0"@, zeros);
    let none = Seq::<Seq<char>>::empty();
    let nothing = Seq::<u16>::empty();
    assert(spelled(none) =~= nothing);
    law_gap_stands_for_zeros(none, nothing, none, nothing);
    assert(join(none, seq![':']) =~= Seq::<char>::empty());
    assert("::"@ =~= join(none, seq![':']) + seq![':', ':'] + join(none, seq![':']));
}

proof fn lemma_colons(a: Seq<char>)
    requires
        eq_ignore_case(a, "::"@),
    ensures
        a == "::"@,
{
    reveal_strlit("::");
    assert forall|k: int| 0 <= k < a.len() implies #[trigger] a[k] == "::"@[k] by {
        assert(ascii_fold(a[k]) == ascii_fold("::"@[k]));
    }
    assert(a =~= "::"@);
}

proof fn lemma_default_route(e: Seq<char>)
    requires
        default_route(e),
    ensures
        routes_everything(e),
{
    lemma_zero_addresses();
    lemma_first_of(e, Class::One('/'));
    let a = before(e, '/');
    if split_once(e, '/') is None {
        assert(a =~= e);
    } else {
        reveal_strlit("0");
        assert("0"@ =~= decimal(0));
        lemma_decimal(0);
        law_number_from_digits(0, 255, decimal(0));
    }
    if a != "0.0.0.0"@ {
        lemma_colons(a);
    }
}

/// The sites are the entries that are no default route, in their order.
proof fn lemma_sites(entries: Seq<Seq<char>>, e: Seq<char>)
    ensures
        sites(entries).contains(e) <==> entries.contains(e) && !default_route(e),
        sites(entries) == entries.filter(|x: Seq<char>| !default_route(x)),
    decreases entries.len(),
{
    reveal(Seq::filter);
    if entries.len() > 0 {
        let d = entries.drop_last();
        let t = sites(d);
        let r = sites(entries);
        lemma_sites(d, e);
        if r.contains(e) {
            let k = choose|k: int| 0 <= k < r.len() && r[k] == e;
            if k < t.len() {
                assert(t[k] == e);
                let j = choose|j: int| 0 <= j < d.len() && d[j] == e;
                assert(entries[j] == e);
            } else {
                assert(entries[entries.len() - 1] == e);
            }
        }
        if entries.contains(e) && !default_route(e) {
            let j = choose|j: int| 0 <= j < entries.len() && entries[j] == e;
            if j < d.len() {
                assert(d[j] == e);
                let k = choose|k: int| 0 <= k < t.len() && t[k] == e;
                assert(r[k] == e);
            } else {
                assert(r[t.len() as int] == e);
            }
        }
    } else {
        assert(sites(entries) =~= entries);
    }
}

/// An entry is left out of an import only if it routes everything; every
/// other entry that is listed is an address of some candidate host, and the
/// candidate hosts have no address that is not listed.
pub proof fn law_only_default_routes_are_left_out(
    value: Seq<char>,
    answers: Seq<NameView>,
    e: Seq<char>,
)
    ensures
        listed_entries(value).contains(e) && !routes_everything(e) ==> has_address(
            hosts_of(value, answers),
            e,
        ),
        has_address(hosts_of(value, answers), e) ==> listed_entries(value).contains(e),
{
    law_import_keeps_every_address(value, answers);
    lemma_sites(listed_entries(value), e);
    assert(has_address(hosts_of(value, answers), e) <==> sites_of(value).contains(e));
    if default_route(e) {
        lemma_default_route(e);
    }
}

/// The all-zero addresses are left out, alone or with the prefix length 0,
/// but not with another: `0.0.0.0/8` is a site.
pub proof fn law_default_routes_are_left_out(
    value: Seq<char>,
    answers: Seq<NameView>,
    a: Seq<char>,
    n: nat,
)
    requires
        a == "0.0.0.0"@ || a == "::"@,
    ensures
        !has_address(hosts_of(value, answers), a),
        !has_address(hosts_of(value, answers), a + seq!['/', '0']),
        n > 0 && listed_entries(value).contains(a + seq!['/'] + decimal(n)) ==> has_address(
            hosts_of(value, answers),
            a + seq!['/'] + decimal(n),
        ),
{
    let zero = a + seq!['/', '0'];
    let net = a + seq!['/'] + decimal(n);
    reveal_strlit("0.0.0.0");
    reveal_strlit("::");
    reveal_strlit("0");
    assert(!contains_char(a, '/'));
    law_parted_at_the_first(a, '/', seq!['0']);
    law_parted_at_the_first(a, '/', decimal(n));
    assert(zero =~= a + seq!['/'] + seq!['0']);
    let none = Seq::<char>::empty();
    law_trim_takes_white_space(none, seq!['0'], none);
    assert(none + seq!['0'] + none =~= seq!['0']);
    assert("0"@ =~= seq!['0']);
    assert(eq_ignore_case("::"@, "::"@));
    assert(default_route(a) && default_route(zero));
    law_import_keeps_every_address(value, answers);
    lemma_sites(listed_entries(value), a);
    lemma_sites(listed_entries(value), zero);
    lemma_sites(listed_entries(value), net);
    assert(has_address(hosts_of(value, answers), a) <==> sites_of(value).contains(a));
    assert(has_address(hosts_of(value, answers), zero) <==> sites_of(value).contains(zero));
    assert(has_address(hosts_of(value, answers), net) <==> sites_of(value).contains(net));
    if n > 0 {
        let d = decimal(n);
        lemma_decimal(n);
        assert(is_digit(d[0]) && is_digit(d[d.len() - 1]));
        law_trim_takes_white_space(none, d, none);
        assert(none + d + none =~= d);
        assert(seq!['0'][0] == '0');
        assert(d != "0"@);
    }
}

/// What an import finds: nothing where nothing is listed; a full tunnel
/// where all that is listed routes everything; and otherwise hosts, of which
/// there is one at least, each with an address.
pub proof fn law_what_an_import_finds(value: Seq<char>, answers: Seq<NameView>)
    ensures
        match imported(value, answers) {
            ImportedView::Nothing => listed_entries(value).len() == 0,
            ImportedView::FullTunnel => listed_entries(value).len() > 0 && forall|e: Seq<char>|
                #[trigger] listed_entries(value).contains(e) ==> routes_everything(e),
            ImportedView::Hosts(h) => {
                &&& h == hosts_of(value, answers)
                &&& h.len() > 0
                &&& forall|i: int| 0 <= i < h.len() ==> (#[trigger] h[i]).ips.len() > 0
            },
        },
        forall|e: Seq<char>| #[trigger]
            listed_entries(value).contains(e) && !routes_everything(e) ==> imported(
                value,
                answers,
            ) is Hosts,
{
    let all = listed_entries(value);
    let found = sites_of(value);
    assert forall|e: Seq<char>| #[trigger]
        all.contains(e) && !routes_everything(e) implies imported(value, answers) is Hosts by {
        lemma_sites(all, e);
        if default_route(e) {
            lemma_default_route(e);
        }
    }
    if found.len() > 0 {
        let h = hosts_of(value, answers);
        let names = labels(bare_addresses(found), answers);
        let order = sorted_unique(names);
        lemma_sorted_unique(names);
        assert(names.contains(names[0]));
        assert(order.contains(names[0]));
        assert forall|i: int| 0 <= i < h.len() implies (#[trigger] h[i]).ips.len() > 0 by {
            assert(order.contains(order[i]));
            let j = choose|j: int| 0 <= j < names.len() && names[j] == order[i];
            lemma_labelled(found, names, order[i], found[j]);
            lemma_add_missing(Seq::empty(), labelled(found, names, order[i]));
            assert(h[i].ips.contains(found[j]));
        }
    }
}

/// The candidate hosts come in the order of their labels, and each has the
/// sites that its label stands for.
pub proof fn law_host_lists_its_sites(value: Seq<char>, answers: Seq<NameView>)
    ensures
        ({
            let hosts = hosts_of(value, answers);
            let found = sites_of(value);
            let addrs = bare_addresses(found);
            &&& forall|i: int, j: int|
                0 <= i < j < hosts.len() ==> text_less(
                    (#[trigger] hosts[i]).target,
                    (#[trigger] hosts[j]).target,
                )
            &&& forall|j: int|
                0 <= j < found.len() ==> exists|i: int|
                    0 <= i < hosts.len() && (#[trigger] hosts[i]).target == label_for(
                        addrs,
                        answers,
                        j,
                    ) && hosts[i].ips.contains(#[trigger] found[j])
            &&& forall|i: int, e: Seq<char>|
                0 <= i < hosts.len() && #[trigger] hosts[i].ips.contains(e) ==> exists|j: int|
                    0 <= j < found.len() && #[trigger] found[j] == e && label_for(addrs, answers, j)
                        == hosts[i].target
        }),
{
    let found = sites_of(value);
    let addrs = bare_addresses(found);
    let names = labels(addrs, answers);
    let order = sorted_unique(names);
    let hosts = hosts_of(value, answers);
    lemma_sorted_unique(names);
    assert forall|j: int| 0 <= j < found.len() implies exists|i: int|
        0 <= i < hosts.len() && (#[trigger] hosts[i]).target == label_for(addrs, answers, j)
            && hosts[i].ips.contains(#[trigger] found[j]) by {
        assert(names.contains(names[j]));
        assert(order.contains(names[j]));
        let i = choose|i: int| 0 <= i < order.len() && order[i] == names[j];
        lemma_labelled(found, names, order[i], found[j]);
        lemma_add_missing(Seq::empty(), labelled(found, names, order[i]));
        assert(hosts[i].target == names[j] && hosts[i].ips.contains(found[j]));
    }
    assert forall|i: int, e: Seq<char>|
        0 <= i < hosts.len() && #[trigger] hosts[i].ips.contains(e) implies exists|j: int|
        0 <= j < found.len() && #[trigger] found[j] == e && label_for(addrs, answers, j)
            == hosts[i].target by {
        lemma_add_missing(Seq::empty(), labelled(found, names, order[i]));
        lemma_labelled(found, names, order[i], e);
        let j = choose|j: int|
            0 <= j < found.len() && #[trigger] found[j] == e && names[j] == order[i];
        assert(label_for(addrs, answers, j) == names[j]);
    }
}

/// A reverse name is taken without the white space round it and the dots
/// behind it, in lower case.
pub proof fn law_plain_name(
    a: Seq<char>,
    s: Seq<char>,
    dots: Seq<char>,
    b: Seq<char>,
)
    requires
        forall|k: int| 0 <= k < a.len() ==> is_white_space(#[trigger] a[k]),
        forall|k: int| 0 <= k < b.len() ==> is_white_space(#[trigger] b[k]),
        forall|k: int| 0 <= k < dots.len() ==> #[trigger] dots[k] == '.',
        s.len() > 0 ==> !is_white_space(s[0]) && !is_white_space(s.last()) && s.last() != '.',
    ensures
        plain_name(a + s + dots + b) == lowercase(s),
{
    let body = s + dots;
    if body.len() > 0 {
        if s.len() > 0 {
            assert(body[0] == s[0]);
        } else {
            assert(body[0] == dots[0]);
        }
        if dots.len() > 0 {
            assert(body.last() == dots[dots.len() - 1]);
        } else {
            assert(body.last() == s.last());
        }
    }
    law_trim_takes_white_space(a, body, b);
    assert(a + s + dots + b =~= a + body + b);
    lemma_dots_go(s, dots);
}

proof fn lemma_dots_go(s: Seq<char>, dots: Seq<char>)
    requires
        forall|k: int| 0 <= k < dots.len() ==> #[trigger] dots[k] == '.',
        s.len() > 0 ==> s.last() != '.',
    ensures
        trim_end(s + dots, Class::One('.')) == s,
    decreases dots.len(),
{
    if dots.len() == 0 {
        assert(s + dots =~= s);
    } else {
        let d = dots.drop_last();
        assert forall|k: int| 0 <= k < d.len() implies #[trigger] d[k] == '.' by {
            assert(d[k] == dots[k]);
        }
        lemma_dots_go(s, d);
        assert((s + dots).last() == dots[dots.len() - 1]);
        assert((s + dots).drop_last() =~= s + d);
    }
}

/// An address is filed under its own name if it has one that is not the
/// address itself. Without a name it is filed under that of the first
/// address of its network that has one, failing that under the network, and
/// where it has no network under itself.
pub proof fn law_label_of_an_address(
    addrs: Seq<Seq<char>>,
    answers: Seq<NameView>,
    i: int,
    k: int,
)
    requires
        addrs.len() == answers.len(),
        0 <= i < addrs.len(),
        0 <= k <= addrs.len(),
    ensures
        ({
            let label = label_for(addrs, answers, i);
            let named = |j: int|
                answers[j] matches Ok(name) && plain_name(name).len() > 0 && plain_name(name)
                    != addrs[j];
            let near = |j: int| subnet(addrs[j]) == subnet(addrs[i]);
            &&& named(i) ==> label == plain_name(answers[i]->Ok_0)
            &&& !named(i) && subnet(addrs[i]) is None ==> label == addrs[i]
            &&& !named(i) && subnet(addrs[i]) is Some && (forall|j: int|
                0 <= j < k ==> !(#[trigger] near(j) && named(j))) ==> if k == addrs.len() {
                Some(label) == subnet(addrs[i])
            } else {
                near(k) && named(k) ==> label == plain_name(answers[k]->Ok_0)
            }
        }),
{
    let named = |j: int|
        answers[j] matches Ok(name) && plain_name(name).len() > 0 && plain_name(name) != addrs[j];
    let near = |j: int| subnet(addrs[j]) == subnet(addrs[i]);
    if !named(i) && subnet(addrs[i]) is Some && (forall|j: int|
        0 <= j < k ==> !(#[trigger] near(j) && named(j))) {
        let net = subnet(addrs[i])->Some_0;
        assert forall|j: int| 0 <= j < k implies !(subnet(#[trigger] addrs[j]) == Some(net)
            && name_in(addrs[j], answers[j]) is Some) by {
            assert(!(near(j) && named(j)));
        }
        lemma_first_name(addrs, answers, net, k);
    }
}

proof fn lemma_first_name(
    addrs: Seq<Seq<char>>,
    answers: Seq<NameView>,
    net: Seq<char>,
    k: int,
)
    requires
        addrs.len() == answers.len(),
        0 <= k <= addrs.len(),
        forall|j: int|
            0 <= j < k ==> !(subnet(#[trigger] addrs[j]) == Some(net) && name_in(
                addrs[j],
                answers[j],
            ) is Some),
    ensures
        k == addrs.len() ==> network_name(addrs, answers, net) is None,
        k < addrs.len() && subnet(addrs[k]) == Some(net) && name_in(addrs[k], answers[k]) is Some
            ==> network_name(addrs, answers, net) == name_in(addrs[k], answers[k]),
    decreases addrs.len(),
{
    if k > 0 {
        let d = addrs.drop_first();
        let a = answers.drop_first();
        assert(!(subnet(addrs[0]) == Some(net) && name_in(addrs[0], answers[0]) is Some));
        assert forall|j: int| 0 <= j < k - 1 implies !(subnet(#[trigger] d[j]) == Some(net)
            && name_in(d[j], a[j]) is Some) by {
            assert(d[j] == addrs[j + 1] && a[j] == answers[j + 1]);
        }
        lemma_first_name(d, a, net, k - 1);
    }
}

/// Two addresses are in one network if and only if they are of one family
/// and agree in their first 24 bits, or 48 of a long one.
pub proof fn law_same_network(a: Seq<char>, b: Seq<char>)
    requires
        ip(before(a, '/')) is Some,
        ip(before(b, '/')) is Some,
    ensures
        subnet(a) == subnet(b) <==> match (ip(before(a, '/'))->Some_0, ip(before(b, '/'))->Some_0) {
            (IpView::V4(x), IpView::V4(y)) => x.take(3) == y.take(3),
            (IpView::V6(x), IpView::V6(y)) => x.take(3) == y.take(3),
            _ => false,
        },
{
    law_colons_show_the_family(before(a, '/'));
    law_colons_show_the_family(before(b, '/'));
    law_network_is_a_subnet_label(a);
    law_network_is_a_subnet_label(b);
    match (ip(before(a, '/'))->Some_0, ip(before(b, '/'))->Some_0) {
        (IpView::V4(x), IpView::V4(y)) => {
            if subnet(a) == subnet(b) {
                assert(x.update(3, 0) == y.update(3, 0));
                assert forall|k: int| 0 <= k < 3 implies #[trigger] x[k] == y[k] by {
                    assert(x.update(3, 0)[k] == y.update(3, 0)[k]);
                }
                assert(x.take(3) =~= y.take(3));
            }
            if x.take(3) == y.take(3) {
                assert(x.take(3)[0] == y.take(3)[0] && x.take(3)[1] == y.take(3)[1]
                    && x.take(3)[2] == y.take(3)[2]);
            }
        },
        (IpView::V6(x), IpView::V6(y)) => {
            if subnet(a) == subnet(b) {
                assert(first_groups(x) == first_groups(y));
                assert forall|k: int| 0 <= k < 3 implies #[trigger] x[k] == y[k] by {
                    assert(first_groups(x)[k] == first_groups(y)[k]);
                }
                assert(x.take(3) =~= y.take(3));
            }
        },
        _ => {},
    }
}

/// The network of an IPv4 address is written with its first three numbers, a
/// zero and the prefix length 24.
pub proof fn law_written_network(addr: Seq<char>, o: Seq<u8>)
    requires
        ip(before(addr, '/')) == Some(IpView::V4(o)),
    ensures
        subnet(addr) == Some(dotted(o.update(3, 0)) + "/24"@),
{
    law_colons_show_the_family(before(addr, '/'));
    reveal_strlit(".");
    reveal_strlit(".0/24");
    reveal_strlit("/24");
    assert(decimal(0) =~= seq!['0']);
    assert("."@ =~= seq!['.']);
    assert(network(IpView::V4(o)) =~= dotted(o.update(3, 0)) + "/24"@);
}

/// A label is a network, and no name, if and only if it is an address with a
/// prefix shorter than a single host has.
pub proof fn law_labels_that_are_networks(a: Seq<char>, n: nat)
    ensures
        ip(a) is Some ==> (subnet_label(a + seq!['/'] + decimal(n)) <==> n < (if ip(a)->0 is V4 {
            32
        } else {
            128nat
        })),
        ip(a) is None && !contains_char(a, '/') ==> !subnet_label(a + seq!['/'] + decimal(n)),
        !contains_char(a, '/') ==> !subnet_label(a),
{
    if ip(a) is Some {
        law_colons_show_the_family(a);
    }
    if !contains_char(a, '/') {
        law_parted_at_the_first(a, '/', decimal(n));
        lemma_decimal(n);
        law_number_from_digits(n, 255, decimal(n));
    }
}

proof fn lemma_run_together(vals: Seq<Seq<char>>, v: Seq<char>)
    ensures
        listed_entries(run_together(vals.push(v))) == listed_entries(run_together(vals))
            + listed_entries(v),
{
    let c = Class::EntrySeparator;
    let done = run_together(vals);
    assert(vals.push(v).drop_last() =~= vals);
    assert(vals.push(v).last() == v);
    reveal_strlit(", ");
    if done.len() > 0 {
        lemma_pieces_at(done, ',', seq![' '] + v, c);
        lemma_pieces_after(seq![' '], v, c);
        assert(done + ", "@ + v =~= done + seq![','] + (seq![' '] + v));
    } else {
        lemma_pieces_of_one(done, c);
        lemma_trim(done);
        assert(listed_entries(done) + listed_entries(v) =~= listed_entries(v));
    }
}

/// Every `AllowedIPs` line of a config is imported, one after the other.
pub proof fn law_every_line_is_imported(a: Seq<char>, b: Seq<char>)
    ensures
        listed_entries(config_value(a + seq!['\n'] + b)) == listed_entries(config_value(a))
            + listed_entries(config_value(b)),
        forall|v: Seq<char>|
            values(conf(a)) == seq![v] ==> #[trigger] listed_entries(v) == listed_entries(
                config_value(a),
            ),
        values(conf(a)).len() == 0 ==> listed_entries(config_value(a)).len() == 0,
{
    law_lines_are_independent(a, b, Seq::empty());
    lemma_all_run_together(values(conf(a)), values(conf(b)));
    let none = Seq::<Seq<char>>::empty();
    assert(run_together(none) =~= Seq::<char>::empty());
    lemma_pieces_of_one(run_together(none), Class::EntrySeparator);
    lemma_trim(run_together(none));
    assert forall|v: Seq<char>| values(conf(a)) == seq![v] implies #[trigger] listed_entries(v)
        == listed_entries(config_value(a)) by {
        lemma_run_together(none, v);
        assert(none.push(v) =~= seq![v]);
        assert(listed_entries(run_together(none)) + listed_entries(v) =~= listed_entries(v));
    }
}

proof fn lemma_all_run_together(x: Seq<Seq<char>>, y: Seq<Seq<char>>)
    ensures
        listed_entries(run_together(x + y)) == listed_entries(run_together(x)) + listed_entries(
            run_together(y),
        ),
    decreases y.len(),
{
    let none = Seq::<char>::empty();
    if y.len() == 0 {
        lemma_pieces_of_one(none, Class::EntrySeparator);
        lemma_trim(none);
        assert(run_together(y) =~= none);
        assert(x + y =~= x);
        assert(listed_entries(run_together(x)) + listed_entries(none) =~= listed_entries(
            run_together(x),
        ));
    } else {
        let d = y.drop_last();
        let v = y.last();
        lemma_all_run_together(x, d);
        lemma_run_together(x + d, v);
        lemma_run_together(d, v);
        assert((x + d).push(v) =~= x + y);
        assert(d.push(v) =~= y);
        assert(listed_entries(run_together(x)) + listed_entries(run_together(d)) + listed_entries(v)
            =~= listed_entries(run_together(x)) + (listed_entries(run_together(d))
            + listed_entries(v)));
    }
}

/// An import takes in the hosts one by one, in their order.
pub proof fn law_import_is_one_by_one(
    s: StoreView,
    a: Seq<HostView>,
    b: Seq<HostView>,
    h: HostView,
    groups: Seq<Seq<char>>,
)
    ensures
        imported_into(s, a + b, groups) == imported_into(imported_into(s, a, groups), b, groups),
        imported_into(s, seq![h], groups) == address_added(s, h.target, h.ips, groups),
        imported_into(s, Seq::empty(), groups) == s,
    decreases b.len(),
{
    if b.len() == 0 {
        assert(a + b =~= a);
    } else {
        law_import_is_one_by_one(s, a, b.drop_last(), h, groups);
        assert((a + b).drop_last() =~= a + b.drop_last());
        assert((a + b).last() == b.last());
    }
    reveal_with_fuel(imported_into, 2);
    assert(seq![h].drop_last() =~= Seq::<HostView>::empty());
    assert(seq![h].last() == h);
}

/// A table names an address by its first row for it, and has no name for an
/// address without a row.
pub proof fn law_first_row_names(
    above: Seq<(Seq<char>, Seq<char>)>,
    addr: Seq<char>,
    name: Seq<char>,
    below: Seq<(Seq<char>, Seq<char>)>,
)
    requires
        forall|k: int| 0 <= k < above.len() ==> (#[trigger] above[k]).0 != addr,
    ensures
        table_name(above + seq![(addr, name)] + below, addr) == NameView::Ok(name),
        table_name(above, addr) is Err,
    decreases above.len(),
{
    let table = above + seq![(addr, name)] + below;
    if above.len() == 0 {
        assert(table[0] == (addr, name));
    } else {
        let d = above.drop_first();
        assert forall|k: int| 0 <= k < d.len() implies (#[trigger] d[k]).0 != addr by {
            assert(d[k] == above[k + 1]);
        }
        law_first_row_names(d, addr, name, below);
        assert(table[0] == above[0]);
        assert(above[0].0 != addr);
        assert(table.drop_first() =~= d + seq![(addr, name)] + below);
    }
}

/// The reverse name of an IPv4 address has its numbers from the last to the
/// first. That of an IPv6 address has its 32 hexadecimal digits from the last
/// to the first, each with a dot behind it.
pub proof fn law_reverse_name(a: IpView, i: int, j: int)
    requires
        match a {
            IpView::V4(o) => o.len() == 4,
            IpView::V6(g) => g.len() == 8,
        },
        0 <= i < 8,
        0 <= j < 4,
    ensures
        match a {
            IpView::V4(o) => reverse_name(a) == dotted(o.reverse()) + ".in-addr.arpa"@,
            IpView::V6(g) => {
                let s = reverse_name(a);
                let at = 8 * (7 - i) + 2 * j;
                let n = g[i] as nat;
                &&& s.skip(64) == "ip6.arpa"@
                &&& s[at] == digit_char(
                    if j == 0 {
                        n % 16
                    } else if j == 1 {
                        n / 16 % 16
                    } else if j == 2 {
                        n / 256 % 16
                    } else {
                        n / 4096
                    },
                )
                &&& s[at + 1] == '.'
            },
        },
{
    reveal_strlit(".");
    assert("."@ =~= seq!['.']);
    match a {
        IpView::V4(o) => {
            assert(reverse_name(a) =~= dotted(o.reverse()) + ".in-addr.arpa"@);
        },
        IpView::V6(g) => {
            lemma_reversed_nibbles(g, i, j);
            assert(reverse_name(a).skip(64) =~= "ip6.arpa"@);
        },
    }
}

proof fn lemma_nibbles(n: nat)
    requires
        n < 65536,
    ensures
        nibbles(n) == seq![
            digit_char(n % 16),
            '.',
            digit_char(n / 16 % 16),
            '.',
            digit_char(n / 256 % 16),
            '.',
            digit_char(n / 4096),
            '.',
        ],
{
    reveal_strlit(".");
    assert("."@ =~= seq!['.']);
    assert(hexadecimal(n % 16) =~= seq![digit_char(n % 16)]);
    assert(hexadecimal(n / 16 % 16) =~= seq![digit_char(n / 16 % 16)]);
    assert(hexadecimal(n / 256 % 16) =~= seq![digit_char(n / 256 % 16)]);
    assert(hexadecimal(n / 4096) =~= seq![digit_char(n / 4096)]);
    assert(nibbles(n) =~= seq![
        digit_char(n % 16),
        '.',
        digit_char(n / 16 % 16),
        '.',
        digit_char(n / 256 % 16),
        '.',
        digit_char(n / 4096),
        '.',
    ]);
}

proof fn lemma_reversed_nibbles(g: Seq<u16>, i: int, j: int)
    requires
        0 <= i,
        0 <= j < 4,
    ensures
        reversed_nibbles(g).len() == 8 * g.len(),
        i < g.len() ==> ({
            let at = 8 * (g.len() - 1 - i) + 2 * j;
            let n = g[i] as nat;
            &&& reversed_nibbles(g)[at] == nibbles(n)[2 * j]
            &&& reversed_nibbles(g)[at + 1] == '.'
            &&& nibbles(n)[2 * j] == digit_char(
                if j == 0 {
                    n % 16
                } else if j == 1 {
                    n / 16 % 16
                } else if j == 2 {
                    n / 256 % 16
                } else {
                    n / 4096
                },
            )
        }),
    decreases g.len(),
{
    if g.len() > 0 {
        let d = g.drop_last();
        let f = nibbles(g.last() as nat);
        lemma_reversed_nibbles(d, i, j);
        lemma_nibbles(g.last() as nat);
        if i < d.len() {
            let at = 8 * (g.len() - 1 - i) + 2 * j;
            assert(reversed_nibbles(g)[at] == reversed_nibbles(d)[at - 8]);
            assert(reversed_nibbles(g)[at + 1] == reversed_nibbles(d)[at - 7]);
            assert(d[i] == g[i]);
        } else if i == d.len() {
            assert(reversed_nibbles(g)[2 * j] == f[2 * j]);
            assert(reversed_nibbles(g)[2 * j + 1] == f[2 * j + 1]);
        }
    }
}

/// The network of an IPv6 address is written with its first three groups and
/// the prefix length 48; zeros behind the last group that is none are left
/// to the `::`.
pub proof fn law_written_long_network(addr: Seq<char>, g: Seq<u16>) -> (n: int)
    requires
        ip(before(addr, '/')) == Some(IpView::V6(g)),
    ensures
        0 <= n <= 3,
        n > 0 ==> g[n - 1] != 0,
        forall|k: int| n <= k < 3 ==> #[trigger] g[k] == 0,
        subnet(addr) == Some(
            join(g.take(n).map_values(|x: u16| hexadecimal(x as nat)), ":"@) + "::/48"@,
        ),
{
    law_colons_show_the_family(before(addr, '/'));
    let n: int = if g[2] != 0 {
        3
    } else if g[1] != 0 {
        2
    } else if g[0] != 0 {
        1
    } else {
        0
    };
    reveal_with_fuel(significant, 4);
    assert(g.take(3).drop_last() =~= g.take(2));
    assert(g.take(2).drop_last() =~= g.take(1));
    assert(g.take(1).drop_last() =~= g.take(0));
    assert(g.take(0).len() == 0);
    assert(significant(g.take(3)) == g.take(n));
    assert(group_texts(g.take(n)) =~= g.take(n).map_values(|x: u16| hexadecimal(x as nat)));
    n
}

/// A finished reverse lookup gives the name that was asked for, without the
/// dots behind it, and one that found nothing says what was asked for.
pub proof fn law_reverse_answer(query: Seq<char>, n: nat)
    requires
        query.len() > 0,
        query.last() != '.',
    ensures
        reverse_answer(query + Seq::new(n, |i: int| '.'), true) == NameView::Ok(query),
        reverse_answer(query, false) matches Err(e) && query.is_suffix_of(e),
{
    law_trim_takes_one_character(query, '.', n);
    let e = "no reverse name for "@ + query;
    assert(e.skip(e.len() - query.len()) =~= query);
}

/// What is looked up for an address is its reverse name; for anything else
/// nothing is.
pub proof fn law_only_addresses_are_looked_up(addr: Seq<char>)
    ensures
        reverse_query(addr) is Ok <==> ip(addr) is Some,
        ip(addr) matches Some(a) ==> reverse_query(addr) == NameView::Ok(reverse_name(a)),
{
}

/// It is the address of a site that is named, whatever prefix is written
/// behind it.
pub proof fn law_addresses_are_named<R: NameResolver>(
    names: R,
    value: Seq<char>,
    answers: Seq<NameView>,
    i: int,
    a: Seq<char>,
    prefix: Seq<char>,
)
    requires
        answered(names, value, answers),
        0 <= i < sites_of(value).len(),
        !contains_char(a, '/'),
        sites_of(value)[i] == a || sites_of(value)[i] == a + seq!['/'] + prefix,
    ensures
        answers.len() == sites_of(value).len(),
        may_name(names, a, answers[i]),
{
    law_parted_at_the_first(a, '/', prefix);
    assert(bare_addresses(sites_of(value))[i] == a);
    assert(may_name(names, bare_addresses(sites_of(value))[i], answers[i]));
}

/// A site whose address has a name, other than the address itself, is an
/// address of the candidate host of that name.
pub proof fn law_named_site_has_its_host(
    value: Seq<char>,
    answers: Seq<NameView>,
    j: int,
    name: Seq<char>,
) -> (i: int)
    requires
        answers.len() == sites_of(value).len(),
        0 <= j < answers.len(),
        answers[j] == NameView::Ok(name),
        plain_name(name).len() > 0,
        plain_name(name) != before(sites_of(value)[j], '/'),
    ensures
        0 <= i < hosts_of(value, answers).len(),
        hosts_of(value, answers)[i].target == plain_name(name),
        hosts_of(value, answers)[i].ips.contains(sites_of(value)[j]),
{
    let hosts = hosts_of(value, answers);
    let found = sites_of(value);
    let addrs = bare_addresses(found);
    law_host_lists_its_sites(value, answers);
    law_label_of_an_address(addrs, answers, j, 0);
    assert(addrs[j] == before(found[j], '/'));
    choose|i: int|
        0 <= i < hosts.len() && (#[trigger] hosts[i]).target == label_for(addrs, answers, j)
            && hosts[i].ips.contains(found[j])
}

} // verus!
