//! The window: what its cells, menus and questions say, and what its
//! commands do to the list.
//!
//! A prefix length is said in words as well: `/24` is a number of bits, and
//! that is not a number of addresses until it is counted.

use vstd::arithmetic::power2::{lemma2_to64, lemma_pow2_unfold, pow2};
use vstd::prelude::*;

use crate::address::is_ip_or_network;
use crate::apply::{count, law_counts_are_over_all_files, removed_total, ConfResult, Kind, Report};
use crate::cli::{address_count, count_addresses};
use crate::hosts::{
    all_entries, entries, group_removed, has_target, host_added, host_index, host_label, host_views,
    law_chosen_hosts, lemma_has_target, lemma_host_index, members, renamed_host, ungrouped, Host,
    HostStore, HostView, Source, StoreView,
};
use crate::import::{apply_import, imported_into, newly_imported};
use crate::list::{add_text, remove_text, with_text};
use crate::order::{law_sorting_keeps_every_text, sorted, sorted_unique, text_less};
use crate::resolve::{Outcome, OutcomeView};
use crate::subtract::{bare, bare_address, entries_from_group, law_host_prefix_does_not_count};
use crate::templates::{Template, TemplateView};
use crate::text::{
    all_digits, cat2, cat3, cat4, cat5, cat7, contains, contains_char, count_text, decimal,
    decimal_text, digits_value, has_char, has_member, is_digit, join, joined,
    law_contains_is_in_the_middle, law_number_from_digits, law_parted_at_the_first,
    law_trim_takes_white_space, lemma_decimal, lemma_texts_push, lemma_trim, nonblank_pieces,
    number, occurs_at, owned, parse_number, pieces, same, split_once, splitted_once, text_option,
    texts, trim, trimmed, Class,
};

verus! {

// ---------------------------------------------------------------------------
// Prefix lengths in words
// ---------------------------------------------------------------------------

pub open spec fn power_of_two(n: nat) -> nat
    decreases n,
{
    if n == 0 {
        1
    } else {
        2 * power_of_two((n - 1) as nat)
    }
}

proof fn lemma_power_sum(a: nat, b: nat)
    ensures
        power_of_two(a + b) == power_of_two(a) * power_of_two(b),
    decreases b,
{
    let p = power_of_two(a);
    if b > 0 {
        let q = power_of_two((b - 1) as nat);
        lemma_power_sum(a, (b - 1) as nat);
        assert((a + b - 1) as nat == a + (b - 1) as nat);
        assert(2 * (p * q) == p * (2 * q)) by (nonlinear_arith);
    } else {
        assert(p * 1 == p) by (nonlinear_arith);
    }
}

proof fn lemma_power_grows(a: nat, b: nat)
    requires
        a <= b,
    ensures
        power_of_two(a) <= power_of_two(b),
    decreases b,
{
    if a < b {
        lemma_power_grows(a, (b - 1) as nat);
    }
}

/// Below the 128th, a power of two fits.
proof fn lemma_power_fits(n: nat)
    requires
        n < 128,
    ensures
        power_of_two(n) <= u128::MAX,
{
    reveal_with_fuel(power_of_two, 17);
    assert(power_of_two(16) == 65_536);
    lemma_power_sum(16, 16);
    assert(power_of_two(32) == 0x1_0000_0000);
    lemma_power_sum(32, 32);
    assert(power_of_two(64) == 0x1_0000_0000_0000_0000);
    lemma_power_sum(64, 64);
    assert(power_of_two(128) == 0x1_0000_0000_0000_0000_0000_0000_0000_0000);
    lemma_power_grows(n, 127);
    assert(power_of_two(128) == 2 * power_of_two(127));
}

/// How many addresses a network has that leaves so many bits open. The count
/// stops at the largest that is written.
pub open spec fn network_size(open: nat) -> nat {
    if open >= 128 {
        u128::MAX as nat
    } else {
        power_of_two(open)
    }
}

/// The prefix length behind an entry, when it is one.
pub open spec fn prefix_bits(entry: Seq<char>) -> Option<nat> {
    match split_once(entry, '/') {
        Some((_, prefix)) => number(trim(prefix), u32::MAX as nat),
        None => None,
    }
}

/// How many bits an address has.
pub open spec fn address_bits(entry: Seq<char>) -> nat {
    if contains_char(entry, ':') {
        128
    } else {
        32
    }
}

/// What is said of an entry that is a network.
pub open spec fn network_note(entry: Seq<char>) -> Option<Seq<char>> {
    match prefix_bits(entry) {
        Some(bits) => if bits >= address_bits(entry) {
            None
        } else {
            Some(
                "a network: "@ + decimal(network_size((address_bits(entry) - bits) as nat))
                    + " addresses (mask "@ + decimal(bits) + " bits)"@,
            )
        },
        None => None,
    }
}

fn network_addresses(open: u32) -> (r: u128)
    ensures
        r == network_size(open as nat),
{
    if open >= 128 {
        return u128::MAX;
    }
    let mut n: u128 = 1;
    let mut i: u32 = 0;
    while i < open
        invariant
            i <= open < 128,
            n == power_of_two(i as nat),
        decreases open - i,
    {
        i = i + 1;
        proof {
            lemma_power_fits(i as nat);
        }
        n = 2 * n;
    }
    n
}

/// `31.13.64.0/24` is "a network: 256 addresses (mask 24 bits)". A route to
/// one host gets no note.
pub fn mask_note(entry: &str) -> (r: Option<String>)
    ensures
        text_option(r) == network_note(entry@),
{
    let (_, prefix) = match splitted_once(entry, '/') {
        Some(p) => p,
        None => {
            return None;
        },
    };
    let bits: u32 = match parse_number(trimmed(prefix.as_str()).as_str(), u32::MAX) {
        Some(n) => n,
        None => {
            return None;
        },
    };
    let total: u32 = if has_char(entry, ':') {
        128
    } else {
        32
    };
    if bits >= total {
        return None;
    }
    let addresses: u128 = network_addresses(total - bits);
    Some(
        cat5(
            "a network: ",
            decimal_text(addresses).as_str(),
            " addresses (mask ",
            decimal_text(bits as u128).as_str(),
            " bits)",
        ),
    )
}

/// What is said of a target without addresses.
pub open spec fn target_note(target: Seq<char>) -> Seq<char> {
    match network_note(target) {
        Some(n) => n,
        None => "no address yet"@,
    }
}

/// The same for a target, which may be a name with no prefix to explain.
pub fn mask_words(target: &str) -> (r: String)
    ensures
        r@ == target_note(target@),
{
    match mask_note(target) {
        Some(n) => n,
        None => owned("no address yet"),
    }
}

// ---------------------------------------------------------------------------
// Cells
// ---------------------------------------------------------------------------

/// The addresses column of a row.
pub open spec fn address_column(h: HostView) -> Seq<char> {
    if h.ips.len() == 0 {
        state_column(h)
    } else if h.ips.len() <= 3 {
        join(h.ips, ", "@)
    } else {
        h.ips[0] + " … ("@ + decimal(h.ips.len()) + " addresses)"@
    }
}

/// The addresses column of a row: all of them when they are few, and
/// otherwise the first and how many there are. A row without any says why,
/// in the words of the state column.
pub fn addresses_cell(h: &Host) -> (r: String)
    ensures
        r@ == address_column(h@),
{
    assert(texts(h.ips@).len() == h.ips@.len());
    if h.ips.len() == 0 {
        state_cell(h)
    } else if h.ips.len() <= 3 {
        joined(h.ips.as_slice(), ", ")
    } else {
        cat4(h.ips[0].as_str(), " … (", count_text(h.ips.len()).as_str(), " addresses)")
    }
}

/// The notes on those addresses that are networks.
pub open spec fn network_notes(ips: Seq<Seq<char>>) -> Seq<Seq<char>>
    decreases ips.len(),
{
    if ips.len() == 0 {
        Seq::empty()
    } else {
        match network_note(ips.last()) {
            Some(n) => network_notes(ips.drop_last()).push(n),
            None => network_notes(ips.drop_last()),
        }
    }
}

/// The state column of a row.
pub open spec fn state_column(h: HostView) -> Seq<char> {
    if h.error is Some {
        "failed: "@ + h.error->Some_0
    } else if h.source == Source::Template {
        "from template"@
    } else if h.ips.len() == 0 {
        if is_ip_or_network(h.target) {
            "not resolved"@
        } else {
            "not resolved — "@ + target_note(h.target)
        }
    } else {
        join(network_notes(h.ips), "; "@)
    }
}

/// The state column of a row: why a site is not in the tunnel yet, or what
/// its networks are.
pub fn state_cell(h: &Host) -> (r: String)
    ensures
        r@ == state_column(h@),
{
    if let Some(e) = &h.error {
        return cat2("failed: ", e.as_str());
    }
    if h.source == Source::Template {
        return owned("from template");
    }
    assert(texts(h.ips@).len() == h.ips@.len());
    if h.ips.len() == 0 {
        if h.is_literal_ip() {
            return owned("not resolved");
        }
        return cat2("not resolved — ", mask_words(h.target.as_str()).as_str());
    }
    let mut notes: Vec<String> = Vec::new();
    let mut i: usize = 0;
    let ghost all = h@.ips;
    assert(texts(notes@) =~= Seq::<Seq<char>>::empty());
    while i < h.ips.len()
        invariant
            all == h@.ips,
            i <= h.ips@.len() == all.len(),
            texts(notes@) == network_notes(all.take(i as int)),
        decreases h.ips@.len() - i,
    {
        proof {
            assert(all.take(i + 1).drop_last() =~= all.take(i as int));
            assert(all.take(i + 1).last() == h.ips@[i as int]@);
        }
        if let Some(n) = mask_note(h.ips[i].as_str()) {
            proof {
                lemma_texts_push(notes@, n);
            }
            notes.push(n);
        }
        i = i + 1;
    }
    assert(all.take(all.len() as int) =~= all);
    joined(notes.as_slice(), "; ")
}

/// The cells of a row: host, groups, addresses, state.
pub fn row_cells(h: &Host) -> (r: (String, String, String, String))
    ensures
        r.0@ == host_label(h@),
        r.1@ == join(h@.groups, ", "@),
        r.2@ == address_column(h@),
        r.3@ == state_column(h@),
{
    (owned(h.label()), joined(h.groups.as_slice(), ", "), addresses_cell(h), state_cell(h))
}

/// What a template covers, in one cell.
pub open spec fn covered(t: TemplateView) -> Seq<char> {
    if t.domains.len() <= 3 {
        join(t.domains, ", "@)
    } else {
        t.domains[0] + ", "@ + t.domains[1] + " and "@ + decimal((t.domains.len() - 2) as nat)
            + " more"@
    }
}

/// The cells of a template: its name, what it covers, how many addresses it
/// ships with.
pub fn template_cells(t: &Template) -> (r: (String, String, String))
    ensures
        r.0@ == t@.name,
        r.1@ == covered(t@),
        r.2@ == decimal(t@.ips.len()),
{
    assert(texts(t.domains@).len() == t.domains@.len());
    assert(texts(t.ips@).len() == t.ips@.len());
    let covers: String = if t.domains.len() <= 3 {
        joined(t.domains.as_slice(), ", ")
    } else {
        let mut s: String = cat5(
            t.domains[0].as_str(),
            ", ",
            t.domains[1].as_str(),
            " and ",
            count_text(t.domains.len() - 2).as_str(),
        );
        s.append(" more");
        s
    };
    (t.name.clone(), covers, count_text(t.ips.len()))
}

/// The line at the bottom: what happened, and how many hosts there are.
pub fn status_line(text: &str, hosts: usize) -> (r: String)
    ensures
        r@ == text@ + "   ("@ + decimal(hosts as nat) + " hosts)"@,
{
    cat4(text, "   (", count_text(hosts).as_str(), " hosts)")
}

/// The line about the folder and the file of the list.
pub fn folder_line(store: &HostStore, path: &str) -> (r: String)
    ensures
        r@ == (match store@.conf_dir {
            Some(d) => "Configs: "@ + d,
            None => "Configs: (none chosen)"@,
        }) + "   |   "@ + path@,
{
    let folder: String = match &store.conf_dir {
        Some(d) => cat2("Configs: ", d.as_str()),
        None => owned("Configs: (none chosen)"),
    };
    cat3(folder.as_str(), "   |   ", path)
}

// ---------------------------------------------------------------------------
// Menus
// ---------------------------------------------------------------------------

/// What an item of a menu does.
#[derive(Debug, Clone, PartialEq, Eq)]
pub enum Action {
    Separator,
    Rename,
    Remove,
    RemoveAddress(String),
    LeaveGroup(String),
    GroupOutOfConfigs,
    GroupOutOfList,
    GroupOutOfBoth,
}

/// An [`Action`] as character sequences.
pub enum ActionView {
    Separator,
    Rename,
    Remove,
    RemoveAddress(Seq<char>),
    LeaveGroup(Seq<char>),
    GroupOutOfConfigs,
    GroupOutOfList,
    GroupOutOfBoth,
}

impl View for Action {
    type V = ActionView;

    open spec fn view(&self) -> ActionView {
        match self {
            Action::Separator => ActionView::Separator,
            Action::Rename => ActionView::Rename,
            Action::Remove => ActionView::Remove,
            Action::RemoveAddress(a) => ActionView::RemoveAddress(a@),
            Action::LeaveGroup(g) => ActionView::LeaveGroup(g@),
            Action::GroupOutOfConfigs => ActionView::GroupOutOfConfigs,
            Action::GroupOutOfList => ActionView::GroupOutOfList,
            Action::GroupOutOfBoth => ActionView::GroupOutOfBoth,
        }
    }
}

/// An item of a menu.
#[derive(Debug, Clone, PartialEq, Eq)]
pub struct MenuItem {
    pub action: Action,
    pub label: String,
    pub help: String,
}

/// A [`MenuItem`] as character sequences.
#[verifier::ext_equal]
pub struct MenuItemView {
    pub action: ActionView,
    pub label: Seq<char>,
    pub help: Seq<char>,
}

impl View for MenuItem {
    type V = MenuItemView;

    open spec fn view(&self) -> MenuItemView {
        MenuItemView { action: self.action@, label: self.label@, help: self.help@ }
    }
}

/// The items of a menu, as character sequences.
pub open spec fn item_views(v: Seq<MenuItem>) -> Seq<MenuItemView> {
    Seq::new(v.len(), |i: int| v[i]@)
}

/// An item by its parts.
pub open spec fn item(action: ActionView, label: Seq<char>, help: Seq<char>) -> MenuItemView {
    MenuItemView { action, label, help }
}

/// Entries in the form that a removal compares.
pub open spec fn compared(e: Seq<Seq<char>>) -> Seq<Seq<char>> {
    Seq::new(e.len(), |i: int| bare_address(e[i]))
}

/// The addresses that a host would contribute, in the form that a removal
/// compares, sorted and once each.
pub open spec fn removable(h: HostView) -> Seq<Seq<char>> {
    sorted_unique(compared(entries(h.ips)))
}

/// The addresses that a host would contribute, in the form that a removal
/// matches on.
pub fn subtractions(host: &Host) -> (r: Vec<String>)
    ensures
        texts(r@) == removable(host@),
{
    let all = host.allowed_entries();
    let mut out: Vec<String> = Vec::new();
    let mut i: usize = 0;
    while i < all.len()
        invariant
            i <= all@.len(),
            out@.len() == i,
            forall|k: int| 0 <= k < i ==> (#[trigger] out@[k])@ == bare_address(all@[k]@),
        decreases all@.len() - i,
    {
        out.push(bare(all[i].as_str()));
        i = i + 1;
    }
    assert(texts(out@) =~= compared(texts(all@)));
    sorted(out.as_slice())
}

/// The items that take one address each out of the configs.
pub open spec fn address_items(addresses: Seq<Seq<char>>) -> Seq<MenuItemView> {
    Seq::new(
        addresses.len(),
        |i: int| item(
            ActionView::RemoveAddress(addresses[i]),
            "Remove address "@ + addresses[i] + " from the configs"@,
            "Takes this one address out of every .conf, leaving the others"@,
        ),
    )
}

/// The items that take a host out of one group each.
pub open spec fn group_items(label: Seq<char>, groups: Seq<Seq<char>>) -> Seq<MenuItemView> {
    Seq::new(
        groups.len(),
        |i: int| item(
            ActionView::LeaveGroup(groups[i]),
            "Take "@ + label + " out of group "@ + groups[i],
            "The host stays in the list"@,
        ),
    )
}

/// The menu of a host row.
pub open spec fn host_items(h: HostView) -> Seq<MenuItemView> {
    let label = host_label(h);
    seq![
        item(ActionView::Rename, "Rename "@ + label + "…"@, ""@),
        item(
            ActionView::Remove,
            "Remove "@ + label + " from the list"@,
            "The .conf files keep the address until you remove it there"@,
        ),
    ] + address_items(removable(h)) + (if h.groups.len() > 0 {
        seq![item(ActionView::Separator, ""@, ""@)] + group_items(label, h.groups)
    } else {
        Seq::empty()
    })
}

fn menu_item(action: Action, label: String, help: &str) -> (r: MenuItem)
    ensures
        r@ == item(action@, label@, help@),
{
    MenuItem { action, label, help: owned(help) }
}

fn push_item(items: &mut Vec<MenuItem>, m: MenuItem)
    ensures
        item_views(final(items)@) == item_views(old(items)@).push(m@),
{
    let ghost done = items@;
    items.push(m);
    assert(item_views(done.push(m)) =~= item_views(done).push(m@));
}

/// The menu of a host row: an item per address, since an `AllowedIPs` line
/// loses them one at a time, and an item per group.
pub fn host_menu(h: &Host) -> (r: Vec<MenuItem>)
    ensures
        item_views(r@) == host_items(h@),
{
    let label = h.label();
    let mut out: Vec<MenuItem> = Vec::new();
    push_item(&mut out, menu_item(Action::Rename, cat3("Rename ", label, "…"), ""));
    push_item(
        &mut out,
        menu_item(
            Action::Remove,
            cat3("Remove ", label, " from the list"),
            "The .conf files keep the address until you remove it there",
        ),
    );
    let ghost head = item_views(out@);
    let addresses = subtractions(h);
    let ghost a = texts(addresses@);
    let mut i: usize = 0;
    assert(head + address_items(a.take(0)) =~= head);
    while i < addresses.len()
        invariant
            a == texts(addresses@),
            i <= addresses@.len(),
            item_views(out@) == head + address_items(a.take(i as int)),
        decreases addresses@.len() - i,
    {
        push_item(
            &mut out,
            menu_item(
                Action::RemoveAddress(addresses[i].clone()),
                cat3("Remove address ", addresses[i].as_str(), " from the configs"),
                "Takes this one address out of every .conf, leaving the others",
            ),
        );
        i = i + 1;
        assert(item_views(out@) =~= head + address_items(a.take(i as int)));
    }
    assert(a.take(a.len() as int) =~= a);
    assert(texts(h.groups@).len() == h.groups@.len());
    if h.groups.len() > 0 {
        push_item(&mut out, menu_item(Action::Separator, owned(""), ""));
        let ghost upper = item_views(out@);
        let ghost g = texts(h.groups@);
        let mut k: usize = 0;
        assert(upper + group_items(label@, g.take(0)) =~= upper);
        while k < h.groups.len()
            invariant
                g == texts(h.groups@),
                label@ == host_label(h@),
                k <= h.groups@.len(),
                item_views(out@) == upper + group_items(label@, g.take(k as int)),
            decreases h.groups@.len() - k,
        {
            push_item(
                &mut out,
                menu_item(
                    Action::LeaveGroup(h.groups[k].clone()),
                    cat4("Take ", label, " out of group ", h.groups[k].as_str()),
                    "The host stays in the list",
                ),
            );
            k = k + 1;
            assert(item_views(out@) =~= upper + group_items(label@, g.take(k as int)));
        }
        assert(g.take(g.len() as int) =~= g);
    }
    assert(item_views(out@) =~= host_items(h@));
    out
}

/// The menu of a group.
pub open spec fn menu_of_group(s: StoreView, group: Seq<char>) -> Seq<MenuItemView> {
    seq![
        item(
            ActionView::GroupOutOfConfigs,
            "Remove group "@ + group + "'s addresses from the configs…"@,
            "Edits every .conf in the folder; the group and its hosts stay in the list"@,
        ),
        item(ActionView::Separator, ""@, ""@),
        item(
            ActionView::GroupOutOfList,
            "Remove group "@ + group + " from the list…"@,
            decimal(members(s.hosts, group).len())
                + " host(s) stay, just ungrouped — no .conf is touched"@,
        ),
        item(
            ActionView::GroupOutOfBoth,
            "Do both: take the addresses out and drop the group…"@,
            decimal(all_entries(members(s.hosts, group)).len())
                + " address(es) leave the .conf files and the group leaves the list"@,
        ),
    ]
}

/// The menu of a group.
pub fn group_menu(store: &HostStore, group: &str) -> (r: Vec<MenuItem>)
    ensures
        item_views(r@) == menu_of_group(store@, group@),
{
    let hosts: usize = store.hosts_in_group(group).len();
    let addresses = entries_from_group(store, group);
    assert(texts(addresses@).len() == addresses@.len());
    let mut out: Vec<MenuItem> = Vec::new();
    push_item(
        &mut out,
        menu_item(
            Action::GroupOutOfConfigs,
            cat3("Remove group ", group, "'s addresses from the configs…"),
            "Edits every .conf in the folder; the group and its hosts stay in the list",
        ),
    );
    push_item(&mut out, menu_item(Action::Separator, owned(""), ""));
    push_item(
        &mut out,
        menu_item(
            Action::GroupOutOfList,
            cat3("Remove group ", group, " from the list…"),
            cat2(
                count_text(hosts).as_str(),
                " host(s) stay, just ungrouped — no .conf is touched",
            ).as_str(),
        ),
    );
    push_item(
        &mut out,
        menu_item(
            Action::GroupOutOfBoth,
            owned("Do both: take the addresses out and drop the group…"),
            cat2(
                count_text(addresses.len()).as_str(),
                " address(es) leave the .conf files and the group leaves the list",
            ).as_str(),
        ),
    );
    assert(item_views(out@) =~= menu_of_group(store@, group@));
    out
}

// ---------------------------------------------------------------------------
// Adding hosts and groups
// ---------------------------------------------------------------------------

/// What was typed into the add box, split into targets. Commas, blanks and
/// line breaks all separate.
pub fn split_targets(text: &str) -> (r: Vec<String>)
    ensures
        texts(r@) == pieces(text@, Class::TargetSeparator),
{
    nonblank_pieces(text, Class::TargetSeparator)
}

/// The list after targets were added to it, in no group.
pub open spec fn targets_added(s: StoreView, targets: Seq<Seq<char>>) -> StoreView
    decreases targets.len(),
{
    if targets.len() == 0 {
        s
    } else {
        host_added(targets_added(s, targets.drop_last()), targets.last(), Seq::empty())
    }
}

/// Add what was typed to the list. Gives what is said of it.
pub fn add_typed(store: &mut HostStore, typed: &str) -> (r: String)
    ensures
        ({
            let targets = pieces(typed@, Class::TargetSeparator);
            &&& final(store)@ == targets_added(old(store)@, targets)
            &&& r@ == (if targets.len() == 0 {
                "Nothing to add — the box was empty."@
            } else {
                "Added "@ + decimal(targets.len())
                    + " host(s). They have no addresses yet — resolve next."@
            })
        }),
{
    let targets = split_targets(typed);
    let ghost all = texts(targets@);
    if targets.len() == 0 {
        return owned("Nothing to add — the box was empty.");
    }
    let none: Vec<String> = Vec::new();
    assert(texts(none@) =~= Seq::<Seq<char>>::empty());
    let mut i: usize = 0;
    while i < targets.len()
        invariant
            all == texts(targets@),
            texts(none@) == Seq::<Seq<char>>::empty(),
            i <= targets@.len(),
            store@ == targets_added(old(store)@, all.take(i as int)),
        decreases targets@.len() - i,
    {
        let ghost before = store@;
        {
            let _added = store.add_host(targets[i].as_str(), none.as_slice());
        }
        proof {
            let t = targets@[i as int]@;
            assert(all.take(i + 1).drop_last() =~= all.take(i as int));
            assert(all.take(i + 1).last() == t);
            lemma_host_index(before.hosts, trim(t));
            let new = host_added(before, t, Seq::empty());
            let at = host_index(before.hosts, trim(t)) as int;
            assert(new.hosts.update(at, new.hosts[at]) =~= new.hosts);
        }
        i = i + 1;
    }
    assert(all.take(all.len() as int) =~= all);
    cat3(
        "Added ",
        count_text(targets.len()).as_str(),
        " host(s). They have no addresses yet — resolve next.",
    )
}

/// Make a group of that name, if it is one. Gives what is said of it.
pub fn new_group(store: &mut HostStore, typed: &str) -> (r: String)
    ensures
        ({
            let name = trim(typed@);
            if name.len() == 0 {
                *final(store) == *old(store) && r@ == "A group needs a name."@
            } else {
                &&& final(store)@ == (StoreView {
                    groups: with_text(old(store)@.groups, name),
                    ..old(store)@
                })
                &&& r@ == "Group "@ + name
                    + " is ready. Select hosts and use \"Add selected hosts to group\"."@
            }
        }),
{
    let name = trimmed(typed);
    if name.as_str().is_empty() {
        return owned("A group needs a name.");
    }
    store.ensure_group(name.as_str());
    cat3(
        "Group ",
        name.as_str(),
        " is ready. Select hosts and use \"Add selected hosts to group\".",
    )
}

/// The hosts after those of some rows joined a group. A row that is not
/// there does not count.
pub open spec fn joined_group(
    hosts: Seq<HostView>,
    rows: Seq<usize>,
    group: Seq<char>,
) -> Seq<HostView>
    decreases rows.len(),
{
    if rows.len() == 0 {
        hosts
    } else {
        let done = joined_group(hosts, rows.drop_last(), group);
        let i = rows.last() as int;
        if i < done.len() {
            done.update(i, HostView { groups: with_text(done[i].groups, group), ..done[i] })
        } else {
            done
        }
    }
}

/// How many hosts were not in the group when their row came.
pub open spec fn newly_joined(
    hosts: Seq<HostView>,
    rows: Seq<usize>,
    group: Seq<char>,
) -> nat
    decreases rows.len(),
{
    if rows.len() == 0 {
        0
    } else {
        let done = joined_group(hosts, rows.drop_last(), group);
        let i = rows.last() as int;
        newly_joined(hosts, rows.drop_last(), group) + if i < done.len()
            && !done[i].groups.contains(group) {
            1nat
        } else {
            0nat
        }
    }
}

/// Add the hosts of the selected rows to a group. Gives what is said of it.
pub fn add_selected_to_group(store: &mut HostStore, rows: &[usize], group: &str) -> (r: String)
    ensures
        ({
            let moved = newly_joined(old(store)@.hosts, rows@, group@);
            &&& final(store)@ == (StoreView {
                hosts: joined_group(old(store)@.hosts, rows@, group@),
                groups: if moved > 0 {
                    with_text(old(store)@.groups, group@)
                } else {
                    old(store)@.groups
                },
                ..old(store)@
            })
            &&& r@ == decimal(moved) + " host(s) added to "@ + group@ + "."@
        }),
{
    let mut moved: usize = 0;
    let mut i: usize = 0;
    let total: usize = rows.len();
    while i < total
        invariant
            total == rows@.len(),
            i <= total,
            moved <= i,
            moved == newly_joined(old(store)@.hosts, rows@.take(i as int), group@),
            store@ == (StoreView {
                hosts: joined_group(old(store)@.hosts, rows@.take(i as int), group@),
                ..old(store)@
            }),
        decreases total - i,
    {
        let row: usize = rows[i];
        proof {
            assert(rows@.take(i + 1).drop_last() =~= rows@.take(i as int));
            assert(rows@.take(i + 1).last() == row);
        }
        if row < store.hosts.len() {
            let here: bool = has_member(store.hosts[row].groups.as_slice(), group);
            let h: &mut Host = &mut store.hosts[row];
            add_text(&mut h.groups, group);
            if !here {
                moved = moved + 1;
            }
            assert(store@.hosts =~= joined_group(
                old(store)@.hosts,
                rows@.take(i + 1),
                group@,
            ));
        }
        i = i + 1;
    }
    assert(rows@.take(rows@.len() as int) =~= rows@);
    if moved > 0 {
        store.ensure_group(group);
    }
    cat4(count_text(moved).as_str(), " host(s) added to ", group, ".")
}

/// What is said when a row is not there any more.
pub open spec fn row_gone() -> Seq<char> {
    "That row is gone — the list changed underneath."@
}

/// Take the host of a row out of one group. It stays in the list. Gives what
/// is said of it.
pub fn remove_row_from_group(store: &mut HostStore, row: usize, group: &str) -> (r: String)
    ensures
        if row < old(store)@.hosts.len() {
            let h = old(store)@.hosts[row as int];
            &&& final(store)@ == (StoreView {
                hosts: old(store)@.hosts.update(row as int, ungrouped(h, group@)),
                ..old(store)@
            })
            &&& r@ == host_label(h) + " is out of group "@ + group@
                + ". It is still in the list."@
        } else {
            *final(store) == *old(store) && r@ == row_gone()
        },
{
    if row >= store.hosts.len() {
        return owned("That row is gone — the list changed underneath.");
    }
    let label = owned(store.hosts[row].label());
    let ghost before = store@;
    let h: &mut Host = &mut store.hosts[row];
    remove_text(&mut h.groups, group);
    assert(store@.hosts =~= before.hosts.update(
        row as int,
        ungrouped(before.hosts[row as int], group@),
    ));
    cat4(label.as_str(), " is out of group ", group, ". It is still in the list.")
}

// ---------------------------------------------------------------------------
// Renaming and removing a host
// ---------------------------------------------------------------------------

/// What is asked for when a host is renamed.
pub fn rename_prompt(h: &Host) -> (r: String)
    ensures
        r@ == "Rename "@ + h@.target + "\n\nA domain or an address."@ + (if is_ip_or_network(
            h@.target,
        ) {
            "\n\nThis one is a literal address, so changing it to a domain is allowed — its cached addresses will be dropped and need resolving again."@
        } else {
            ""@
        }),
{
    let more: &str = if h.is_literal_ip() {
        "\n\nThis one is a literal address, so changing it to a domain is allowed — its cached addresses will be dropped and need resolving again."
    } else {
        ""
    };
    cat4("Rename ", h.target.as_str(), "\n\nA domain or an address.", more)
}

/// Rename the host of a row to what was typed. Gives what is said of it, and
/// whether the host was renamed.
pub fn rename_row(store: &mut HostStore, row: usize, typed: &str) -> (r: (String, bool))
    ensures
        ({
            let s = old(store)@;
            let old_target = s.hosts[row as int].target;
            let new = trim(typed@);
            let i = host_index(s.hosts, old_target) as int;
            if row >= s.hosts.len() {
                *final(store) == *old(store) && r.0@ == row_gone() && !r.1
            } else if new == old_target {
                *final(store) == *old(store) && r.0@ == "Unchanged."@ && !r.1
            } else if has_target(s.hosts, new) {
                &&& *final(store) == *old(store)
                &&& r.0@ == "Could not rename "@ + old_target + ": "@ + (new
                    + " is already in the list"@)
                &&& !r.1
            } else {
                &&& final(store)@ == (StoreView {
                    hosts: s.hosts.update(i, renamed_host(s.hosts[i], new)),
                    ..s
                })
                &&& r.0@ == "Renamed "@ + old_target + " to "@ + new + "."@
                &&& r.1
            }
        }),
{
    if row >= store.hosts.len() {
        return (owned("That row is gone — the list changed underneath."), false);
    }
    let old_target = store.hosts[row].target.clone();
    let new = trimmed(typed);
    if same(new.as_str(), old_target.as_str()) {
        return (owned("Unchanged."), false);
    }
    proof {
        lemma_trim(typed@);
        lemma_has_target(store@.hosts, old_target@, row as int);
    }
    match store.rename_host(old_target.as_str(), new.as_str()) {
        Ok(_) => (
            cat5("Renamed ", old_target.as_str(), " to ", new.as_str(), "."),
            true,
        ),
        Err(e) => (
            cat4("Could not rename ", old_target.as_str(), ": ", e.to_string().as_str()),
            false,
        ),
    }
}

/// What is asked before a host is removed from the list.
pub fn remove_question(h: &Host) -> (r: String)
    ensures
        r@ == "Remove "@ + host_label(h@)
            + " from the list?\n\nThis does not touch the .conf files — the address is still written into every one of them. To take it out of the configs, use \"Remove address … from the configs\"."@,
{
    cat3(
        "Remove ",
        h.label(),
        " from the list?\n\nThis does not touch the .conf files — the address is still written into every one of them. To take it out of the configs, use \"Remove address … from the configs\".",
    )
}

/// Remove the host of a row from the list. The configs are not touched.
/// Gives what is said of it.
pub fn remove_row(store: &mut HostStore, row: usize) -> (r: String)
    ensures
        ({
            let s = old(store)@;
            let h = s.hosts[row as int];
            if row >= s.hosts.len() {
                *final(store) == *old(store) && r@ == row_gone()
            } else {
                &&& final(store)@ == (StoreView {
                    hosts: s.hosts.remove(host_index(s.hosts, h.target) as int),
                    ..s
                })
                &&& r@ == "Removed "@ + host_label(h)
                    + " from the list. Its address is still in the .conf files."@
            }
        }),
{
    if row >= store.hosts.len() {
        return owned("That row is gone — the list changed underneath.");
    }
    let label = owned(store.hosts[row].label());
    let target = store.hosts[row].target.clone();
    proof {
        lemma_has_target(store@.hosts, target@, row as int);
    }
    match store.remove_host(target.as_str()) {
        Ok(_) => cat3(
            "Removed ",
            label.as_str(),
            " from the list. Its address is still in the .conf files.",
        ),
        Err(e) => cat4("Could not remove ", label.as_str(), ": ", e.to_string().as_str()),
    }
}

// ---------------------------------------------------------------------------
// Removing from the configs
// ---------------------------------------------------------------------------

/// What is asked before an address is removed from the configs, or said when
/// it is in none of them.
pub fn address_question(address: &str, entries: usize, files: usize) -> (r: Result<String, String>)
    ensures
        match r {
            Ok(q) => entries > 0 && q@ == "Remove "@ + address@ + " from the configs?\n\n"@
                + decimal(entries as nat) + " entr(ies) in "@ + decimal(files as nat)
                + " file(s) will lose it, and every other address on the same line stays. A .conf that would be left with an empty AllowedIPs is reported and not written.\n\nA .bak copy is made before the first change."@,
            Err(m) => entries == 0 && m@ == address@
                + " is not in any .conf in this folder — nothing to remove."@,
        },
{
    if entries == 0 {
        return Err(cat2(address, " is not in any .conf in this folder — nothing to remove."));
    }
    Ok(
        cat7(
            "Remove ",
            address,
            " from the configs?\n\n",
            count_text(entries).as_str(),
            " entr(ies) in ",
            count_text(files).as_str(),
            " file(s) will lose it, and every other address on the same line stays. A .conf that would be left with an empty AllowedIPs is reported and not written.\n\nA .bak copy is made before the first change.",
        ),
    )
}

/// The entries that removing a group takes out of the configs, or what is
/// said when there are none.
pub fn group_removal(store: &HostStore, group: &str) -> (r: Result<Vec<String>, String>)
    ensures
        ({
            let e = all_entries(members(store@.hosts, group@));
            match r {
                Ok(v) => e.len() > 0 && texts(v@) == e,
                Err(m) => e.len() == 0 && m@ == group@
                    + " has no addresses to remove — its hosts are unresolved, so nothing of it is in the configs yet."@,
            }
        }),
{
    let e = entries_from_group(store, group);
    assert(texts(e@).len() == e@.len());
    if e.len() == 0 {
        return Err(
            cat2(
                group,
                " has no addresses to remove — its hosts are unresolved, so nothing of it is in the configs yet.",
            ),
        );
    }
    Ok(e)
}

/// What is asked before a group's addresses are removed from the configs.
pub open spec fn group_question(
    group: Seq<char>,
    hosts: nat,
    entries: nat,
    found: nat,
    files: nat,
    purge: bool,
) -> Seq<char> {
    "Remove the addresses of group "@ + group + " from the configs?\n\nThe group holds "@ + decimal(
        hosts,
    ) + " host(s) and "@ + decimal(entries) + " address(es).\n"@ + decimal(found)
        + " of them are present in "@ + decimal(files)
        + " .conf file(s); every other address on those lines stays.\n\n"@ + (if purge {
        "The group "@ + group + " is then removed from the list as well."@
    } else {
        "The group and its hosts stay in the list — writing the configs again puts the addresses back."@
    }) + "\n\nA .bak copy is made next to each file before its first change."@
}

/// What is asked before a group's addresses are removed from the configs:
/// how much of the group is in how many files, and whether the group leaves
/// the list too.
pub fn ask_group_removal(
    store: &HostStore,
    group: &str,
    found: usize,
    files: usize,
    purge: bool,
) -> (r: String)
    ensures
        r@ == group_question(
            group@,
            members(store@.hosts, group@).len(),
            all_entries(members(store@.hosts, group@)).len(),
            found as nat,
            files as nat,
            purge,
        ),
{
    let hosts: usize = store.hosts_in_group(group).len();
    let e = entries_from_group(store, group);
    assert(texts(e@).len() == e@.len());
    let mut q: String = cat7(
        "Remove the addresses of group ",
        group,
        " from the configs?\n\nThe group holds ",
        count_text(hosts).as_str(),
        " host(s) and ",
        count_text(e.len()).as_str(),
        " address(es).\n",
    );
    q.append(count_text(found).as_str());
    q.append(" of them are present in ");
    q.append(count_text(files).as_str());
    q.append(" .conf file(s); every other address on those lines stays.\n\n");
    let after: String = if purge {
        cat3("The group ", group, " is then removed from the list as well.")
    } else {
        owned(
            "The group and its hosts stay in the list — writing the configs again puts the addresses back.",
        )
    };
    q.append(after.as_str());
    q.append("\n\nA .bak copy is made next to each file before its first change.");
    q
}

/// Names with the words of their failures.
pub open spec fn failures(errors: Seq<(String, String)>) -> Seq<Seq<char>> {
    Seq::new(errors.len(), |i: int| errors[i].0@ + " ("@ + errors[i].1@ + ")"@)
}

fn failure_list(errors: &Vec<(String, String)>) -> (r: String)
    ensures
        r@ == join(failures(errors@), ", "@),
{
    let mut out: Vec<String> = Vec::new();
    let mut i: usize = 0;
    while i < errors.len()
        invariant
            i <= errors@.len(),
            out@.len() == i,
            forall|k: int|
                0 <= k < i ==> (#[trigger] out@[k])@ == errors@[k].0@ + " ("@ + errors@[k].1@
                    + ")"@,
        decreases errors@.len() - i,
    {
        out.push(cat4(errors[i].0.as_str(), " (", errors[i].1.as_str(), ")"));
        i = i + 1;
    }
    assert(texts(out@) =~= failures(errors@));
    joined(out.as_slice(), ", ")
}

/// The sentence about a removal: the counts first, then the exceptions.
pub open spec fn removal_sentence(
    files: Seq<(String, ConfResult<String>)>,
    errors: Seq<(String, String)>,
    what: Seq<char>,
) -> Seq<char> {
    what + ": "@ + decimal(removed_total(files)) + " address(es) out of "@ + decimal(
        count(files, Kind::Written),
    ) + " file(s)."@ + (if count(files, Kind::Unchanged) > 0 {
        " "@ + decimal(count(files, Kind::Unchanged)) + " file(s) did not have them."@
    } else {
        ""@
    }) + (if count(files, Kind::Emptied) > 0 {
        " "@ + decimal(count(files, Kind::Emptied))
            + " file(s) would have been left with an empty AllowedIPs and were not written — they still have every address."@
    } else {
        ""@
    }) + (if errors.len() > 0 {
        " Failed: "@ + join(failures(errors), ", "@)
    } else {
        ""@
    })
}

/// The sentence about a removal, whose report names the files by their file
/// names.
pub fn removal_summary(report: &Report<String>, what: &str) -> (r: String)
    requires
        removed_total(report.files@) <= usize::MAX,
    ensures
        r@ == removal_sentence(report.files@, report.errors@, what@),
{
    let mut msg: String = cat5(
        what,
        ": ",
        count_text(report.removed()).as_str(),
        " address(es) out of ",
        count_text(report.written_confs()).as_str(),
    );
    msg.append(" file(s).");
    let unchanged: usize = report.unchanged_confs();
    let a: String = if unchanged > 0 {
        cat3(" ", count_text(unchanged).as_str(), " file(s) did not have them.")
    } else {
        owned("")
    };
    let emptied: usize = report.emptied();
    let b: String = if emptied > 0 {
        cat3(
            " ",
            count_text(emptied).as_str(),
            " file(s) would have been left with an empty AllowedIPs and were not written — they still have every address.",
        )
    } else {
        owned("")
    };
    let c: String = if report.errors.len() > 0 {
        cat2(" Failed: ", failure_list(&report.errors).as_str())
    } else {
        owned("")
    };
    msg.append(a.as_str());
    msg.append(b.as_str());
    msg.append(c.as_str());
    msg
}

/// The sentence about an apply, whose report names the files by their file
/// names.
pub fn apply_summary(report: &Report<String>) -> (r: String)
    ensures
        r@ == decimal(count(report.files@, Kind::Written)) + " file(s) written, "@ + decimal(
            count(report.files@, Kind::Unchanged),
        ) + " unchanged."@ + (if report.errors@.len() > 0 {
            " Failed: "@ + join(failures(report.errors@), ", "@)
        } else {
            ""@
        }),
{
    let mut msg: String = cat4(
        count_text(report.written()).as_str(),
        " file(s) written, ",
        count_text(report.unchanged()).as_str(),
        " unchanged.",
    );
    let c: String = if report.errors.len() > 0 {
        cat2(" Failed: ", failure_list(&report.errors).as_str())
    } else {
        owned("")
    };
    msg.append(c.as_str());
    msg
}

/// After a group's addresses left the configs, remove the group from the
/// list as well, and say so behind the summary.
pub fn purge_group(store: &mut HostStore, group: &str, summary: &str) -> (r: String)
    ensures
        if old(store)@.groups.contains(group@) {
            &&& final(store)@ == group_removed(old(store)@, group@)
            &&& r@ == summary@ + " Group "@ + group@ + " removed from the list; "@ + decimal(
                members(old(store)@.hosts, group@).len(),
            ) + " host(s) kept."@
        } else {
            &&& *final(store) == *old(store)
            &&& r@ == summary@ + " But removing group "@ + group@ + " failed: "@ + (
            "not found: "@ + ("group "@ + group@))
        },
{
    match store.remove_group(group) {
        Ok(n) => {
            let mut s: String = cat5(
                summary,
                " Group ",
                group,
                " removed from the list; ",
                count_text(n).as_str(),
            );
            s.append(" host(s) kept.");
            s
        },
        Err(e) => cat5(
            summary,
            " But removing group ",
            group,
            " failed: ",
            e.to_string().as_str(),
        ),
    }
}

/// What is asked before a group is removed from the list only.
pub fn ungroup_question(store: &HostStore, group: &str) -> (r: String)
    ensures
        r@ == "Remove group "@ + group@ + " from the list?\n\n"@ + decimal(
            members(store@.hosts, group@).len(),
        )
            + " host(s) stay in the list, just ungrouped. Every address of theirs stays in every .conf — use \"Remove group "@
            + group@ + "'s addresses from the configs…\" for that."@,
{
    let hosts: usize = store.hosts_in_group(group).len();
    cat7(
        "Remove group ",
        group,
        " from the list?\n\n",
        count_text(hosts).as_str(),
        " host(s) stay in the list, just ungrouped. Every address of theirs stays in every .conf — use \"Remove group ",
        group,
        "'s addresses from the configs…\" for that.",
    )
}

/// Remove a group from the list only. Gives what is said of it.
pub fn forget_group(store: &mut HostStore, group: &str) -> (r: String)
    ensures
        if old(store)@.groups.contains(group@) {
            &&& final(store)@ == group_removed(old(store)@, group@)
            &&& r@ == "Group "@ + group@ + " removed from the list; "@ + decimal(
                members(old(store)@.hosts, group@).len(),
            ) + " host(s) kept. The configs are untouched."@
        } else {
            &&& *final(store) == *old(store)
            &&& r@ == "Could not remove "@ + group@ + ": "@ + ("not found: "@ + ("group "@
                + group@))
        },
{
    match store.remove_group(group) {
        Ok(n) => cat5(
            "Group ",
            group,
            " removed from the list; ",
            count_text(n).as_str(),
            " host(s) kept. The configs are untouched.",
        ),
        Err(e) => cat4("Could not remove ", group, ": ", e.to_string().as_str()),
    }
}

// ---------------------------------------------------------------------------
// Resolving
// ---------------------------------------------------------------------------

/// The hosts that a pass found addresses for.
pub open spec fn resolved_count(outcomes: Seq<(String, Outcome)>) -> nat
    decreases outcomes.len(),
{
    if outcomes.len() == 0 {
        0
    } else {
        resolved_count(outcomes.drop_last()) + if outcomes.last().1 is Resolved {
            1nat
        } else {
            0nat
        }
    }
}

/// The hosts that a pass left alone because they had addresses.
pub open spec fn fresh_count(outcomes: Seq<(String, Outcome)>) -> nat
    decreases outcomes.len(),
{
    if outcomes.len() == 0 {
        0
    } else {
        fresh_count(outcomes.drop_last()) + if outcomes.last().1 is Fresh {
            1nat
        } else {
            0nat
        }
    }
}

/// The hosts that a pass left without addresses, with the words of the
/// failure.
pub open spec fn unresolved_names(outcomes: Seq<(String, Outcome)>) -> Seq<Seq<char>>
    decreases outcomes.len(),
{
    if outcomes.len() == 0 {
        Seq::empty()
    } else {
        let done = unresolved_names(outcomes.drop_last());
        let target = outcomes.last().0@;
        match outcomes.last().1@ {
            OutcomeView::Resolved(ips) => if ips.len() == 0 {
                done.push(target)
            } else {
                done
            },
            OutcomeView::Failed(e) => done.push(target + " ("@ + e + ")"@),
            OutcomeView::Fresh => done,
            OutcomeView::Literal => done,
        }
    }
}

/// The sentence about a resolve.
pub open spec fn resolve_sentence(outcomes: Seq<(String, Outcome)>) -> Seq<char> {
    let failed = unresolved_names(outcomes);
    if failed.len() == 0 {
        "Resolved "@ + decimal(resolved_count(outcomes)) + " domain(s)"@ + (if fresh_count(outcomes)
            > 0 {
            "; "@ + decimal(fresh_count(outcomes)) + " already had addresses"@
        } else {
            ""@
        }) + "."@
    } else {
        "Resolved "@ + decimal(resolved_count(outcomes)) + "; "@ + decimal(failed.len())
            + " failed: "@ + join(failed, ", "@)
    }
}

/// What is said while a resolve runs.
pub fn resolving_text(force: bool) -> (r: &'static str)
    ensures
        r@ == (if force {
            "Resolving every domain again…"@
        } else {
            "Resolving domains that have no addresses yet…"@
        }),
{
    if force {
        "Resolving every domain again…"
    } else {
        "Resolving domains that have no addresses yet…"
    }
}

/// The sentence about a resolve, naming the hosts that failed.
pub fn resolve_summary(outcomes: &Vec<(String, Outcome)>) -> (r: String)
    ensures
        r@ == resolve_sentence(outcomes@),
{
    let mut resolved: usize = 0;
    let mut fresh: usize = 0;
    let mut failed: Vec<String> = Vec::new();
    let mut i: usize = 0;
    assert(texts(failed@) =~= Seq::<Seq<char>>::empty());
    while i < outcomes.len()
        invariant
            i <= outcomes@.len(),
            resolved <= i,
            fresh <= i,
            resolved == resolved_count(outcomes@.take(i as int)),
            fresh == fresh_count(outcomes@.take(i as int)),
            texts(failed@) == unresolved_names(outcomes@.take(i as int)),
        decreases outcomes@.len() - i,
    {
        let ghost done = failed@;
        proof {
            assert(outcomes@.take(i + 1).drop_last() =~= outcomes@.take(i as int));
            assert(outcomes@.take(i + 1).last() == outcomes@[i as int]);
        }
        let target = outcomes[i].0.as_str();
        match &outcomes[i].1 {
            Outcome::Resolved(ips) => {
                resolved = resolved + 1;
                assert(texts(ips@).len() == ips@.len());
                if ips.len() == 0 {
                    let s = owned(target);
                    proof {
                        lemma_texts_push(done, s);
                    }
                    failed.push(s);
                }
            },
            Outcome::Failed(e) => {
                let s = cat4(target, " (", e.as_str(), ")");
                proof {
                    lemma_texts_push(done, s);
                }
                failed.push(s);
            },
            Outcome::Fresh => {
                fresh = fresh + 1;
            },
            Outcome::Literal => {},
        }
        i = i + 1;
    }
    assert(outcomes@.take(outcomes@.len() as int) =~= outcomes@);
    assert(texts(failed@).len() == failed@.len());
    if failed.len() == 0 {
        let more: String = if fresh > 0 {
            cat3("; ", count_text(fresh).as_str(), " already had addresses")
        } else {
            owned("")
        };
        cat5("Resolved ", count_text(resolved).as_str(), " domain(s)", more.as_str(), ".")
    } else {
        let mut s: String = cat5(
            "Resolved ",
            count_text(resolved).as_str(),
            "; ",
            count_text(failed.len()).as_str(),
            " failed: ",
        );
        s.append(joined(failed.as_slice(), ", ").as_str());
        s
    }
}

// ---------------------------------------------------------------------------
// Importing
// ---------------------------------------------------------------------------

/// The labels of hosts, in order.
pub open spec fn host_labels(hosts: Seq<HostView>) -> Seq<Seq<char>> {
    Seq::new(hosts.len(), |i: int| host_label(hosts[i]))
}

/// The first labels of an import, and how many more there are.
pub open spec fn import_preview(hosts: Seq<HostView>) -> Seq<char> {
    if hosts.len() > 8 {
        join(host_labels(hosts).take(8), ", "@) + (", and "@ + decimal((hosts.len() - 8) as nat)
            + " more"@)
    } else {
        join(host_labels(hosts), ", "@)
    }
}

/// What is asked before hosts are imported.
pub fn import_question(hosts: &Vec<Host>) -> (r: String)
    ensures
        ({
            let h = host_views(hosts@);
            r@ == "Import "@ + decimal(h.len()) + " host(s) from "@ + decimal(address_count(h))
                + " address(es)?\n\n"@ + import_preview(h)
                + "\n\nNames come from a reverse lookup where one exists, the network otherwise. Nothing is written to your .conf files until you press \"Write to all configs\"."@
        }),
{
    let ghost h = host_views(hosts@);
    let mut labels: Vec<String> = Vec::new();
    let mut i: usize = 0;
    while i < hosts.len() && i < 8
        invariant
            h == host_views(hosts@),
            i <= hosts@.len(),
            i <= 8,
            labels@.len() == i,
            forall|k: int| 0 <= k < i ==> (#[trigger] labels@[k])@ == host_label(h[k]),
        decreases hosts@.len() - i,
    {
        assert(h[i as int] == hosts@[i as int]@);
        labels.push(owned(hosts[i].label()));
        i = i + 1;
    }
    let mut preview: String = joined(labels.as_slice(), ", ");
    if hosts.len() > 8 {
        assert(texts(labels@) =~= host_labels(h).take(8));
        preview.append(cat3(", and ", count_text(hosts.len() - 8).as_str(), " more").as_str());
    } else {
        assert(texts(labels@) =~= host_labels(h));
    }
    cat7(
        "Import ",
        count_text(hosts.len()).as_str(),
        " host(s) from ",
        decimal_text(count_addresses(hosts)).as_str(),
        " address(es)?\n\n",
        preview.as_str(),
        "\n\nNames come from a reverse lookup where one exists, the network otherwise. Nothing is written to your .conf files until you press \"Write to all configs\".",
    )
}

/// Take imported hosts into the list, in no group. Gives what is said of it.
pub fn import_hosts(store: &mut HostStore, hosts: Vec<Host>, path: &str) -> (r: String)
    ensures
        ({
            let h = host_views(hosts@);
            &&& final(store)@ == (StoreView {
                base_conf: Some(path@),
                ..imported_into(old(store)@, h, Seq::empty())
            })
            &&& r@ == "Imported from "@ + path@ + ": "@ + decimal(
                newly_imported(old(store)@, h, Seq::empty()),
            ) + " new host(s). Resolve, then write to all configs."@
        }),
{
    let added: usize = apply_import(store, hosts, None);
    store.base_conf = Some(owned(path));
    cat5(
        "Imported from ",
        path,
        ": ",
        count_text(added).as_str(),
        " new host(s). Resolve, then write to all configs.",
    )
}

// ---------------------------------------------------------------------------
// Dialogs and menu ids
// ---------------------------------------------------------------------------

/// A number with its sign.
pub open spec fn signed(n: int) -> Seq<char> {
    if n < 0 {
        "-"@ + decimal((-n) as nat)
    } else {
        decimal(n as nat)
    }
}

fn signed_text(n: i32) -> (r: String)
    ensures
        r@ == signed(n as int),
{
    if n < 0 {
        cat2("-", decimal_text((-(n as i64)) as u128).as_str())
    } else {
        decimal_text(n as u128)
    }
}

/// What is said of a dialog whose result is neither of the two known ones.
pub fn odd_dialog_result(what: &str, got: i32, ok: i32, cancel: i32) -> (r: Option<String>)
    ensures
        text_option(r) == (if got == ok || got == cancel {
            None
        } else {
            Some(
                what@ + ": dialog returned "@ + signed(got as int) + ", which is neither OK ("@
                    + signed(ok as int) + ") nor Cancel ("@ + signed(cancel as int)
                    + "). The path was treated as not chosen."@,
            )
        }),
{
    if got == ok || got == cancel {
        return None;
    }
    let mut s: String = cat5(
        what,
        ": dialog returned ",
        signed_text(got).as_str(),
        ", which is neither OK (",
        signed_text(ok).as_str(),
    );
    s.append(") nor Cancel (");
    s.append(signed_text(cancel).as_str());
    s.append("). The path was treated as not chosen.");
    Some(s)
}

/// What is said of a menu click that carries an id never handed out, or
/// none.
pub fn unknown_menu_text(id: Option<i32>, first: i32, last: i32) -> (r: String)
    ensures
        r@ == "Menu click seen but not recognised ("@ + (match id {
            Some(n) => "id "@ + signed(n as int),
            None => "no id at all"@,
        }) + "); expected "@ + signed(first as int) + ".."@ + signed(last as int)
            + ". Report this line."@,
{
    let seen: String = match id {
        Some(n) => cat2("id ", signed_text(n).as_str()),
        None => owned("no id at all"),
    };
    cat7(
        "Menu click seen but not recognised (",
        seen.as_str(),
        "); expected ",
        signed_text(first).as_str(),
        "..",
        signed_text(last).as_str(),
        ". Report this line.",
    )
}

// ---------------------------------------------------------------------------
// Laws
// ---------------------------------------------------------------------------

proof fn lemma_power_is_power(n: nat)
    ensures
        power_of_two(n) == pow2(n),
    decreases n,
{
    if n == 0 {
        lemma2_to64();
    } else {
        lemma_power_is_power((n - 1) as nat);
        lemma_pow2_unfold(n);
    }
}

/// An entry is told to be a network if and only if its prefix is shorter
/// than a single host has, of 128 bits where the entry has a colon and of 32
/// where it has none. It has two addresses for the first bit that is left
/// open, and twice as many for every further one.
pub proof fn law_size_of_a_network(a: Seq<char>, n: nat)
    requires
        !contains_char(a, '/'),
        n <= u32::MAX,
    ensures
        ({
            let e = a + seq!['/'] + decimal(n);
            let bits = if contains_char(a, ':') {
                128nat
            } else {
                32
            };
            &&& n >= bits ==> network_note(e) is None
            &&& n < bits && bits - n < 128 ==> network_note(e) == Some(
                "a network: "@ + decimal(pow2((bits - n) as nat)) + " addresses (mask "@ + decimal(
                    n,
                ) + " bits)"@,
            )
            &&& n == 0 && bits == 128 ==> network_note(e) == Some(
                "a network: "@ + decimal(u128::MAX as nat) + " addresses (mask "@ + decimal(0)
                    + " bits)"@,
            )
        }),
        network_note(a) is None,
{
    let d = decimal(n);
    let e = a + seq!['/'] + d;
    law_parted_at_the_first(a, '/', d);
    lemma_decimal(n);
    law_number_from_digits(n, u32::MAX as nat, d);
    assert(is_digit(d[0]) && is_digit(d[d.len() - 1]));
    let none = Seq::<char>::empty();
    law_trim_takes_white_space(none, d, none);
    assert(none + d + none =~= d);
    assert(contains_char(e, ':') == contains_char(a, ':')) by {
        if contains_char(a, ':') {
            let k = choose|k: int| 0 <= k < a.len() && a[k] == ':';
            assert(e[k] == ':');
        }
        if contains_char(e, ':') {
            let k = choose|k: int| 0 <= k < e.len() && e[k] == ':';
            if k > a.len() {
                assert(is_digit(d[k - a.len() - 1]));
            }
            assert(a[k] == ':');
        }
    }
    if n < address_bits(e) {
        lemma_power_is_power((address_bits(e) - n) as nat);
    }
}

/// A row shows all addresses when they are three at most, and otherwise the
/// first and how many there are; without any, its state.
pub proof fn law_addresses_of_a_row(h: HostView)
    ensures
        h.ips.len() == 0 ==> address_column(h) == state_column(h),
        0 < h.ips.len() <= 3 ==> address_column(h) == join(h.ips, ", "@),
        h.ips.len() > 3 ==> h.ips[0].is_prefix_of(address_column(h)) && contains(
            address_column(h),
            decimal(h.ips.len()),
        ),
{
    if h.ips.len() > 3 {
        let c = address_column(h);
        assert(c.take(h.ips[0].len() as int) =~= h.ips[0]);
        law_contains_is_in_the_middle(c, decimal(h.ips.len()));
        assert(c == (h.ips[0] + " … ("@) + decimal(h.ips.len()) + " addresses)"@);
    }
}

/// An error shows before anything else; a row without one that came from a
/// template says so; and what is told of addresses are those of them that
/// are networks.
pub proof fn law_state_of_a_row(h: HostView, a: Seq<Seq<char>>, b: Seq<Seq<char>>, x: Seq<char>)
    ensures
        h.error matches Some(e) ==> state_column(h) == "failed: "@ + e,
        h.error is None && h.source == Source::Template ==> state_column(h) == "from template"@,
        h.error is None && h.source == Source::Manual && h.ips.len() == 0 ==> "not resolved"@
            .is_prefix_of(state_column(h)),
        h.error is None && h.source == Source::Manual && h.ips.len() > 0 ==> state_column(h)
            == join(network_notes(h.ips), "; "@),
        network_notes(a + b) == network_notes(a) + network_notes(b),
        network_notes(seq![x]) == (match network_note(x) {
            Some(n) => seq![n],
            None => Seq::empty(),
        }),
    decreases b.len(),
{
    if b.len() == 0 {
        assert(a + b =~= a);
        assert(network_notes(a) + network_notes(b) =~= network_notes(a));
    } else {
        law_state_of_a_row(h, a, b.drop_last(), x);
        assert((a + b).drop_last() =~= a + b.drop_last());
        assert((a + b).last() == b.last());
        assert(network_notes(a + b) =~= network_notes(a) + network_notes(b));
    }
    reveal_with_fuel(network_notes, 2);
    assert(seq![x].drop_last() =~= Seq::<Seq<char>>::empty());
    assert(seq![x].last() == x);
    assert(network_notes(seq![x]) =~= (match network_note(x) {
        Some(n) => seq![n],
        None => Seq::empty(),
    }));
    reveal_strlit("not resolved");
    reveal_strlit("not resolved — ");
    if h.error is None && h.source == Source::Manual && h.ips.len() == 0 {
        assert(state_column(h).take(12) =~= "not resolved"@);
    }
}

/// A template is shown with all its domains when they are three at most, and
/// otherwise with the first two and how many more there are.
pub proof fn law_cover_of_a_template(t: TemplateView)
    ensures
        t.domains.len() <= 3 ==> covered(t) == join(t.domains, ", "@),
        t.domains.len() > 3 ==> (t.domains[0] + ", "@ + t.domains[1] + " and "@).is_prefix_of(
            covered(t),
        ) && (decimal((t.domains.len() - 2) as nat) + " more"@).is_suffix_of(covered(t)),
{
    if t.domains.len() > 3 {
        let c = covered(t);
        let a = t.domains[0] + ", "@ + t.domains[1] + " and "@;
        let b = decimal((t.domains.len() - 2) as nat) + " more"@;
        assert(c.take(a.len() as int) =~= a);
        assert(c.skip(c.len() - b.len()) =~= b);
    }
}

/// Every address of a host can be taken out of the configs on its own, and
/// nothing else: the menu has one item for each, in the form that a removal
/// compares, sorted and each once.
pub proof fn law_every_address_can_be_removed(h: HostView, x: Seq<char>, a: Seq<char>)
    ensures
        h.ips.contains(x) ==> removable(h).contains(bare_address(x)),
        removable(h).contains(a) ==> exists|k: int|
            0 <= k < h.ips.len() && bare_address(#[trigger] h.ips[k]) == a,
        removable(h).no_duplicates(),
        forall|i: int, j: int|
            0 <= i < j < removable(h).len() ==> text_less(
                #[trigger] removable(h)[i],
                #[trigger] removable(h)[j],
            ),
        forall|k: int|
            0 <= k < removable(h).len() ==> (#[trigger] host_items(h)[2 + k]).action
                == ActionView::RemoveAddress(removable(h)[k]),
{
    let all = compared(entries(h.ips));
    law_sorting_keeps_every_text(all);
    if h.ips.contains(x) {
        let k = choose|k: int| 0 <= k < h.ips.len() && h.ips[k] == x;
        law_host_prefix_does_not_count(x);
        assert(all[k] == bare_address(x));
        assert(all.contains(bare_address(x)));
    }
    if removable(h).contains(a) {
        assert(all.contains(a));
        let k = choose|k: int| 0 <= k < all.len() && all[k] == a;
        law_host_prefix_does_not_count(h.ips[k]);
        assert(bare_address(h.ips[k]) == a);
    }
    assert forall|k: int| 0 <= k < removable(h).len() implies (
    #[trigger] host_items(h)[2 + k]).action == ActionView::RemoveAddress(removable(h)[k]) by {
        assert(address_items(removable(h))[k].action == ActionView::RemoveAddress(removable(h)[k]));
    }
}

/// The menu of a host lets it be renamed, be removed, and leave each of its
/// groups.
pub proof fn law_every_group_can_be_left(h: HostView, k: int)
    requires
        0 <= k < h.groups.len(),
    ensures
        ({
            let m = host_items(h);
            let n = removable(h).len();
            &&& m.len() == 3 + n + h.groups.len()
            &&& m[0].action == ActionView::Rename
            &&& m[1].action == ActionView::Remove
            &&& m[2 + n as int].action == ActionView::Separator
            &&& m[3 + n + k].action == ActionView::LeaveGroup(h.groups[k])
        }),
{
    assert(group_items(host_label(h), h.groups)[k].action == ActionView::LeaveGroup(h.groups[k]));
}

/// Typed targets are added one by one, in their order and in no group.
pub proof fn law_targets_are_added_one_by_one(
    s: StoreView,
    a: Seq<Seq<char>>,
    b: Seq<Seq<char>>,
    t: Seq<char>,
)
    ensures
        targets_added(s, a + b) == targets_added(targets_added(s, a), b),
        targets_added(s, seq![t]) == host_added(s, t, Seq::empty()),
        targets_added(s, Seq::empty()) == s,
    decreases b.len(),
{
    if b.len() == 0 {
        assert(a + b =~= a);
    } else {
        law_targets_are_added_one_by_one(s, a, b.drop_last(), t);
        assert((a + b).drop_last() =~= a + b.drop_last());
        assert((a + b).last() == b.last());
    }
    reveal_with_fuel(targets_added, 2);
    assert(seq![t].drop_last() =~= Seq::<Seq<char>>::empty());
    assert(seq![t].last() == t);
}

/// How many hosts are not in a group.
pub open spec fn outsiders(hosts: Seq<HostView>, group: Seq<char>) -> nat {
    hosts.filter(|h: HostView| !h.groups.contains(group)).len()
}

proof fn lemma_outsiders(hosts: Seq<HostView>, i: int, h: HostView, group: Seq<char>)
    requires
        0 <= i < hosts.len(),
        h.groups.contains(group),
    ensures
        outsiders(hosts, group) == outsiders(hosts.update(i, h), group) + (
        if hosts[i].groups.contains(group) {
            0int
        } else {
            1
        }),
    decreases hosts.len(),
{
    reveal(Seq::filter);
    let n = hosts.len() - 1;
    let new = hosts.update(i, h);
    if i == n {
        assert(new.drop_last() =~= hosts.drop_last());
        assert(new.last() == h);
    } else {
        lemma_outsiders(hosts.drop_last(), i, h, group);
        assert(new.drop_last() =~= hosts.drop_last().update(i, h));
        assert(new.last() == hosts.last());
    }
}

/// The hosts of the chosen rows are in the group afterwards, and keep their
/// other groups; every other host is as it was. As many are told to have
/// joined as were outside before and are not now.
pub proof fn law_chosen_rows_join(
    hosts: Seq<HostView>,
    rows: Seq<usize>,
    group: Seq<char>,
    k: int,
)
    requires
        0 <= k < hosts.len(),
    ensures
        ({
            let after = joined_group(hosts, rows, group);
            let h = hosts[k];
            &&& after.len() == hosts.len()
            &&& rows.contains(k as usize) && k <= usize::MAX ==> after[k] == (HostView {
                groups: if h.groups.contains(group) {
                    h.groups
                } else {
                    h.groups.push(group)
                },
                ..h
            })
            &&& !(exists|i: int| 0 <= i < rows.len() && #[trigger] rows[i] == k) ==> after[k] == h
            &&& outsiders(hosts, group) == outsiders(after, group) + newly_joined(
                hosts,
                rows,
                group,
            )
        }),
    decreases rows.len(),
{
    if rows.len() > 0 {
        let d = rows.drop_last();
        let i = rows.last() as int;
        let done = joined_group(hosts, d, group);
        let after = joined_group(hosts, rows, group);
        law_chosen_rows_join(hosts, d, group, k);
        if i < done.len() {
            let g = with_text(done[i].groups, group);
            let h = HostView { groups: g, ..done[i] };
            assert(g.contains(group)) by {
                if !done[i].groups.contains(group) {
                    assert(g[done[i].groups.len() as int] == group);
                }
            }
            lemma_outsiders(done, i, h, group);
        }
        if rows.contains(k as usize) && k <= usize::MAX {
            let m = choose|m: int| 0 <= m < rows.len() && rows[m] == k as usize;
            if m < d.len() {
                assert(d[m] == k as usize);
                assert(d.contains(k as usize));
                let g = done[k].groups;
                if !hosts[k].groups.contains(group) {
                    assert(g[hosts[k].groups.len() as int] == group);
                }
                assert(g.contains(group));
            } else {
                assert(i == k);
                if exists|j: int| 0 <= j < d.len() && #[trigger] d[j] == k {
                    let j = choose|j: int| 0 <= j < d.len() && #[trigger] d[j] == k;
                    assert(d.contains(k as usize));
                    let g = done[k].groups;
                    if !hosts[k].groups.contains(group) {
                        assert(g[hosts[k].groups.len() as int] == group);
                    }
                }
            }
        }
        if !(exists|j: int| 0 <= j < rows.len() && #[trigger] rows[j] == k) {
            assert(rows[rows.len() - 1] != k);
            assert forall|j: int| 0 <= j < d.len() implies #[trigger] d[j] != k by {
                assert(d[j] == rows[j]);
            }
        }
    }
}

proof fn lemma_four_parts(
    a: Seq<char>,
    b: Seq<char>,
    c: Seq<char>,
    d: Seq<char>,
    front: Seq<char>,
    said: Seq<char>,
)
    ensures
        a.is_prefix_of(a + b + c + d),
        d.is_suffix_of(a + b + c + d),
        c == front + said ==> contains(a + b + c + d, said),
{
    let s = a + b + c + d;
    assert(s.take(a.len() as int) =~= a);
    assert(s.skip(s.len() - d.len()) =~= d);
    if c == front + said {
        let k = (a.len() + b.len() + front.len()) as int;
        assert(s.subrange(k, k + said.len()) =~= said);
        assert(occurs_at(s, said, k));
    }
}

/// The sentence about a removal begins with what was removed, tells of files
/// that would have been emptied, and ends with what failed.
pub proof fn law_sentence_about_a_removal(
    files: Seq<(String, ConfResult<String>)>,
    errors: Seq<(String, String)>,
    what: Seq<char>,
)
    ensures
        ({
            let s = removal_sentence(files, errors, what);
            &&& (what + ": "@ + decimal(removed_total(files)) + " address(es) out of "@ + decimal(
                files.filter(|f: (String, ConfResult<String>)| f.1 is Written).len(),
            ) + " file(s)."@).is_prefix_of(s)
            &&& errors.len() > 0 ==> (" Failed: "@ + join(failures(errors), ", "@)).is_suffix_of(s)
            &&& files.filter(|f: (String, ConfResult<String>)| f.1 is Emptied).len() > 0
                ==> contains(
                s,
                decimal(files.filter(|f: (String, ConfResult<String>)| f.1 is Emptied).len())
                    + " file(s) would have been left with an empty AllowedIPs and were not written — they still have every address."@,
            )
        }),
{
    let s = removal_sentence(files, errors, what);
    let none = Seq::<(String, ConfResult<String>)>::empty();
    law_counts_are_over_all_files(files, none, files[0]);
    let a = what + ": "@ + decimal(removed_total(files)) + " address(es) out of "@ + decimal(
        count(files, Kind::Written),
    ) + " file(s)."@;
    let b = if count(files, Kind::Unchanged) > 0 {
        " "@ + decimal(count(files, Kind::Unchanged)) + " file(s) did not have them."@
    } else {
        ""@
    };
    let said = decimal(count(files, Kind::Emptied))
        + " file(s) would have been left with an empty AllowedIPs and were not written — they still have every address."@;
    let c = if count(files, Kind::Emptied) > 0 {
        " "@ + decimal(count(files, Kind::Emptied))
            + " file(s) would have been left with an empty AllowedIPs and were not written — they still have every address."@
    } else {
        ""@
    };
    let d = if errors.len() > 0 {
        " Failed: "@ + join(failures(errors), ", "@)
    } else {
        ""@
    };
    assert(s == a + b + c + d);
    assert(count(files, Kind::Emptied) > 0 ==> c =~= " "@ + said);
    lemma_four_parts(a, b, c, d, " "@, said);
}

/// A pass is told by how many hosts were resolved and how many had addresses
/// already; each host that it left without any is named, in list order.
pub proof fn law_counts_of_a_pass(
    a: Seq<(String, Outcome)>,
    b: Seq<(String, Outcome)>,
    o: (String, Outcome),
)
    ensures
        resolved_count(a) == a.filter(|o: (String, Outcome)| o.1 is Resolved).len(),
        fresh_count(a) == a.filter(|o: (String, Outcome)| o.1 is Fresh).len(),
        unresolved_names(a + b) == unresolved_names(a) + unresolved_names(b),
        unresolved_names(seq![o]) == (match o.1@ {
            OutcomeView::Failed(e) => seq![o.0@ + " ("@ + e + ")"@],
            OutcomeView::Resolved(ips) => if ips.len() == 0 {
                seq![o.0@]
            } else {
                Seq::empty()
            },
            _ => Seq::empty(),
        }),
    decreases a.len() + b.len(),
{
    reveal(Seq::filter);
    if a.len() > 0 {
        law_counts_of_a_pass(a.drop_last(), b, o);
    }
    if b.len() == 0 {
        assert(a + b =~= a);
        assert(unresolved_names(a) + unresolved_names(b) =~= unresolved_names(a));
    } else {
        law_counts_of_a_pass(a, b.drop_last(), o);
        assert((a + b).drop_last() =~= a + b.drop_last());
        assert((a + b).last() == b.last());
        assert(unresolved_names(a + b) =~= unresolved_names(a) + unresolved_names(b));
    }
    reveal_with_fuel(unresolved_names, 2);
    assert(seq![o].drop_last() =~= Seq::<(String, Outcome)>::empty());
    assert(seq![o].last() == o);
    assert(unresolved_names(seq![o]) =~= (match o.1@ {
        OutcomeView::Failed(e) => seq![o.0@ + " ("@ + e + ")"@],
        OutcomeView::Resolved(ips) => if ips.len() == 0 {
            seq![o.0@]
        } else {
            Seq::empty()
        },
        _ => Seq::empty(),
    }));
}

/// The preview of an import names every host when they are eight at most,
/// and otherwise the first eight and how many more there are.
pub proof fn law_preview_of_an_import(hosts: Seq<HostView>)
    ensures
        hosts.len() <= 8 ==> import_preview(hosts) == join(
            hosts.map_values(|h: HostView| host_label(h)),
            ", "@,
        ),
        hosts.len() > 8 ==> join(
            hosts.take(8).map_values(|h: HostView| host_label(h)),
            ", "@,
        ).is_prefix_of(import_preview(hosts)) && (decimal((hosts.len() - 8) as nat) + " more"@)
            .is_suffix_of(import_preview(hosts)),
{
    assert(host_labels(hosts) =~= hosts.map_values(|h: HostView| host_label(h)));
    if hosts.len() > 8 {
        let p = import_preview(hosts);
        let a = join(host_labels(hosts).take(8), ", "@);
        let b = decimal((hosts.len() - 8) as nat) + " more"@;
        assert(host_labels(hosts).take(8) =~= hosts.take(8).map_values(
            |h: HostView| host_label(h),
        ));
        assert(p.take(a.len() as int) =~= a);
        assert(p.skip(p.len() - b.len()) =~= b);
    }
}

/// A number is written with its digits, and a minus sign in front where it
/// is negative.
pub proof fn law_signed_numbers(n: int)
    ensures
        n >= 0 ==> digits_value(signed(n)) == n && all_digits(signed(n)),
        n < 0 ==> signed(n)[0] == '-' && digits_value(signed(n).skip(1)) == -n && all_digits(
            signed(n).skip(1),
        ),
{
    reveal_strlit("-");
    if n >= 0 {
        lemma_decimal(n as nat);
    } else {
        lemma_decimal((-n) as nat);
        assert(signed(n).skip(1) =~= decimal((-n) as nat));
    }
}

/// The sentence about a resolve tells how many hosts were resolved, and ends
/// with the names of those that failed, if any did.
pub proof fn law_sentence_about_a_resolve(outcomes: Seq<(String, Outcome)>)
    ensures
        ({
            let s = resolve_sentence(outcomes);
            let failed = unresolved_names(outcomes);
            &&& ("Resolved "@ + decimal(resolved_count(outcomes))).is_prefix_of(s)
            &&& failed.len() > 0 ==> (decimal(failed.len()) + " failed: "@ + join(
                failed,
                ", "@,
            )).is_suffix_of(s)
            &&& failed.len() == 0 && fresh_count(outcomes) > 0 ==> contains(
                s,
                decimal(fresh_count(outcomes)) + " already had addresses"@,
            )
        }),
{
    let s = resolve_sentence(outcomes);
    let failed = unresolved_names(outcomes);
    let a = "Resolved "@ + decimal(resolved_count(outcomes));
    assert(s.take(a.len() as int) =~= a);
    if failed.len() > 0 {
        let b = decimal(failed.len()) + " failed: "@ + join(failed, ", "@);
        assert(s.skip(s.len() - b.len()) =~= b);
    } else if fresh_count(outcomes) > 0 {
        let b = decimal(fresh_count(outcomes)) + " already had addresses"@;
        law_contains_is_in_the_middle(s, b);
        assert(s =~= (a + " domain(s)"@ + "; "@) + b + "."@);
    }
}

/// The menu of a group lets its addresses leave the configs, the group leave
/// the list, or both.
pub proof fn law_menu_of_a_group(s: StoreView, group: Seq<char>)
    ensures
        ({
            let m = menu_of_group(s, group);
            &&& m.len() == 4
            &&& m[0].action == ActionView::GroupOutOfConfigs
            &&& m[1].action == ActionView::Separator
            &&& m[2].action == ActionView::GroupOutOfList
            &&& m[3].action == ActionView::GroupOutOfBoth
            &&& contains(m[0].label, group)
            &&& contains(m[2].label, group)
            &&& decimal(s.hosts.filter(|h: HostView| h.groups.contains(group)).len()).is_prefix_of(
                m[2].help,
            )
        }),
{
    let m = menu_of_group(s, group);
    law_contains_is_in_the_middle(m[0].label, group);
    law_contains_is_in_the_middle(m[2].label, group);
    law_chosen_hosts(s.hosts, group);
    let n = decimal(members(s.hosts, group).len());
    assert(m[2].help.take(n.len() as int) =~= n);
}

/// The question before a group's addresses leave the configs tells whether
/// the group leaves the list as well.
pub proof fn law_question_about_a_group(
    group: Seq<char>,
    hosts: nat,
    entries: nat,
    found: nat,
    files: nat,
)
    ensures
        contains(
            group_question(group, hosts, entries, found, files, true),
            "The group "@ + group + " is then removed from the list as well."@,
        ),
        contains(
            group_question(group, hosts, entries, found, files, false),
            "The group and its hosts stay in the list — writing the configs again puts the addresses back."@,
        ),
        ("Remove the addresses of group "@ + group).is_prefix_of(
            group_question(group, hosts, entries, found, files, true),
        ),
{
    let q = group_question(group, hosts, entries, found, files, true);
    let r = group_question(group, hosts, entries, found, files, false);
    let a = "The group "@ + group + " is then removed from the list as well."@;
    let b = "The group and its hosts stay in the list — writing the configs again puts the addresses back."@;
    let front = "Remove the addresses of group "@ + group;
    law_contains_is_in_the_middle(q, a);
    law_contains_is_in_the_middle(r, b);
    let more = front + " from the configs?\n\nThe group holds "@ + decimal(hosts)
        + " host(s) and "@ + decimal(entries) + " address(es).\n"@ + decimal(found)
        + " of them are present in "@ + decimal(files)
        + " .conf file(s); every other address on those lines stays.\n\n"@;
    assert(q
        == more + a + "\n\nA .bak copy is made next to each file before its first change."@);
    assert(r
        == more + b + "\n\nA .bak copy is made next to each file before its first change."@);
    assert(q.take(front.len() as int) =~= front);
}

/// A host that was typed and has no addresses says so: an address waits to
/// be resolved, and a name has no address yet, unless it is a network.
pub proof fn law_state_of_an_unresolved_row(h: HostView)
    requires
        h.error is None,
        h.source == Source::Manual,
        h.ips.len() == 0,
    ensures
        is_ip_or_network(h.target) ==> state_column(h) == "not resolved"@,
        !is_ip_or_network(h.target) && !contains_char(h.target, '/') ==> state_column(h)
            == "not resolved — "@ + "no address yet"@,
{
    if !contains_char(h.target, '/') {
        law_parted_at_the_first(h.target, '/', h.target);
    }
}

} // verus!
