//! The window.

use wireutils::apply::{ConfResult, Report};
use wireutils::gui::{
    add_selected_to_group, add_typed, address_question, addresses_cell, apply_summary,
    ask_group_removal, folder_line, forget_group, group_menu, group_removal, host_menu,
    import_hosts, import_question, mask_note, mask_words, new_group, odd_dialog_result,
    purge_group, removal_summary, remove_question, remove_row, remove_row_from_group,
    rename_prompt, rename_row, resolve_summary, resolving_text, row_cells, split_targets,
    state_cell, status_line, subtractions, template_cells, ungroup_question, unknown_menu_text,
    Action,
};
use wireutils::hosts::{Host, HostStore, Source};
use wireutils::resolve::Outcome;
use wireutils::templates::Template;

fn strings(v: &[&str]) -> Vec<String> {
    v.iter().map(|s| s.to_string()).collect()
}

fn host(target: &str, ips: &[&str], groups: &[&str]) -> Host {
    let mut h = Host::new(target);
    h.ips = strings(ips);
    h.groups = strings(groups);
    h
}

fn store(hosts: Vec<Host>, groups: &[&str]) -> HostStore {
    let mut s = HostStore::default();
    s.hosts = hosts;
    s.groups = strings(groups);
    s
}

const GONE: &str = "That row is gone — the list changed underneath.";

#[test]
fn a_prefix_length_is_said_in_words() {
    assert_eq!(
        mask_note("31.13.64.0/24").as_deref(),
        Some("a network: 256 addresses (mask 24 bits)")
    );
    assert_eq!(
        mask_note("10.0.0.0/ 31 ").as_deref(),
        Some("a network: 2 addresses (mask 31 bits)")
    );
    assert_eq!(
        mask_note("2001:db8::/64").as_deref(),
        Some("a network: 18446744073709551616 addresses (mask 64 bits)")
    );
    assert_eq!(
        mask_note("::/0").as_deref(),
        Some("a network: 340282366920938463463374607431768211455 addresses (mask 0 bits)")
    );
    assert_eq!(
        mask_note("::/1").as_deref(),
        Some("a network: 170141183460469231731687303715884105728 addresses (mask 1 bits)")
    );
    for none in ["1.2.3.4", "1.2.3.4/32", "::1/128", "a/b", "1.2.3.4/4294967296"] {
        assert_eq!(mask_note(none), None, "{none}");
    }
    assert_eq!(mask_words("a.com"), "no address yet");
    assert_eq!(
        mask_words("0.0.0.0/0"),
        "a network: 4294967296 addresses (mask 0 bits)"
    );
}

#[test]
fn a_row_shows_its_addresses() {
    assert_eq!(
        addresses_cell(&host("a", &[], &[])),
        "not resolved — no address yet",
        "a row without addresses says why"
    );
    assert_eq!(addresses_cell(&host("a", &["1", "2", "3"], &[])), "1, 2, 3");
    assert_eq!(
        addresses_cell(&host("a", &["1", "2", "3", "4"], &[])),
        "1 … (4 addresses)"
    );
    assert_eq!(
        row_cells(&host("a", &["1"], &["g", "h"])),
        ("a".to_string(), "g, h".to_string(), "1".to_string(), "".to_string())
    );
}

#[test]
fn a_row_says_why_it_is_not_in_the_tunnel() {
    let mut h = host("a.com", &[], &[]);
    assert_eq!(state_cell(&h), "not resolved — no address yet");
    h.error = Some("timed out".into());
    assert_eq!(state_cell(&h), "failed: timed out");
    h.error = None;
    h.source = Source::Template;
    assert_eq!(state_cell(&h), "from template");
    assert_eq!(state_cell(&host("1.2.3.4", &[], &[])), "not resolved");
    assert_eq!(
        state_cell(&host("a.com/24", &[], &[])),
        "not resolved — a network: 256 addresses (mask 24 bits)"
    );
    assert_eq!(
        state_cell(&host("a", &["10.0.0.0/30", "1.1.1.1", "10.0.0.8/31"], &[])),
        "a network: 4 addresses (mask 30 bits); a network: 2 addresses (mask 31 bits)"
    );
}

#[test]
fn a_template_shows_what_it_covers() {
    let mut t = Template {
        name: "t".into(),
        keywords: vec![],
        domains: strings(&["a", "b", "c"]),
        ips: strings(&["1", "2"]),
    };
    assert_eq!(
        template_cells(&t),
        ("t".to_string(), "a, b, c".to_string(), "2".to_string())
    );
    t.domains = strings(&["a", "b", "c", "d", "e"]);
    assert_eq!(template_cells(&t).1, "a, b and 3 more");
}

#[test]
fn the_lines_at_the_bottom() {
    assert_eq!(status_line("Ready.", 3), "Ready.   (3 hosts)");
    let mut s = HostStore::default();
    assert_eq!(folder_line(&s, "/p"), "Configs: (none chosen)   |   /p");
    s.conf_dir = Some("/d".into());
    assert_eq!(folder_line(&s, "/p"), "Configs: /d   |   /p");
}

#[test]
fn a_host_has_a_menu_item_per_address_and_group() {
    let h = host("a.com", &["2.2.2.2", "1.1.1.1/24", "1.1.1.1"], &["g"]);
    assert_eq!(subtractions(&h), vec!["1.1.1.1", "1.1.1.1/24", "2.2.2.2"]);
    let menu = host_menu(&h);
    let shown: Vec<(&Action, &str)> = menu.iter().map(|m| (&m.action, m.label.as_str())).collect();
    assert_eq!(
        shown,
        vec![
            (&Action::Rename, "Rename a.com…"),
            (&Action::Remove, "Remove a.com from the list"),
            (
                &Action::RemoveAddress("1.1.1.1".into()),
                "Remove address 1.1.1.1 from the configs"
            ),
            (
                &Action::RemoveAddress("1.1.1.1/24".into()),
                "Remove address 1.1.1.1/24 from the configs"
            ),
            (
                &Action::RemoveAddress("2.2.2.2".into()),
                "Remove address 2.2.2.2 from the configs"
            ),
            (&Action::Separator, ""),
            (&Action::LeaveGroup("g".into()), "Take a.com out of group g"),
        ]
    );
    assert_eq!(
        menu[2].help,
        "Takes this one address out of every .conf, leaving the others"
    );
    assert_eq!(host_menu(&host("a", &[], &[])).len(), 2);
}

#[test]
fn a_group_has_its_own_menu() {
    let s = store(
        vec![host("a", &["1.1.1.1", "2.2.2.2"], &["g"]), host("b", &[], &["g"])],
        &["g"],
    );
    let menu = group_menu(&s, "g");
    assert_eq!(menu[0].action, Action::GroupOutOfConfigs);
    assert_eq!(menu[0].label, "Remove group g's addresses from the configs…");
    assert_eq!(menu[1].action, Action::Separator);
    assert_eq!(menu[2].label, "Remove group g from the list…");
    assert_eq!(
        menu[2].help,
        "2 host(s) stay, just ungrouped — no .conf is touched"
    );
    assert_eq!(menu[3].action, Action::GroupOutOfBoth);
    assert_eq!(
        menu[3].help,
        "2 address(es) leave the .conf files and the group leaves the list"
    );
}

#[test]
fn several_targets_are_added_at_once() {
    assert_eq!(split_targets("a, b\r\nc\td;e"), vec!["a", "b", "c", "d;e"]);
    let mut s = HostStore::default();
    assert_eq!(add_typed(&mut s, " ,\n"), "Nothing to add — the box was empty.");
    assert_eq!(
        add_typed(&mut s, "a.com b.com, a.com"),
        "Added 3 host(s). They have no addresses yet — resolve next."
    );
    assert_eq!(s.hosts.len(), 2);
}

#[test]
fn groups_are_made_and_joined() {
    let mut s = store(vec![host("a", &[], &[]), host("b", &[], &["g"])], &[]);
    assert_eq!(new_group(&mut s, "  "), "A group needs a name.");
    assert!(s.groups.is_empty());
    assert_eq!(add_selected_to_group(&mut s, &[1, 7], "g"), "0 host(s) added to g.");
    assert!(s.groups.is_empty());
    assert_eq!(add_selected_to_group(&mut s, &[0, 1, 0], "g"), "1 host(s) added to g.");
    assert_eq!(s.groups, vec!["g"]);
    assert_eq!(
        new_group(&mut s, " h "),
        "Group h is ready. Select hosts and use \"Add selected hosts to group\"."
    );
    assert_eq!(s.groups, vec!["g", "h"]);
    assert_eq!(
        remove_row_from_group(&mut s, 1, "g"),
        "b is out of group g. It is still in the list."
    );
    assert!(s.hosts[1].groups.is_empty());
    assert_eq!(remove_row_from_group(&mut s, 2, "g"), GONE);
}

#[test]
fn a_row_is_renamed() {
    let mut s = store(vec![host("a.com", &["1.1.1.1"], &[]), host("b.com", &[], &[])], &[]);
    assert_eq!(rename_row(&mut s, 2, "x"), (GONE.to_string(), false));
    assert_eq!(rename_row(&mut s, 0, " a.com "), ("Unchanged.".to_string(), false));
    assert_eq!(
        rename_row(&mut s, 0, "b.com"),
        (
            "Could not rename a.com: b.com is already in the list".to_string(),
            false
        )
    );
    assert_eq!(
        rename_row(&mut s, 0, " c.com"),
        ("Renamed a.com to c.com.".to_string(), true)
    );
    assert_eq!(s.hosts[0].target, "c.com");
    assert_eq!(
        rename_prompt(&s.hosts[0]),
        "Rename c.com\n\nA domain or an address."
    );
    assert!(rename_prompt(&Host::new("1.1.1.1")).ends_with("need resolving again."));
}

#[test]
fn a_row_is_removed() {
    let mut s = store(vec![host("a.com", &[], &[]), host("b.com", &[], &[])], &[]);
    assert!(remove_question(&s.hosts[1]).starts_with("Remove b.com from the list?\n\n"));
    assert_eq!(
        remove_row(&mut s, 1),
        "Removed b.com from the list. Its address is still in the .conf files."
    );
    assert_eq!(s.hosts.len(), 1);
    assert_eq!(remove_row(&mut s, 1), GONE);
}

#[test]
fn an_address_is_asked_for_before_it_leaves_the_configs() {
    assert_eq!(
        address_question("1.1.1.1", 0, 0),
        Err("1.1.1.1 is not in any .conf in this folder — nothing to remove.".to_string())
    );
    let q = address_question("1.1.1.1", 3, 2).unwrap();
    assert!(q.starts_with(
        "Remove 1.1.1.1 from the configs?\n\n3 entr(ies) in 2 file(s) will lose it,"
    ));
}

#[test]
fn a_group_is_asked_for_before_it_leaves_the_configs() {
    let mut s = store(vec![host("a", &["1.1.1.1"], &["g"]), host("b", &[], &["h"])], &["g", "h"]);
    assert_eq!(group_removal(&s, "g"), Ok(strings(&["1.1.1.1/32"])));
    assert_eq!(
        group_removal(&s, "h"),
        Err("h has no addresses to remove — its hosts are unresolved, so nothing of it is in the configs yet.".to_string())
    );
    assert_eq!(
        ask_group_removal(&s, "g", 4, 3, false),
        "Remove the addresses of group g from the configs?\n\nThe group holds 1 host(s) and 1 address(es).\n4 of them are present in 3 .conf file(s); every other address on those lines stays.\n\nThe group and its hosts stay in the list — writing the configs again puts the addresses back.\n\nA .bak copy is made next to each file before its first change."
    );
    assert!(ask_group_removal(&s, "g", 4, 3, true).contains(
        "\n\nThe group g is then removed from the list as well.\n\n"
    ));
    assert_eq!(
        purge_group(&mut s, "g", "Done."),
        "Done. Group g removed from the list; 1 host(s) kept."
    );
    assert_eq!(
        purge_group(&mut s, "g", "Done."),
        "Done. But removing group g failed: not found: group g"
    );
    assert!(ungroup_question(&s, "h").starts_with("Remove group h from the list?\n\n1 host(s)"));
    assert_eq!(
        forget_group(&mut s, "h"),
        "Group h removed from the list; 1 host(s) kept. The configs are untouched."
    );
    assert_eq!(forget_group(&mut s, "h"), "Could not remove h: not found: group h");
}

#[test]
fn a_removal_is_summed_up() {
    let mut r: Report<String> = Report { files: vec![], errors: vec![] };
    assert_eq!(removal_summary(&r, "x"), "x: 0 address(es) out of 0 file(s).");
    r.files = vec![
        ("a".into(), ConfResult::Written { removed: 5, backup: None }),
        ("b".into(), ConfResult::Unchanged { removed: 0 }),
        ("c".into(), ConfResult::Emptied { removed: 2 }),
    ];
    r.errors = vec![("d".into(), "denied".into()), ("e".into(), "full".into())];
    assert_eq!(
        removal_summary(&r, "x removed"),
        "x removed: 5 address(es) out of 1 file(s). 1 file(s) did not have them. 1 file(s) would have been left with an empty AllowedIPs and were not written — they still have every address. Failed: d (denied), e (full)"
    );
    assert_eq!(
        apply_summary(&r),
        "1 file(s) written, 1 unchanged. Failed: d (denied), e (full)"
    );
}

#[test]
fn a_resolve_is_summed_up() {
    let mut outcomes = vec![
        ("a".to_string(), Outcome::Resolved(strings(&["1.1.1.1"]))),
        ("1.1.1.1".to_string(), Outcome::Literal),
    ];
    assert_eq!(resolve_summary(&outcomes), "Resolved 1 domain(s).");
    outcomes.push(("b".to_string(), Outcome::Fresh));
    assert_eq!(
        resolve_summary(&outcomes),
        "Resolved 1 domain(s); 1 already had addresses."
    );
    outcomes.push(("c".to_string(), Outcome::Failed("gone".into())));
    outcomes.push(("d".to_string(), Outcome::Resolved(vec![])));
    assert_eq!(resolve_summary(&outcomes), "Resolved 2; 2 failed: c (gone), d");
    assert_eq!(resolving_text(true), "Resolving every domain again…");
    assert_eq!(
        resolving_text(false),
        "Resolving domains that have no addresses yet…"
    );
}

#[test]
fn an_import_is_asked_for() {
    let few = vec![host("a", &["1", "2"], &[]), host("b", &["3"], &[])];
    assert!(import_question(&few)
        .starts_with("Import 2 host(s) from 3 address(es)?\n\na, b\n\nNames come from"));
    let many: Vec<Host> = (0..10).map(|i| host(&format!("h{i}"), &[], &[])).collect();
    assert!(import_question(&many)
        .contains("\n\nh0, h1, h2, h3, h4, h5, h6, h7, and 2 more\n\n"));
    let mut s = HostStore::default();
    assert_eq!(
        import_hosts(&mut s, few, "/f"),
        "Imported from /f: 2 new host(s). Resolve, then write to all configs."
    );
    assert_eq!(s.base_conf.as_deref(), Some("/f"));
}

#[test]
fn odd_numbers_from_the_toolkit_are_reported() {
    assert_eq!(odd_dialog_result("X", 5100, 5100, 5101), None);
    assert_eq!(odd_dialog_result("X", 5101, 5100, 5101), None);
    assert_eq!(
        odd_dialog_result("X", -1, 5100, 5101).as_deref(),
        Some("X: dialog returned -1, which is neither OK (5100) nor Cancel (5101). The path was treated as not chosen.")
    );
    assert_eq!(
        unknown_menu_text(Some(i32::MIN), 1, 9),
        "Menu click seen but not recognised (id -2147483648); expected 1..9. Report this line."
    );
    assert_eq!(
        unknown_menu_text(None, 1, 9),
        "Menu click seen but not recognised (no id at all); expected 1..9. Report this line."
    );
}
