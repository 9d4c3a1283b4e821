//! Taking addresses out of the configs.

use wireutils::apply::{ConfResult, Pass, Plan, Report};
use wireutils::hosts::{Error, Host, HostStore};
use wireutils::subtract::{
    backup_path, bare, entries_from_group, entries_in, plan_removal, subtract, survey, temporary_path,
    Removals,
};
use wireutils::wgconf::WgConfig;

fn conf(ips: &str) -> String {
    format!(
        "[Interface]
PrivateKey = secret
Address = 10.9.0.2/32

[Peer]
PublicKey = abc
AllowedIPs = {ips}
Endpoint = vpn.example:51820
"
    )
}

fn removals(entries: &[&str]) -> Removals {
    let v: Vec<String> = entries.iter().map(|e| e.to_string()).collect();
    Removals::new(&v)
}

/// A removal from one file, which is kept in memory.
fn run(text: &mut String, backup: &mut Option<String>, r: &Removals) -> Report<&'static str> {
    let mut pass: Pass<&'static str> = match subtract(r) {
        Ok(p) => p,
        Err(e) => panic!("{e:?}"),
    };
    if let Some(p) = pass.read("a.conf", Ok(text.clone())) {
        let made = if backup.is_none() {
            *backup = Some(text.clone());
            Some("a.conf.bak")
        } else {
            None
        };
        *text = p.text.clone();
        pass.written(p, Ok(made));
    }
    pass.finish()
}

#[test]
fn one_address_leaves_the_others_on_the_line() {
    let mut text = conf("10.0.0.1/32, 10.0.0.2/32, 10.0.0.3/32");
    let r = run(&mut text, &mut None, &removals(&["10.0.0.2/32"]));
    assert_eq!(r.written(), 1);
    assert_eq!(r.removed(), 1);

    let after = WgConfig::parse(&text);
    assert_eq!(
        after.allowed_ips(),
        vec!["10.0.0.1/32, 10.0.0.3/32".to_string()]
    );
    assert!(
        text.contains("PrivateKey = secret"),
        "the rest of the file is untouched"
    );
    assert!(text.contains("Endpoint = vpn.example:51820"));
}

#[test]
fn a_prefix_of_the_same_length_is_the_same_route() {
    let mut text = conf("10.0.0.5, 10.0.0.6/32");
    let r = run(&mut text, &mut None, &removals(&["10.0.0.5/32"]));
    assert_eq!(r.removed(), 1, "the file says 10.0.0.5, the list says /32");
    let after = WgConfig::parse(&text);
    assert_eq!(after.allowed_ips(), vec!["10.0.0.6/32".to_string()]);
}

#[test]
fn a_file_with_nothing_to_remove_is_not_written() {
    let before = conf("10.0.0.1/32");
    let mut text = before.clone();
    let mut backup = None;
    let r = run(&mut text, &mut backup, &removals(&["192.168.1.1/32"]));
    assert_eq!(r.written(), 0);
    assert_eq!(r.unchanged(), 1);
    assert_eq!(text, before);
    assert!(backup.is_none(), "no backup for a file we did not touch");
}

#[test]
fn a_file_whose_every_entry_is_removed_is_left_alone() {
    let before = conf("10.0.0.1/32");
    let mut text = before.clone();
    let r = run(&mut text, &mut None, &removals(&["10.0.0.1/32"]));
    assert_eq!(r.written(), 0, "an empty AllowedIPs routes nothing");
    assert_eq!(r.emptied(), 1);
    assert_eq!(text, before);
}

#[test]
fn the_first_removal_keeps_a_backup_and_a_second_does_not_overwrite_it() {
    let mut text = conf("10.0.0.1/32, 10.0.0.2/32");
    let mut backup = None;
    run(&mut text, &mut backup, &removals(&["10.0.0.1/32"]));
    let first = backup.clone().unwrap();
    assert!(
        first.contains("10.0.0.1/32"),
        "the backup holds the original"
    );
    run(&mut text, &mut backup, &removals(&["10.0.0.2/32"]));
    assert_eq!(backup.unwrap(), first);
}

#[test]
fn a_folder_without_allowed_ips_is_reported_not_edited() {
    let mut text = "[Interface]\nPrivateKey = x\n".to_string();
    let mut backup = None;
    let r = run(&mut text, &mut backup, &removals(&["10.0.0.1/32"]));
    assert_eq!(r.files.len(), 1);
    assert!(matches!(r.files[0].1, ConfResult::NoAllowedIps { .. }));
    assert!(backup.is_none());
}

#[test]
fn an_empty_selection_is_refused_rather_than_deleting_nothing_quietly() {
    let nothing = subtract::<u8>(&Removals::new(&Vec::<String>::new()));
    match nothing {
        Ok(_) => panic!("expected a refusal"),
        Err(e) => assert_eq!(
            e,
            Error::Invalid("nothing to remove: the selection has no addresses".into())
        ),
    }
}

#[test]
fn a_group_contributes_every_address_its_hosts_would_write() {
    let mut store = HostStore::default();
    store.add_host("example.com", &["github".to_string()]);
    {
        let h = store
            .hosts
            .iter_mut()
            .find(|h| h.target == "example.com")
            .unwrap();
        h.ips = vec!["10.1.1.1".into(), "10.1.1.2".into()];
    }
    store.add_host("10.2.2.2", &["github".to_string()]);
    store.add_host("10.3.3.3", &["other".to_string()]);

    let entries = entries_from_group(&store, "github");
    let r = Removals::new(&entries);
    assert!(r.matches("10.1.1.1/32"));
    assert!(r.matches("10.1.1.2/32"));
    assert!(
        r.matches("10.1.1.1"),
        "a prefix in the config is not required"
    );
    // `10.2.2.2` was added with `add_host`, which does not put the target
    // into the addresses, so the group has the domain's two and no more.
    assert!(
        !r.matches("10.2.2.2"),
        "an unresolved literal is not in the list"
    );
    assert!(!r.matches("10.3.3.3/32"), "another group's address stays");
    assert!(!r.matches("10.3.3.3"));
}

#[test]
fn the_survey_counts_what_a_removal_would_touch() {
    let texts = vec![conf("10.0.0.1/32, 10.0.0.2/32"), conf("10.0.0.2/32")];
    let (entries, files) = survey(&texts, &removals(&["10.0.0.2/32"]));
    assert_eq!((entries, files), (2, 2));
}

#[test]
fn a_survey_skips_files_without_a_hit() {
    let texts = vec![conf("10.0.0.1, 10.0.0.1/32"), conf("10.0.0.1/24"), "x".to_string()];
    assert_eq!(survey(&texts, &removals(&["10.0.0.1"])), (2, 1));
    assert_eq!(survey(&[], &removals(&["10.0.0.1"])), (0, 0));
}

#[test]
fn a_set_of_removals_holds_each_address_once() {
    let r = removals(&["10.0.0.1/32", " 10.0.0.1 ", "", "/32", "::1/128"]);
    assert_eq!(r.len(), 2);
    assert!(!r.is_empty());
    assert!(r.matches(" 10.0.0.1 /32"));
    assert!(!r.matches("10.0.0.1/8"));
    assert!(r.matches("::1"));
    assert!(Removals::default().is_empty());
    assert_eq!(Removals::default().len(), 0);
    assert!(r.clone().matches("::1"));
}

#[test]
fn the_entries_of_one_host_are_removed() {
    let mut h = Host::new("example.com");
    h.ips = vec!["10.0.0.1".into(), "10.0.0.0/24".into()];
    let r = Removals::from_host(&h);
    assert_eq!(r.len(), 2);
    assert!(r.matches("10.0.0.1/32"));
    assert!(r.matches("10.0.0.0/24"));
    assert!(!r.matches("10.0.0.0"));
}

#[test]
fn a_typed_address_stands_for_itself_until_it_has_others() {
    let mut h = Host::new("10.2.2.2");
    h.ips = vec![];
    let r = Removals::from_host(&h);
    assert_eq!(r.len(), 1);
    assert!(r.matches("10.2.2.2/32"));
    h.ips = vec!["10.2.2.3".into()];
    let r = Removals::from_host(&h);
    assert!(r.matches("10.2.2.3"));
    assert!(!r.matches("10.2.2.2"));
    h.target = "10.2.2.0/24".into();
    h.ips = vec![];
    assert!(Removals::from_host(&h).matches("10.2.2.0/24"));
    h.target = "example.com".into();
    assert!(Removals::from_host(&h).is_empty());
}

#[test]
fn only_the_prefix_of_a_single_host_does_not_count() {
    let r = removals(&["10.0.0.0/32"]);
    assert!(!r.matches("10.0.0.0/8"));
    assert!(r.matches("10.0.0.0"));
    assert!(r.matches("10.0.0.0/32"));
    let r = removals(&["2001:db8::"]);
    assert!(r.matches("2001:db8::/128"));
    assert!(!r.matches("2001:db8::/32"));
    assert_eq!(bare(" 10.0.0.0/32 "), "10.0.0.0");
    assert_eq!(bare("10.0.0.0/8"), "10.0.0.0/8");
    assert_eq!(bare("::1/128"), "::1");
    assert_eq!(bare("2001:db8::/32"), "2001:db8::/32");
    assert_eq!(bare("10.0.0.0/132"), "10.0.0.0/132");
}

#[test]
fn empty_entries_of_a_line_do_not_count() {
    assert_eq!(
        entries_in("AllowedIPs = a,,b ,\nX = y\nAllowedIPs = c\n"),
        Some(vec!["a".to_string(), "b".to_string(), "c".to_string()])
    );
    assert_eq!(entries_in("X = y\n"), None);
    assert_eq!(entries_in("AllowedIPs =\n"), Some(vec![]));
}

#[test]
fn each_line_loses_its_own_entries() {
    let text = "[Peer]\nAllowedIPs = 10.0.0.1/32, 10.0.0.2/32\n\n[Peer]\nAllowedIPs = 10.0.0.3/32\n";
    let plan = plan_removal(text, &removals(&["10.0.0.2/32"]));
    assert_eq!(
        plan,
        Plan::Write {
            removed: 1,
            text: "[Peer]\nAllowedIPs = 10.0.0.1/32\n\n[Peer]\nAllowedIPs = 10.0.0.3/32\n"
                .to_string()
        }
    );
    let Plan::Write { text, .. } = plan else {
        panic!("expected a write")
    };
    assert_eq!(plan_removal(&text, &removals(&["10.0.0.2/32"])), Plan::Unchanged);
    assert_eq!(plan_removal("X\n", &removals(&["a"])), Plan::NoAllowedIps);
}

#[test]
fn a_line_that_loses_nothing_keeps_every_byte() {
    let text = "allowedips=  c ,d \r\n AllowedIPs =a, b,  e\r\nX = b ";
    assert_eq!(
        plan_removal(text, &removals(&["b"])),
        Plan::Write {
            removed: 1,
            text: "allowedips=  c ,d \r\n AllowedIPs = a, e\r\nX = b ".to_string()
        }
    );
}

#[test]
fn a_file_with_a_line_that_would_be_emptied_is_left_alone() {
    let text = "AllowedIPs = a\nAllowedIPs = b, c\n";
    assert_eq!(
        plan_removal(text, &removals(&["a", "b"])),
        Plan::Emptied { removed: 2 }
    );
    assert_eq!(
        plan_removal(text, &removals(&["a", "b", "c"])),
        Plan::Emptied { removed: 3 }
    );
    // A line that was empty before is no reason to leave the file alone.
    assert_eq!(
        plan_removal("AllowedIPs =\nAllowedIPs = b, c\n", &removals(&["b"])),
        Plan::Write {
            removed: 1,
            text: "AllowedIPs =\nAllowedIPs = c\n".to_string()
        }
    );
}

#[test]
fn only_what_was_written_counts_as_removed() {
    let report: Report<u8> = Report {
        files: vec![
            (1, ConfResult::Written { removed: 2, backup: None }),
            (2, ConfResult::Emptied { removed: 3 }),
            (3, ConfResult::Unchanged { removed: 0 }),
        ],
        errors: vec![],
    };
    assert_eq!(report.removed(), 2);
}

#[test]
fn a_second_removal_over_a_folder_writes_nothing() {
    let r = removals(&["10.0.0.1", "10.0.0.9"]);
    let mut files = vec![
        conf("10.0.0.1/32, 10.0.0.2/32"),
        conf("10.0.0.1/32"),
        conf("10.0.0.3/32"),
        "X\n".to_string(),
        "AllowedIPs = 10.0.0.9, =10.0.0.4\n".to_string(),
    ];
    let (entries, hit) = survey(&files, &r);
    let mut reports = Vec::new();
    let mut texts = Vec::new();
    for _ in 0..2 {
        let mut pass: Pass<usize> = match subtract(&r) {
            Ok(p) => p,
            Err(e) => panic!("{e:?}"),
        };
        for (i, text) in files.iter_mut().enumerate() {
            if let Some(p) = pass.read(i, Ok(text.clone())) {
                *text = p.text.clone();
                pass.written(p, Ok(None));
            }
        }
        reports.push(pass.finish());
        texts.push(files.clone());
    }
    assert_eq!(reports[0].written(), 2);
    assert_eq!(reports[0].emptied(), 1);
    assert_eq!(reports[0].unchanged(), 1);
    assert_eq!(hit, reports[0].written() + reports[0].emptied());
    assert_eq!((entries, reports[0].removed()), (3, 2));
    assert_eq!(reports[1].written(), 0);
    assert_eq!(reports[1].emptied(), 1);
    assert_eq!(reports[1].unchanged(), 3);
    assert!(reports[1].errors.is_empty());
    assert_eq!(texts[0], texts[1]);
}

#[test]
fn a_sign_in_front_of_an_entry_is_not_read_back() {
    let text = "AllowedIPs = a, =b, c\n";
    let Plan::Write { text, removed } = plan_removal(text, &removals(&["a"])) else {
        panic!("expected a write")
    };
    assert_eq!((text.as_str(), removed), ("AllowedIPs = =b, c\n", 1));
    assert_eq!(
        entries_in(&text),
        Some(vec!["b".to_string(), "c".to_string()])
    );
}

#[test]
fn names_beside_a_config() {
    assert_eq!(backup_path("a.conf"), "a.conf.bak");
    assert_eq!(backup_path("A.CONF"), "A.conf.bak");
    assert_eq!(backup_path("x.y.conf"), "x.y.conf.bak");
    assert_eq!(backup_path("plain"), "plain.conf.bak");
    assert_eq!(backup_path(".conf"), ".conf.conf.bak");
    assert_eq!(temporary_path("a.conf"), "a.conf.tmp");
}
