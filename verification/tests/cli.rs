//! The command line.

use wireutils::apply::{ConfResult, Report};
use wireutils::cli::{
    apply_lines, apply_verdict, conf_dir, conf_dir_lines, dry_run_lines, edit, import, init_line,
    parse, resolve_lines, resolve_verdict, search_lines, set_conf_dir, show_lines, take_groups,
    update_lines, wants_help, Command, Edit, USAGE,
};
use wireutils::hosts::{Host, HostStore};
use wireutils::import::Imported;
use wireutils::resolve::Outcome;
use wireutils::templates::{Catalog, Template, DEFAULT_CATALOG_URL};

fn strings(v: &[&str]) -> Vec<String> {
    v.iter().map(|s| s.to_string()).collect()
}

fn catalog() -> Catalog {
    Catalog {
        version: 1,
        templates: vec![Template {
            name: "t".into(),
            keywords: vec![],
            domains: strings(&["a.com", "b.com"]),
            ips: vec![],
        }],
    }
}

#[test]
fn groups_are_pulled_out_of_the_arguments() {
    let (groups, rest) = take_groups(&strings(&["x", "-g", "a", "y", "--group", "b", "-g"]));
    assert_eq!(groups, vec!["a", "b"]);
    assert_eq!(rest, vec!["x", "y", "-g"]);
    let (groups, rest) = take_groups(&strings(&["-g", "-g", "-g"]));
    assert_eq!(groups, vec!["-g"]);
    assert_eq!(rest, vec!["-g"]);
}

#[test]
fn commands_are_recognised() {
    assert_eq!(parse("init", &[]), Ok(Command::Init));
    assert_eq!(parse("show", &[]), Ok(Command::Show));
    assert_eq!(
        parse("set-conf-dir", &strings(&["d"])),
        Ok(Command::SetConfDir { dir: "d".into() })
    );
    assert_eq!(
        parse("add", &strings(&["-g", "a", "x.com", "-g", "b"])),
        Ok(Command::Edit(Edit::Add {
            target: "x.com".into(),
            groups: strings(&["a", "b"])
        }))
    );
    assert_eq!(
        parse("rm", &strings(&["x"])),
        Ok(Command::Edit(Edit::Remove { target: "x".into() }))
    );
    assert_eq!(
        parse("rename", &strings(&["x", "y"])),
        Ok(Command::Edit(Edit::Rename { old: "x".into(), new: "y".into() }))
    );
    assert_eq!(
        parse("group", &strings(&["add", "n"])),
        Ok(Command::Edit(Edit::GroupAdd { name: "n".into() }))
    );
    assert_eq!(
        parse("group", &strings(&["rm", "n"])),
        Ok(Command::Edit(Edit::GroupRemove { name: "n".into() }))
    );
    assert_eq!(
        parse("group", &strings(&["apply", "n"])),
        Ok(Command::Edit(Edit::GroupApply { name: "n".into() }))
    );
    assert_eq!(
        parse("resolve", &strings(&["--force"])),
        Ok(Command::Resolve { force: true })
    );
    assert_eq!(parse("apply", &[]), Ok(Command::Apply { dry_run: false }));
    assert_eq!(
        parse("import", &strings(&["f.conf", "-g", "a", "-g", "b"])),
        Ok(Command::Import { file: "f.conf".into(), group: Some("a".into()) })
    );
    assert_eq!(
        parse("templates", &[]),
        Ok(Command::Templates { query: "".into() })
    );
    assert_eq!(
        parse("templates-update", &[]),
        Ok(Command::TemplatesUpdate { url: DEFAULT_CATALOG_URL.into() })
    );
}

#[test]
fn what_is_missing_is_said() {
    let cases: Vec<(&str, Vec<String>, &str)> = vec![
        ("set-conf-dir", vec![], "set-conf-dir needs a folder"),
        ("add", strings(&["-g", "a"]), "add needs a domain or IP"),
        ("rm", vec![], "rm needs a domain or IP"),
        ("rename", vec![], "rename needs the old target"),
        ("rename", strings(&["a"]), "rename needs the new target"),
        ("group", vec![], "group needs add/rm/apply"),
        ("group", strings(&["zap"]), "group needs a name"),
        ("group", strings(&["zap", "n"]), "unknown group subcommand zap"),
        ("import", vec![], "import needs the path to a .conf file"),
    ];
    for (name, args, said) in cases {
        assert_eq!(parse(name, &args), Err(said.to_string()), "{name}");
    }
    assert_eq!(
        parse("zap", &[]),
        Err(format!("unknown command zap\n\n{USAGE}"))
    );
    assert!(USAGE.starts_with("wireutils — one host list, many WireGuard configs\n\nUsage:\n"));
}

#[test]
fn help_is_asked_for() {
    assert!(wants_help(&[]));
    assert!(wants_help(&strings(&["-h"])));
    assert!(wants_help(&strings(&["--help", "x"])));
    assert!(!wants_help(&strings(&["show", "-h"])));
}

#[test]
fn the_option_wins_over_the_folder_of_the_list() {
    let mut s = HostStore::default();
    assert_eq!(
        conf_dir(&s, None),
        Err("no conf folder set — run `wireutils set-conf-dir <dir>`".to_string())
    );
    s.conf_dir = Some("/wg".into());
    assert_eq!(conf_dir(&s, None), Ok("/wg".to_string()));
    assert_eq!(conf_dir(&s, Some("/x".into())), Ok("/x".to_string()));
}

#[test]
fn edits_change_the_list_and_say_so() {
    let mut s = HostStore::default();
    let c = catalog();
    let add = Edit::Add { target: "a.com".into(), groups: strings(&["g", "h"]) };
    assert_eq!(edit(&mut s, &add, &c), Ok(strings(&["added a.com", "group(s): g, h"])));
    let add = Edit::Add { target: " 1.1.1.1".into(), groups: vec![] };
    assert_eq!(edit(&mut s, &add, &c), Ok(strings(&["added  1.1.1.1"])));
    assert_eq!(s.hosts[1].target, "1.1.1.1");
    assert_eq!(
        edit(&mut s, &Edit::GroupRemove { name: "g".into() }, &c),
        Ok(strings(&["group g removed; 1 host(s) kept in the list"]))
    );
    assert_eq!(
        edit(&mut s, &Edit::GroupApply { name: "t".into() }, &c),
        Ok(strings(&["template t: 1 host(s) added"]))
    );
    assert_eq!(
        edit(&mut s, &Edit::Rename { old: "b.com".into(), new: "c.com ".into() }, &c),
        Ok(strings(&["renamed b.com to c.com "]))
    );
    assert_eq!(
        edit(&mut s, &Edit::Remove { target: "c.com".into() }, &c),
        Ok(strings(&["removed c.com"]))
    );
    assert_eq!(
        edit(&mut s, &Edit::GroupAdd { name: "new".into() }, &c),
        Ok(strings(&["group new added"]))
    );
    assert_eq!(s.groups, vec!["h", "t", "new"]);
    assert_eq!(s.hosts.len(), 2);
}

#[test]
fn edits_that_are_refused_change_nothing() {
    let mut s = HostStore::default();
    s.add_host("a.com", &[]);
    s.add_host("b.com", &[]);
    let before = s.clone();
    let c = catalog();
    let cases: Vec<(Edit, &str)> = vec![
        (Edit::Remove { target: "x".into() }, "not found: x"),
        (Edit::Rename { old: "x".into(), new: "y".into() }, "not found: x"),
        (
            Edit::Rename { old: "a.com".into(), new: "b.com".into() },
            "b.com is already in the list",
        ),
        (Edit::GroupRemove { name: "x".into() }, "not found: group x"),
        (Edit::GroupApply { name: "x".into() }, "no template named x"),
    ];
    for (e, said) in cases {
        assert_eq!(edit(&mut s, &e, &c), Err(said.to_string()));
        assert_eq!(s, before);
    }
}

#[test]
fn the_list_is_shown() {
    let mut s = HostStore::default();
    assert_eq!(
        show_lines(&s, "/p"),
        strings(&["store:      /p", "conf dir:   (not set)", "hosts:      (none)"])
    );
    s.conf_dir = Some("/wg".into());
    s.add_host("a.com", &strings(&["g", "h"]));
    s.add_address("b", &strings(&["1.1.1.1", "2.2.2.2"]), &[]);
    assert_eq!(
        show_lines(&s, "/p"),
        strings(&[
            "store:      /p",
            "conf dir:   /wg",
            "hosts:      2",
            "  a.com  [g, h]  (unresolved)",
            "  b  1.1.1.1 2.2.2.2",
            "groups:     g, h",
        ])
    );
}

#[test]
fn the_list_file_and_the_folder() {
    assert_eq!(init_line("/p", true), "/p already exists");
    assert_eq!(init_line("/p", false), "created /p");
    let mut s = HostStore::default();
    assert_eq!(
        set_conf_dir(&mut s, "/d", false),
        Err("/d is not a folder".to_string())
    );
    assert_eq!(s.conf_dir, None);
    assert_eq!(set_conf_dir(&mut s, "/d", true), Ok(()));
    assert_eq!(s.conf_dir.as_deref(), Some("/d"));
    assert_eq!(
        conf_dir_lines("/d", 3),
        strings(&["conf folder: /d", "3 .conf file(s) found"])
    );
}

#[test]
fn a_resolve_is_told_line_by_line() {
    let outcomes = vec![
        ("1.1.1.1".to_string(), Outcome::Literal),
        ("a".to_string(), Outcome::Fresh),
        ("b".to_string(), Outcome::Resolved(strings(&["1.1.1.1", "2.2.2.2"]))),
        ("c".to_string(), Outcome::Failed("no such host".into())),
    ];
    assert_eq!(
        resolve_lines(&outcomes),
        strings(&["a: cached", "b: 2 address(es)", "c: FAILED — no such host"])
    );
    let mut s = HostStore::default();
    s.add_host("c", &[]);
    assert_eq!(resolve_verdict(&s), Ok(()));
    s.hosts[0].error = Some("no such host".into());
    assert_eq!(
        resolve_verdict(&s),
        Err("some hosts could not be resolved".to_string())
    );
    s.hosts[0].ips = strings(&["1.1.1.1"]);
    assert_eq!(resolve_verdict(&s), Ok(()));
}

#[test]
fn an_apply_is_told_file_by_file() {
    let mut report = Report {
        files: vec![
            ("a".to_string(), ConfResult::Unchanged { removed: 0 }),
            ("b".to_string(), ConfResult::Written { removed: 1, backup: None }),
            ("c".to_string(), ConfResult::Emptied { removed: 12 }),
            ("d".to_string(), ConfResult::NoAllowedIps { removed: 0 }),
        ],
        errors: vec![("e".to_string(), "denied".to_string())],
    };
    assert_eq!(
        apply_lines(&report),
        strings(&[
            "a: unchanged",
            "b: written, 1 removed",
            "c: SKIPPED — every one of its 12 entries was being removed, and an empty AllowedIPs routes nothing",
            "d: SKIPPED — no AllowedIPs line",
            "e: ERROR — denied",
            "1 written, 1 unchanged",
        ])
    );
    assert_eq!(apply_verdict(&report), Err("1 file(s) failed".to_string()));
    report.errors.clear();
    assert_eq!(apply_verdict(&report), Ok(()));
    assert_eq!(
        dry_run_lines("1.1.1.1/32", &strings(&["x", "y"])),
        strings(&["AllowedIPs = 1.1.1.1/32", "would write x", "would write y"])
    );
}

#[test]
fn an_import_is_told() {
    let mut s = HostStore::default();
    let (lines, changed) = import(&mut s, Imported::FullTunnel, "f", None);
    assert_eq!(
        lines,
        strings(&[
            "f: full tunnel (0.0.0.0/0) — nothing to import",
            "a config that takes every address has no site list to take",
        ])
    );
    assert!(!changed);
    let (lines, changed) = import(&mut s, Imported::Nothing, "f", Some("g"));
    assert_eq!(lines, strings(&["f: no AllowedIPs to import"]));
    assert!(!changed);
    assert_eq!(s.base_conf, None);

    s.add_host("b", &[]);
    let mut a = Host::new("a");
    a.ips = strings(&["1.1.1.1", "2.2.2.2"]);
    let b = Host::new("b");
    let (lines, changed) = import(&mut s, Imported::Hosts(vec![a, b]), "f", Some("g"));
    assert_eq!(
        lines,
        strings(&[
            "f: 2 host(s) from 2 address(es)",
            "1 new, 1 already known",
            "group: g",
            "base config remembered as f",
            "note: addresses resolve normally — run `resolve` before `apply`",
        ])
    );
    assert!(changed);
    assert_eq!(s.base_conf.as_deref(), Some("f"));
    assert_eq!(s.groups, vec!["g"]);
}

#[test]
fn the_catalog_is_listed() {
    assert_eq!(
        search_lines(&catalog(), ""),
        strings(&["t — 2 host(s)", "  a.com", "  b.com"])
    );
    assert!(search_lines(&catalog(), "zzz").is_empty());
    assert_eq!(
        update_lines(4),
        vec![
            "catalog updated: 4 template(s)".to_string(),
            format!(
                "note: the catalog is compiled into this binary — rebuild to ship it, or point the GUI at {DEFAULT_CATALOG_URL}"
            ),
        ]
    );
}
