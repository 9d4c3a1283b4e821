//! Writing the list into the configs of a folder.

use wireutils::apply::{
    apply, apply_value, conf_files, plan_value, value_or_error, write_with_backup, ConfResult,
    DirEntry, Pass, Plan, Report, WriteStep,
};
use wireutils::hosts::{Error, HostStore};
use wireutils::subtract::{backup_path, temporary_path};
use wireutils::wgconf::WgConfig;

const CONF: &str = "[Interface]\nPrivateKey = aGVsbG8=\n\n[Peer]\nAllowedIPs = 0.0.0.0/0\nEndpoint = vpn.example.com:51820\n";

/// A folder in memory: names and texts.
struct Folder {
    files: Vec<(String, String)>,
}

impl Folder {
    fn new(files: &[(&str, &str)]) -> Self {
        Folder {
            files: files
                .iter()
                .map(|(n, t)| (n.to_string(), t.to_string()))
                .collect(),
        }
    }

    fn text(&self, name: &str) -> Option<&str> {
        self.files
            .iter()
            .find(|(n, _)| n == name)
            .map(|(_, t)| t.as_str())
    }

    fn put(&mut self, name: &str, text: &str) {
        self.files.retain(|(n, _)| n != name);
        self.files.push((name.to_string(), text.to_string()));
    }

    fn replace(&mut self, name: &str, text: &str) -> Result<Option<String>, String> {
        let bak = backup_path(name);
        let tmp = temporary_path(name);
        let mut made = None;
        for step in write_with_backup(self.text(&bak).is_some()) {
            match step {
                WriteStep::CopyToBackup => {
                    let old = self.text(name).unwrap().to_string();
                    self.put(&bak, &old);
                    made = Some(bak.clone());
                }
                WriteStep::WriteTemporary => self.put(&tmp, text),
                WriteStep::RenameOver => {
                    let new = self.text(&tmp).unwrap().to_string();
                    self.files.retain(|(n, _)| *n != tmp);
                    self.put(name, &new);
                }
            }
        }
        Ok(made)
    }

    fn run(&mut self, mut pass: Pass<String>) -> Report<String> {
        let entries = self
            .files
            .iter()
            .map(|(n, _)| DirEntry {
                path: n.clone(),
                name: n.clone().into_bytes(),
                is_file: true,
            })
            .collect();
        for name in conf_files(entries) {
            let text = self.text(&name).unwrap().to_string();
            if let Some(p) = pass.read(name.clone(), Ok(text)) {
                let outcome = self.replace(&name, &p.text);
                pass.written(p, outcome);
            }
        }
        pass.finish()
    }
}

#[test]
fn every_conf_in_the_folder_is_written_the_same() {
    let mut dir = Folder::new(&[("a.conf", CONF), ("b.conf", CONF), ("c.conf", CONF)]);
    let report = dir.run(apply_value("1.2.3.4/32"));
    assert_eq!(report.written(), 3);
    for n in ["a", "b", "c"] {
        let t = dir.text(&format!("{n}.conf")).unwrap();
        assert!(t.contains("AllowedIPs = 1.2.3.4/32"), "{n}: {t}");
        assert!(t.contains("PrivateKey = aGVsbG8="));
    }
}

#[test]
fn non_conf_files_are_left_alone() {
    let mut dir = Folder::new(&[("a.conf", CONF), ("notes.txt", "# AllowedIPs = 9.9.9.9\n")]);
    dir.run(apply_value("1.2.3.4/32"));
    assert_eq!(dir.text("notes.txt"), Some("# AllowedIPs = 9.9.9.9\n"));
}

#[test]
fn a_second_run_changes_nothing_on_disk() {
    let mut dir = Folder::new(&[("a.conf", CONF)]);
    dir.run(apply_value("1.2.3.4/32"));
    let first = dir.text("a.conf").unwrap().to_string();
    let report = dir.run(apply_value("1.2.3.4/32"));
    assert_eq!(report.unchanged(), 1);
    assert_eq!(report.written(), 0);
    assert_eq!(dir.text("a.conf").unwrap(), first);
}

#[test]
fn the_first_write_keeps_a_backup() {
    let mut dir = Folder::new(&[("a.conf", CONF)]);
    let report = dir.run(apply_value("1.2.3.4/32"));
    let bak = match &report.files[0].1 {
        ConfResult::Written { backup, .. } => backup.clone().unwrap(),
        other => panic!("{other:?}"),
    };
    assert_eq!(dir.text(&bak), Some(CONF));
}

#[test]
fn an_existing_backup_is_not_overwritten() {
    let mut dir = Folder::new(&[
        ("a.conf", CONF),
        ("a.conf.bak", "the owner's own rescue copy\n"),
    ]);
    dir.run(apply_value("1.2.3.4/32"));
    assert_eq!(dir.text("a.conf.bak"), Some("the owner's own rescue copy\n"));
}

#[test]
fn a_file_without_allowed_ips_is_reported_not_edited() {
    let mut dir = Folder::new(&[("a.conf", "[Interface]\nPrivateKey = x\n")]);
    let report = dir.run(apply_value("1.2.3.4/32"));
    assert_eq!(report.files[0].1, ConfResult::NoAllowedIps { removed: 0 });
    assert_eq!(dir.text("a.conf"), Some("[Interface]\nPrivateKey = x\n"));
    assert_eq!(dir.text("a.conf.bak"), None);
}

#[test]
fn an_empty_host_list_is_refused_rather_than_writing_nothing() {
    let store = HostStore::default();
    assert!(matches!(value_or_error(&store), Err(Error::Invalid(_))));
}

#[test]
fn an_unresolved_host_stops_the_apply_and_is_named() {
    let mut store = HostStore::default();
    store.add_host("api.openai.com", &[]);
    store.add_host("1.2.3.4", &[]);
    let err = value_or_error(&store).unwrap_err().to_string();
    assert!(err.contains("api.openai.com"), "{err}");
}

#[test]
fn a_fully_resolved_store_applies() {
    let mut dir = Folder::new(&[("a.conf", CONF)]);
    let mut store = HostStore::default();
    store.add_host("1.2.3.4", &[]);
    store.add_host("api.openai.com", &[]);
    // What `resolve` would have left behind for a literal address.
    store.hosts[0].ips = vec!["1.2.3.4".into()];
    store.hosts[1].ips = vec!["5.6.7.8".into(), "9.9.9.9".into()];
    let pass = match apply(&store) {
        Ok(pass) => pass,
        Err(e) => panic!("{e:?}"),
    };
    let report = dir.run(pass);
    assert_eq!(report.written(), 1);
    let t = dir.text("a.conf").unwrap();
    assert!(
        t.contains("AllowedIPs = 1.2.3.4/32, 5.6.7.8/32, 9.9.9.9/32"),
        "{t}"
    );
}

#[test]
fn conf_files_are_listed_sorted() {
    let entries = ["c", "a", "b"]
        .iter()
        .map(|n| DirEntry {
            path: format!("{n}.conf"),
            name: format!("{n}.conf").into_bytes(),
            is_file: true,
        })
        .collect();
    let names: Vec<String> = conf_files(entries);
    assert_eq!(names, vec!["a.conf", "b.conf", "c.conf"]);
}

#[test]
fn a_stale_subnet_label_is_dropped_on_the_next_import() {
    let mut store = HostStore::default();
    store.add_host("31.13.64.0/24", &[]);
    // The old shape: the label seeded itself as its own address.
    store.hosts[0].ips = vec!["31.13.64.0/24".into()];
    // The import brings the file's own addresses for that label.
    store.add_address("31.13.64.0/24", &["31.13.64.1/32".into()], &[]);
    assert_eq!(store.hosts[0].ips, vec!["31.13.64.1/32"]);
    assert!(value_or_error(&store).is_ok());
}

#[test]
fn a_label_displaced_by_an_import_leaves_the_host_unresolved() {
    let mut store = HostStore::default();
    store.add_host("31.13.64.0/24", &[]);
    // Whatever resolve filled in for the owner's own network.
    store.hosts[0].ips = vec!["31.13.64.0/24".into()];
    store.add_address("31.13.64.0/24", &[], &["chatgpt".to_string()]);
    assert!(store.hosts[0].ips.is_empty(), "the label is not a route");
    assert_eq!(store.hosts[0].groups, vec!["chatgpt"]);
}

#[test]
fn a_domain_with_no_addresses_is_refused() {
    let mut store = HostStore::default();
    store.add_host("instagram.com", &[]);
    let err = value_or_error(&store).unwrap_err().to_string();
    assert!(err.contains("instagram.com"), "{err}");
}

#[test]
fn the_words_of_each_refusal() {
    let mut store = HostStore::default();
    assert_eq!(
        value_or_error(&store).unwrap_err().to_string(),
        "the host list is empty — applying it would remove every route"
    );
    store.add_host("b.example.com", &[]);
    store.add_host("a.example.com", &[]);
    assert_eq!(
        value_or_error(&store).unwrap_err().to_string(),
        "these hosts have no addresses yet, run `resolve` first: b.example.com, a.example.com"
    );
    store.hosts[0].ips = vec!["z.com".into(), "a.com/24".into(), "1.1.1.1".into()];
    store.hosts[1].ips = vec!["a.com/24".into()];
    assert_eq!(
        value_or_error(&store).unwrap_err().to_string(),
        "these hosts would be written as names, not addresses: a.com/24, z.com/32 — resolve them first"
    );
    assert!(apply::<String>(&store).is_err());
}

#[test]
fn default_routes_are_no_names() {
    let mut store = HostStore::default();
    store.add_host("x.example.com", &[]);
    store.hosts[0].ips = vec!["::/0".into(), "0/0".into(), "0.0.0.0/0".into()];
    assert_eq!(value_or_error(&store).unwrap(), "::/0, 0/0, 0.0.0.0/0");
}

#[test]
fn a_prefix_that_its_family_does_not_have_is_refused() {
    let mut store = HostStore::default();
    store.add_host("x.example.com", &[]);
    store.hosts[0].ips = vec!["1.2.3.4/99".into(), "10.0.0.0/8".into()];
    assert_eq!(
        value_or_error(&store).unwrap_err().to_string(),
        "these hosts would be written as names, not addresses: 1.2.3.4/99 — resolve them first"
    );
}

#[test]
fn a_typed_address_without_an_address_stops_the_apply() {
    let mut store = HostStore::default();
    store.add_host("1.2.3.4", &[]);
    assert_eq!(
        value_or_error(&store).unwrap_err().to_string(),
        "these hosts have no addresses yet, run `resolve` first: 1.2.3.4"
    );
    assert!(store.unresolved().is_empty());
    store.hosts[0].ips = vec!["1.2.3.4".into()];
    assert_eq!(value_or_error(&store).unwrap(), "1.2.3.4/32");
}

#[test]
fn a_second_apply_over_a_folder_writes_nothing() {
    let mut files = vec![
        "AllowedIPs = 2.2.2.2\n".to_string(),
        "AllowedIPs = 1.1.1.1/32\r\n".to_string(),
        "X = y\n".to_string(),
        "allowedips=\nAllowedIPs = a\n".to_string(),
    ];
    let mut reports = Vec::new();
    let mut texts = Vec::new();
    for _ in 0..2 {
        let mut pass: Pass<usize> = apply_value("1.1.1.1/32");
        for (i, text) in files.iter_mut().enumerate() {
            if let Some(p) = pass.read(i, Ok(text.clone())) {
                *text = p.text.clone();
                pass.written(p, Ok(None));
            }
        }
        reports.push(pass.finish());
        texts.push(files.clone());
    }
    assert_eq!((reports[0].written(), reports[0].unchanged()), (2, 1));
    assert_eq!((reports[1].written(), reports[1].unchanged()), (0, 3));
    assert!(reports[1].errors.is_empty());
    assert_eq!(texts[0], texts[1]);
}

#[test]
fn only_files_named_conf_count() {
    let entry = |name: &str, is_file: bool| DirEntry {
        path: name.to_string(),
        name: name.as_bytes().to_vec(),
        is_file,
    };
    let found = conf_files(vec![
        entry("b.CONF", true),
        entry(".conf", true),
        entry("d.conf", false),
        entry("e.conf.bak", true),
        entry("fconf", true),
        entry("B.conf", true),
        entry("x.y.conf", true),
        entry("conf", true),
    ]);
    assert_eq!(found, vec!["B.conf", "b.CONF", "x.y.conf"]);
}

#[test]
fn one_broken_file_does_not_stop_the_pass() {
    let mut pass: Pass<u32> = apply_value("1.1.1.1/32");
    assert_eq!(pass.read(1, Err("denied".into())), None);
    let p = pass.read(2, Ok("AllowedIPs = 2.2.2.2\n".into())).unwrap();
    assert_eq!(p.text, "AllowedIPs = 1.1.1.1/32\n");
    assert_eq!(p.removed, 1);
    pass.written(p, Err("disk full".into()));
    let p = pass.read(3, Ok("AllowedIPs = 2.2.2.2\n".into())).unwrap();
    pass.written(p, Ok(Some(30)));
    assert_eq!(pass.read(4, Ok("AllowedIPs = 1.1.1.1/32\n".into())), None);
    let report = pass.finish();
    assert_eq!(
        report.files,
        vec![
            (3, ConfResult::Written { removed: 1, backup: Some(30) }),
            (4, ConfResult::Unchanged { removed: 0 }),
        ]
    );
    assert_eq!(
        report.errors,
        vec![(1, "denied".to_string()), (2, "disk full".to_string())]
    );
    assert_eq!(report.written(), 1);
    assert_eq!(report.unchanged(), 1);
    assert_eq!(report.removed(), 1);
    assert_eq!(report.emptied(), 0);
}

#[test]
fn a_value_that_differs_only_by_blanks_behind_it_is_unchanged() {
    assert_eq!(
        plan_value("AllowedIPs = 1.1.1.1/32   \n", "1.1.1.1/32"),
        Plan::Unchanged
    );
    assert_eq!(
        plan_value("AllowedIPs=1.1.1.1/32\n", "1.1.1.1/32"),
        Plan::Write { removed: 1, text: "AllowedIPs= 1.1.1.1/32\n".to_string() }
    );
    assert_eq!(plan_value("x\n", "1.1.1.1/32"), Plan::NoAllowedIps);
}

#[test]
fn a_backup_is_made_first_and_the_file_replaced_last() {
    assert_eq!(
        write_with_backup(false),
        vec![WriteStep::CopyToBackup, WriteStep::WriteTemporary, WriteStep::RenameOver]
    );
    assert_eq!(
        write_with_backup(true),
        vec![WriteStep::WriteTemporary, WriteStep::RenameOver]
    );
}

#[test]
fn every_line_of_a_written_config_lists_the_addresses_once() {
    let mut store = HostStore::default();
    store.add_address("a", &["1.1.1.1".into(), "10.0.0.0/8".into()], &[]);
    store.add_address("b", &["::1".into(), "1.1.1.1".into()], &[]);
    let value = value_or_error(&store).unwrap();
    let Plan::Write { text, .. } = plan_value("AllowedIPs = x\r\n\nallowedips=\n", &value) else {
        panic!("expected a write")
    };
    assert_eq!(
        text,
        "AllowedIPs = 1.1.1.1/32, 10.0.0.0/8, ::1/128\r\n\nallowedips= 1.1.1.1/32, 10.0.0.0/8, ::1/128\n"
    );
    let read = WgConfig::parse(&text).allowed_ips();
    assert_eq!(read, vec![value.clone(), value]);
}
