//! The catalog of known sites.

use serde_json::Value;
use wireutils::fetch::{origin_of, Origin};
use wireutils::hosts::{HostStore, Source};
use wireutils::templates::{catalog_version, merge, parse, Catalog, Template};

fn strings(v: Option<&Value>) -> Result<Vec<String>, String> {
    match v {
        None => Ok(Vec::new()),
        Some(v) => v
            .as_array()
            .ok_or("not a list")?
            .iter()
            .map(|s| Ok(s.as_str().ok_or("not a text")?.to_string()))
            .collect(),
    }
}

fn template(v: &Value) -> Result<Template, String> {
    Ok(Template {
        name: match v.get("name") {
            Some(n) => n.as_str().ok_or("not a text")?.to_string(),
            None => String::new(),
        },
        keywords: strings(v.get("keywords"))?,
        domains: strings(v.get("domains"))?,
        ips: strings(v.get("ips"))?,
    })
}

fn decode(text: &str) -> Result<Catalog, String> {
    let v: Value = serde_json::from_str(text).map_err(|e| e.to_string())?;
    let version = match v.get("version") {
        Some(n) => n.as_u64().ok_or("not a number")? as u32,
        None => catalog_version(),
    };
    let templates = match v.get("templates") {
        Some(t) => t
            .as_array()
            .ok_or("not a list")?
            .iter()
            .map(template)
            .collect::<Result<Vec<Template>, String>>()?,
        None => Vec::new(),
    };
    Ok(Catalog { version, templates })
}

fn catalog() -> Catalog {
    decode(
        r#"{
          "version": 1,
          "templates": [
            {"name":"chatgpt","keywords":["openai","gpt"],"domains":["chat.openai.com","api.openai.com"]},
            {"name":"instagram","keywords":["meta","insta"],"domains":["instagram.com","cdninstagram.com"]},
            {"name":"github","keywords":["git"],"domains":["github.com"]}
          ]
        }"#,
    )
    .unwrap()
}

fn named(name: &str, domains: &[&str]) -> Template {
    Template {
        name: name.to_string(),
        keywords: vec![],
        domains: domains.iter().map(|s| s.to_string()).collect(),
        ips: vec![],
    }
}

#[test]
fn a_partial_name_finds_the_group() {
    let c = catalog();
    let hits = c.search("instagr");
    assert_eq!(hits.len(), 1);
    assert_eq!(hits[0].name, "instagram");
}

#[test]
fn a_keyword_finds_the_group() {
    let c = catalog();
    let hits = c.search("gpt");
    assert_eq!(hits[0].name, "chatgpt");
}

#[test]
fn an_exact_name_sorts_first() {
    let c = catalog();
    let hits = c.search("git");
    assert_eq!(hits[0].name, "github");
}

#[test]
fn an_empty_search_lists_everything() {
    assert_eq!(catalog().search("").len(), 3);
}

#[test]
fn applying_a_template_makes_one_group_of_several_domains() {
    let c = catalog();
    let mut s = HostStore::default();
    let added = c.apply(&mut s, "chatgpt").unwrap();
    assert_eq!(added, 2);
    assert_eq!(s.hosts_in_group("chatgpt").len(), 2);
    assert!(s.hosts.iter().all(|h| h.source == Source::Template));
}

#[test]
fn applying_twice_does_not_duplicate() {
    let c = catalog();
    let mut s = HostStore::default();
    c.apply(&mut s, "chatgpt").unwrap();
    let added = c.apply(&mut s, "chatgpt").unwrap();
    assert_eq!(added, 0);
    assert_eq!(s.hosts.len(), 2);
}

#[test]
fn a_template_ships_addresses_for_offline_use() {
    let c = decode(r#"{"templates":[{"name":"x","domains":["x.example.com"],"ips":["1.2.3.4"]}]}"#)
        .unwrap();
    let mut s = HostStore::default();
    c.apply(&mut s, "x").unwrap();
    assert_eq!(s.hosts[0].ips, vec!["1.2.3.4"]);
    assert_eq!(s.allowed_ips_value(), "1.2.3.4/32");
}

#[test]
fn an_unknown_template_is_an_error_not_a_silent_no_op() {
    let mut s = HostStore::default();
    assert!(catalog().apply(&mut s, "nope").is_err());
    assert!(s.hosts.is_empty());
}

#[test]
fn a_broken_update_is_refused() {
    assert!(parse(decode("not json")).is_err());
    assert!(parse(decode(r#"{"templates":[]}"#)).is_err());
    assert!(parse(decode(r#"{"templates":[{"name":"","domains":["a.com"]}]}"#)).is_err());
    assert!(parse(decode(r#"{"templates":[{"name":"ok","domains":[]}]}"#)).is_err());
}

#[test]
fn a_good_update_parses() {
    let c = parse(decode(r#"{"templates":[{"name":"ok","domains":["a.com"]}]}"#)).unwrap();
    assert_eq!(c.templates.len(), 1);
}

#[test]
fn a_template_without_a_name_costs_no_other() {
    let text = r#"{"templates":[{"domains":["a.com"]},{"name":"ok","domains":["b.com"],"new":1}]}"#;
    let c = parse(decode(text)).unwrap();
    assert_eq!(c.templates.len(), 1);
    assert_eq!(c.templates[0].name, "ok");
}

#[test]
fn an_update_cannot_delete_a_builtin_group() {
    let builtin = catalog();
    let updated =
        decode(r#"{"templates":[{"name":"chatgpt","domains":["chatgpt.com"]}]}"#).unwrap();
    let merged = merge(updated, builtin);
    assert!(merged.get("chatgpt").is_some());
    assert_eq!(merged.get("chatgpt").unwrap().domains, vec!["chatgpt.com"]);
    assert!(merged.get("instagram").is_some());
    assert!(merged.get("github").is_some());
}

#[test]
fn fetching_from_a_local_path_works() {
    assert_eq!(
        origin_of("/tmp/catalog.json"),
        Origin::File("/tmp/catalog.json".to_string())
    );
    let c = parse(decode(r#"{"templates":[{"name":"ok","domains":["a.com"]}]}"#)).unwrap();
    assert_eq!(c.templates.len(), 1);
}

#[test]
fn a_url_leads_to_a_file_or_a_server() {
    assert_eq!(origin_of("file:///x/y"), Origin::File("/x/y".to_string()));
    assert_eq!(origin_of("http://h/x"), Origin::Web("http://h/x".to_string()));
    assert_eq!(origin_of("https://h/x"), Origin::Web("https://h/x".to_string()));
    assert_eq!(origin_of("ftp://h/x"), Origin::File("ftp://h/x".to_string()));
}

#[test]
fn a_search_ranks_the_name_the_start_the_middle_and_the_keyword() {
    let c = Catalog {
        version: 1,
        templates: vec![
            Template { keywords: vec!["Git".into()], ..named("keyword", &["d"]) },
            named("legit", &["d"]),
            named("GITLAB", &["d"]),
            named("github", &["d"]),
            named("Git", &["d"]),
            named("other", &["d"]),
        ],
    };
    let names: Vec<&str> = c.search("  gIt ").iter().map(|t| t.name.as_str()).collect();
    assert_eq!(names, vec!["Git", "GITLAB", "github", "legit", "keyword"]);
    assert!(c.templates[0].matches("GIT"));
    assert!(!c.templates[5].matches("GIT"));
    assert!(c.templates[5].matches("  "));
}

#[test]
fn a_search_finds_what_matches_and_nothing_else() {
    let c = Catalog {
        version: 1,
        templates: vec![
            named("github", &["d"]),
            named("İstanbul", &["d"]),
            named("github", &["e"]),
            named("ΣΟΦΟΣ", &["d"]),
            Template { keywords: vec!["GITHUB".into()], ..named("code", &["d"]) },
            named("", &["d"]),
        ],
    };
    for needle in ["github", " GitHub", "İ", "i̇stanbul", "ΣΟΦΟΣ", "σοφος", "", "  ", "zzz"] {
        let found = c.search(needle);
        let matching: Vec<&Template> =
            c.templates.iter().filter(|t| t.matches(needle)).collect();
        assert_eq!(found.len(), matching.len(), "{needle:?}");
        assert!(matching.iter().all(|t| found.contains(t)), "{needle:?}");
    }
    let domains: Vec<&str> = c.search("github").iter().map(|t| t.domains[0].as_str()).collect();
    assert_eq!(domains, vec!["d", "e", "d"], "catalog order among equals");
    assert_eq!(c.search(" ").len(), 6);
}

#[test]
fn a_template_comes_in_as_one_group_and_leaves_the_rest() {
    let t = Template { ips: vec!["1.1.1.1".into()], ..named("t", &["a.com", "b.com", "a.com"]) };
    let c = Catalog { version: 1, templates: vec![t] };
    let mut s = HostStore::default();
    s.add_host("other.com", &["mine".to_string()]);
    s.add_host("b.com", &["mine".to_string()]);
    s.hosts[1].ips = vec!["5.5.5.5".into()];
    let other = s.hosts[0].clone();
    assert_eq!(c.apply(&mut s, "t"), Ok(1));
    assert_eq!(s.hosts.len(), 3);
    assert_eq!(s.hosts[0], other);
    assert_eq!(s.hosts[1].ips, vec!["5.5.5.5"]);
    assert_eq!(s.hosts[1].groups, vec!["mine", "t"]);
    assert_eq!(s.hosts[2].target, "a.com");
    assert!(s.hosts[1..]
        .iter()
        .all(|h| h.groups.contains(&"t".to_string()) && h.source == Source::Template));
    assert!(s.groups.contains(&"t".to_string()));
    let before = s.clone();
    assert_eq!(c.apply(&mut s, "nope"), Err("no template named nope".to_string()));
    assert_eq!(s, before);
}

#[test]
fn letters_beyond_ascii_are_found_in_either_case() {
    let c = Catalog { version: 1, templates: vec![named("ЯНДЕКС", &["ya.ru"])] };
    assert_eq!(c.search("яндекс").len(), 1);
}

#[test]
fn the_catalogs_addresses_are_a_fallback_not_an_override() {
    let t = Template { ips: vec!["1.1.1.1".into()], ..named("t", &["a.com", "b.com", "9.9.9.9"]) };
    let c = Catalog { version: 1, templates: vec![t] };
    let mut s = HostStore::default();
    s.add_host("a.com", &[]);
    s.hosts[0].ips = vec!["5.5.5.5".into()];
    assert_eq!(c.apply(&mut s, "t"), Ok(2));
    assert_eq!(s.hosts[0].ips, vec!["5.5.5.5"]);
    assert_eq!(s.hosts[1].ips, vec!["1.1.1.1"]);
    assert!(s.hosts[2].ips.is_empty());
    assert_eq!(s.groups, vec!["t"]);
    assert_eq!(
        c.apply(&mut s, "zzz"),
        Err("no template named zzz".to_string())
    );
}

#[test]
fn a_catalog_keeps_what_can_be_used() {
    let c = parse(Ok(Catalog {
        version: 7,
        templates: vec![named(" ", &["a"]), named("x", &[]), named("y", &["b"])],
    }))
    .unwrap();
    assert_eq!(c.version, 7);
    assert_eq!(c.templates.len(), 1);
    assert_eq!(c.templates[0].name, "y");
    assert_eq!(parse(Err("eof".into())).unwrap_err(), "eof");
    assert_eq!(
        parse(Ok(Catalog { version: 1, templates: vec![] })).unwrap_err(),
        "catalog has no usable templates"
    );
}

#[test]
fn a_merge_keeps_the_update_in_front() {
    let update = Catalog { version: 3, templates: vec![named("b", &["1"]), named("b", &["2"])] };
    let builtin = Catalog { version: 1, templates: vec![named("a", &["3"]), named("b", &["4"])] };
    let m = merge(update, builtin);
    let names: Vec<&str> = m.templates.iter().map(|t| t.name.as_str()).collect();
    assert_eq!(names, vec!["b", "b", "a"]);
    assert_eq!(m.version, 3);
    assert_eq!(m.get("b").unwrap().domains, vec!["1"]);
    assert!(m.get("c").is_none());
}

#[test]
fn a_second_apply_of_a_template_leaves_the_list_as_it_is() {
    let mut t = named("site", &["a.example", "1.2.3.4", "b.example", "a.example"]);
    t.ips = vec!["10.0.0.1".into()];
    let c = Catalog { version: 1, templates: vec![t] };
    let mut store = HostStore::default();
    store.add_host("b.example", &["mine".to_string()]);
    store.hosts[0].ips = vec!["10.0.0.9".into()];
    store.add_address("1.2.3.4", &["1.2.3.5".into()], &[]);
    assert_eq!(c.apply(&mut store, "site"), Ok(1));
    let once = (store.hosts.clone(), store.groups.clone());
    assert_eq!(c.apply(&mut store, "site"), Ok(0));
    assert_eq!((store.hosts.clone(), store.groups.clone()), once);
    assert_eq!(store.hosts.len(), 3);
    assert_eq!(store.hosts[2].ips, vec!["10.0.0.1"]);
}
