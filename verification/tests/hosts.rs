//! The host list.

use wireutils::hosts::{is_address, Error, Host, HostStore, Source};

fn strings(v: &[&str]) -> Vec<String> {
    v.iter().map(|s| s.to_string()).collect()
}

#[test]
fn a_literal_ip_is_its_own_address() {
    let h = Host::new("1.2.3.4");
    assert_eq!(h.ips, vec!["1.2.3.4"]);
    assert_eq!(h.allowed_entries(), vec!["1.2.3.4/32"]);
    assert!(h.is_literal_ip());
}

#[test]
fn an_ipv6_literal_gets_a_128() {
    let h = Host::new("2a00:1450:4001::1");
    assert_eq!(h.allowed_entries(), vec!["2a00:1450:4001::1/128"]);
}

#[test]
fn an_explicit_prefix_is_left_alone() {
    let h = Host::new("10.0.0.0/8");
    assert_eq!(h.allowed_entries(), vec!["10.0.0.0/8"]);
    assert!(h.is_literal_ip());
    assert_eq!(h.ips, vec!["10.0.0.0/8"]);
}

#[test]
fn a_cidr_with_an_absurd_prefix_is_treated_as_a_domain() {
    // `1.2.3.4/99` is not a network; it must not be written as one.
    assert!(!is_address("1.2.3.4/99"));
    assert!(!is_address("1.2.3.4/"));
    assert!(!is_address("example.com/32"));
    assert!(is_address("2001:db8::/32"));
    assert!(is_address("10.0.0.0/8"));
}

#[test]
fn a_domain_is_shown_by_name_and_resolved_later() {
    let h = Host::new("api.openai.com");
    assert_eq!(h.label(), "api.openai.com");
    assert!(!h.is_literal_ip());
    assert!(h.ips.is_empty());
    assert!(h.allowed_entries().is_empty());
}

#[test]
fn adding_the_same_target_twice_updates_instead_of_duplicating() {
    let mut s = HostStore::default();
    s.add_host("api.openai.com", &["chatgpt".into()]);
    s.add_host("api.openai.com", &["openai".into()]);
    assert_eq!(s.hosts.len(), 1);
    assert_eq!(s.hosts[0].groups, vec!["chatgpt", "openai"]);
    assert_eq!(s.groups, vec!["chatgpt", "openai"]);
}

#[test]
fn the_value_deduplicates_and_keeps_list_order() {
    let mut s = HostStore::default();
    s.add_host("1.2.3.4", &[]);
    s.add_host("5.6.7.8", &[]);
    s.add_host("1.2.3.4", &["g".into()]);
    // A typed address is not in `ips` until it is resolved, so the resolve
    // step is what the value reads from.
    for i in 0..s.hosts.len() {
        s.hosts[i].ips = vec![s.hosts[i].target.clone()];
    }
    assert_eq!(s.allowed_ips_value(), "1.2.3.4/32, 5.6.7.8/32");
}

#[test]
fn removing_a_group_keeps_its_hosts() {
    let mut s = HostStore::default();
    s.add_host("api.openai.com", &["chatgpt".into()]);
    s.add_host("chat.openai.com", &["chatgpt".into()]);
    assert_eq!(s.remove_group("chatgpt").unwrap(), 2);
    assert_eq!(s.hosts.len(), 2);
    assert!(s.hosts.iter().all(|h| h.groups.is_empty()));
    assert!(s.remove_group("chatgpt").is_err());
}

#[test]
fn renaming_across_a_kind_clears_stale_addresses() {
    let mut s = HostStore::default();
    s.add_host("api.openai.com", &[]);
    s.hosts[0].ips = vec!["1.2.3.4".into()];
    s.rename_host("api.openai.com", "1.1.1.1").unwrap();
    assert!(s.hosts[0].ips.is_empty());
}

#[test]
fn renaming_to_a_taken_name_is_refused() {
    let mut s = HostStore::default();
    s.add_host("a.example.com", &[]);
    s.add_host("b.example.com", &[]);
    assert!(matches!(
        s.rename_host("a.example.com", "b.example.com"),
        Err(Error::Invalid(_))
    ));
}

#[test]
fn a_domain_without_addresses_is_reported_as_unresolved() {
    let mut s = HostStore::default();
    s.add_host("a.example.com", &[]);
    s.add_host("1.2.3.4", &[]);
    let u = s.unresolved();
    assert_eq!(u.len(), 1);
    assert_eq!(u[0].target, "a.example.com");
}

#[test]
fn a_target_is_trimmed_and_gets_no_address_of_its_own() {
    let mut s = HostStore::default();
    let h = s.add_host("  10.0.0.0/8 ", &[]);
    assert_eq!(h.target, "10.0.0.0/8");
    assert!(h.ips.is_empty());
    assert_eq!(h.source, Source::Manual);
}

#[test]
fn an_address_added_again_loses_its_own_target_once_it_has_no_error() {
    let mut s = HostStore::default();
    s.add_host("10.0.0.0/8", &[]);
    s.hosts[0].ips = strings(&["10.0.0.0/8", "10.1.1.1"]);
    s.hosts[0].error = Some("no such host".into());
    s.add_host("10.0.0.0/8", &[]);
    assert_eq!(s.hosts[0].ips, vec!["10.0.0.0/8", "10.1.1.1"]);
    assert_eq!(s.hosts[0].error, None);
    s.add_host("10.0.0.0/8", &[]);
    assert_eq!(s.hosts[0].ips, vec!["10.1.1.1"]);
}

#[test]
fn a_domain_added_again_keeps_its_error_and_its_addresses() {
    let mut s = HostStore::default();
    s.add_host("a.example.com", &[]);
    s.hosts[0].ips = strings(&["1.1.1.1"]);
    s.hosts[0].error = Some("timed out".into());
    s.add_host("a.example.com", &[]);
    assert_eq!(s.hosts[0].error.as_deref(), Some("timed out"));
    assert_eq!(s.hosts[0].ips, vec!["1.1.1.1"]);
}

#[test]
fn addresses_that_come_with_a_host_are_kept_and_the_label_is_not() {
    let mut s = HostStore::default();
    s.add_host("31.13.64.0/24", &strings(&["a"]));
    s.hosts[0].ips = strings(&["31.13.64.0/24", "31.13.64.9/32"]);
    s.hosts[0].error = Some("x".into());
    s.add_address(
        "31.13.64.0/24",
        &strings(&["31.13.64.1/32", "31.13.64.9/32"]),
        &strings(&["b"]),
    );
    assert_eq!(s.hosts.len(), 1);
    assert_eq!(s.hosts[0].ips, vec!["31.13.64.9/32", "31.13.64.1/32"]);
    assert_eq!(s.hosts[0].groups, vec!["a", "b"]);
    assert_eq!(s.hosts[0].error, None);
    assert_eq!(s.hosts[0].source, Source::Manual);
    assert_eq!(s.groups, vec!["a", "b"]);
}

#[test]
fn a_new_host_with_addresses_comes_from_elsewhere() {
    let mut s = HostStore::default();
    let h = s.add_address("x", &strings(&["1.1.1.1", "1.1.1.1"]), &[]);
    assert_eq!(h.ips, vec!["1.1.1.1"]);
    assert_eq!(h.source, Source::Template);
}

#[test]
fn removing_a_host_gives_it_back() {
    let mut s = HostStore::default();
    s.add_host("a", &[]);
    s.add_host("b", &[]);
    assert_eq!(s.remove_host("a").unwrap().target, "a");
    assert_eq!(s.hosts.len(), 1);
    assert_eq!(s.remove_host("a"), Err(Error::NotFound("a".into())));
    assert_eq!(s.hosts[0].target, "b");
}

#[test]
fn renaming_within_a_kind_keeps_the_addresses() {
    let mut s = HostStore::default();
    s.add_host("a.example.com", &[]);
    s.hosts[0].ips = strings(&["1.1.1.1"]);
    s.hosts[0].error = Some("x".into());
    s.rename_host("a.example.com", " b.example.com ").unwrap();
    assert_eq!(s.hosts[0].target, "b.example.com");
    assert_eq!(s.hosts[0].ips, vec!["1.1.1.1"]);
    assert_eq!(s.hosts[0].error, None);
    assert_eq!(
        s.rename_host("zzz", "y"),
        Err(Error::NotFound("zzz".into()))
    );
    assert_eq!(
        s.rename_host("zzz", "b.example.com"),
        Err(Error::Invalid("b.example.com is already in the list".into()))
    );
}

#[test]
fn the_words_of_an_error() {
    assert_eq!(Error::Io("denied".into()).to_string(), "denied");
    assert_eq!(
        Error::Json("line 1".into()).to_string(),
        "hosts.json is corrupt: line 1"
    );
    assert_eq!(Error::NotFound("x".into()).to_string(), "not found: x");
    assert_eq!(Error::Invalid("no".into()).to_string(), "no");
    let mut s = HostStore::default();
    assert_eq!(
        s.remove_group("g").unwrap_err().to_string(),
        "not found: group g"
    );
}

#[test]
fn a_host_without_a_target_is_shown_by_its_first_address() {
    let mut h = Host::new("");
    assert_eq!(h.label(), "");
    h.ips = strings(&["9.9.9.9", "8.8.8.8"]);
    assert_eq!(h.label(), "9.9.9.9");
}

#[test]
fn a_group_without_hosts_stays_known() {
    let mut s = HostStore::default();
    s.ensure_group("g");
    s.ensure_group("g");
    assert_eq!(s.groups, vec!["g"]);
    assert!(s.hosts_in_group("g").is_empty());
    assert_eq!(s.remove_group("g").unwrap(), 0);
    assert!(s.groups.is_empty());
}

#[test]
fn removing_a_group_leaves_the_value_as_it_was() {
    let mut s = HostStore::default();
    s.add_address("a", &strings(&["1.1.1.1"]), &strings(&["g", "h"]));
    s.add_address("b", &strings(&["2.2.2.2"]), &strings(&["h"]));
    let before = s.allowed_ips_value();
    assert_eq!(s.remove_group("g").unwrap(), 1);
    assert_eq!(s.allowed_ips_value(), before);
    assert_eq!(s.hosts[0].groups, vec!["h"]);
}

#[test]
fn a_new_list_is_empty_and_has_a_version() {
    let s = HostStore::default();
    assert_eq!(s.version, 1);
    assert_eq!(s.conf_dir, None);
    assert_eq!(s.base_conf, None);
    assert_eq!(s.templates_updated, None);
    assert_eq!(s.allowed_ips_value(), "");
}
