//! Names to addresses.

use wireutils::hosts::{Host, HostStore};
use wireutils::resolve::{
    resolve_all, seed_addresses, settle, FakeResolver, Outcome, Resolver, SystemResolver,
};

fn store_with(targets: &[&str]) -> HostStore {
    let mut s = HostStore::default();
    for t in targets {
        s.add_host(t, &[]);
    }
    s
}

#[test]
fn a_domain_gets_its_addresses() {
    let mut s = store_with(&["api.openai.com"]);
    let r = FakeResolver::new(&[("api.openai.com", &["1.2.3.4", "5.6.7.8"])]);
    let out = resolve_all(&mut s, &r, false);
    assert_eq!(
        out[0].1,
        Outcome::Resolved(vec!["1.2.3.4".into(), "5.6.7.8".into()])
    );
    assert_eq!(s.hosts[0].ips.len(), 2);
    assert_eq!(s.hosts[0].error, None);
    assert_eq!(s.allowed_ips_value(), "1.2.3.4/32, 5.6.7.8/32");
}

#[test]
fn a_failure_is_reported_and_the_reason_is_kept_on_the_host() {
    let mut s = store_with(&["nope.invalid"]);
    let out = resolve_all(&mut s, &FakeResolver::failing("nope.invalid"), false);
    assert_eq!(out[0].1, Outcome::Failed("no such host".into()));
    assert_eq!(s.hosts[0].error.as_deref(), Some("no such host"));
    // The host is still in the store, still visible — not dropped.
    assert_eq!(s.hosts.len(), 1);
    assert_eq!(s.unresolved().len(), 1);
}

#[test]
fn a_failure_does_not_wipe_addresses_that_were_already_known() {
    let mut s = store_with(&["api.openai.com"]);
    s.hosts[0].ips = vec!["1.2.3.4".into()];
    let out = resolve_all(&mut s, &FakeResolver::failing("api.openai.com"), true);
    assert!(matches!(out[0].1, Outcome::Failed(_)));
    assert_eq!(s.hosts[0].ips, vec!["1.2.3.4"]);
}

#[test]
fn a_cached_host_is_skipped_unless_forced() {
    let mut s = store_with(&["api.openai.com"]);
    s.hosts[0].ips = vec!["1.2.3.4".into()];
    let out = resolve_all(&mut s, &FakeResolver::new(&[]), false);
    assert_eq!(out[0].1, Outcome::Fresh);
    let out = resolve_all(&mut s, &FakeResolver::new(&[]), true);
    assert!(matches!(out[0].1, Outcome::Failed(_)));
}

#[test]
fn a_literal_ip_is_not_resolved() {
    let mut s = store_with(&["1.2.3.4"]);
    let out = resolve_all(&mut s, &FakeResolver::new(&[]), true);
    assert_eq!(out[0].1, Outcome::Literal);
}

#[test]
fn duplicate_answers_collapse() {
    let mut s = store_with(&["cdn.example.com"]);
    let r = FakeResolver::new(&[("cdn.example.com", &["1.1.1.1", "1.1.1.1", "2.2.2.2"])]);
    resolve_all(&mut s, &r, false);
    assert_eq!(s.hosts[0].ips, vec!["1.1.1.1", "2.2.2.2"]);
}

#[test]
fn seeding_fills_an_empty_host_and_leaves_a_known_one_alone() {
    let mut a = Host::new("api.openai.com");
    seed_addresses(&mut a, &["1.2.3.4".into()]);
    assert_eq!(a.ips, vec!["1.2.3.4"]);

    let mut b = Host::new("api.openai.com");
    b.ips = vec!["9.9.9.9".into()];
    seed_addresses(&mut b, &["1.2.3.4".into()]);
    assert_eq!(b.ips, vec!["9.9.9.9"]);
}

#[test]
fn each_host_is_reported_in_list_order() {
    let mut s = store_with(&["b.example.com", "1.1.1.1", "a.example.com"]);
    let r = FakeResolver::new(&[("b.example.com", &["2.2.2.2"])]);
    let out = resolve_all(&mut s, &r, false);
    let targets: Vec<&str> = out.iter().map(|(t, _)| t.as_str()).collect();
    assert_eq!(targets, vec!["b.example.com", "1.1.1.1", "a.example.com"]);
    assert_eq!(out[2].1, Outcome::Failed("no such host".into()));
}

#[test]
fn a_success_clears_the_error() {
    let mut s = store_with(&["a.example.com"]);
    s.hosts[0].error = Some("timed out".into());
    resolve_all(&mut s, &FakeResolver::new(&[("a.example.com", &["1.1.1.1"])]), false);
    assert_eq!(s.hosts[0].error, None);
    assert!(s.unresolved().is_empty());
}

#[test]
fn an_answer_is_taken_by_hand() {
    let mut h = Host::new("a.example.com");
    let out = settle(&mut h, Ok(vec!["1.1.1.1".into(), "1.1.1.1".into()]));
    assert_eq!(out, Outcome::Resolved(vec!["1.1.1.1".into()]));
    let out = settle(&mut h, Err("gone".into()));
    assert_eq!(out, Outcome::Failed("gone".into()));
    assert_eq!(h.ips, vec!["1.1.1.1"]);
    assert_eq!(h.error.as_deref(), Some("gone"));
}

#[test]
fn an_answer_without_addresses_is_a_failure() {
    let r = SystemResolver;
    assert_eq!(r.answer(Ok(vec![])), Err("no addresses returned".into()));
    assert_eq!(
        r.answer(Ok(vec!["1.1.1.1".into()])),
        Ok(vec!["1.1.1.1".to_string()])
    );
    assert_eq!(r.answer(Err("x".into())), Err("x".into()));
}

#[test]
fn the_first_row_of_a_table_answers() {
    let r = FakeResolver::new(&[("a", &["1.1.1.1"]), ("a", &["2.2.2.2"])]);
    assert_eq!(r.lookup("a"), Ok(vec!["1.1.1.1".to_string()]));
    assert_eq!(r.lookup("b"), Err("no such host".to_string()));
}
