//! Importing a config's addresses.

use wireutils::hosts::{Host, HostStore, Source};
use wireutils::import::{
    apply_import, from_config, hosts_from_answers, hosts_from_value, is_default_route,
    is_importable, is_subnet_label, split_entries, subnet_of, FakeNames, Imported, NameResolver,
    PtrResolver,
};

fn fake() -> FakeNames {
    FakeNames::new(&[
        ("31.13.64.1", "instagram.com"),
        ("31.13.64.2", "instagram.com"),
        ("157.240.205.174", "instagram.com"),
        ("142.250.74.14", "youtube.com"),
    ])
}

#[test]
fn an_entries_list_is_split_on_commas_and_whitespace() {
    assert_eq!(
        split_entries("1.2.3.4/32, 5.6.7.8/32\n9.9.9.9/32"),
        vec!["1.2.3.4/32", "5.6.7.8/32", "9.9.9.9/32"]
    );
    assert!(split_entries("  , , ").is_empty());
    assert!(split_entries("").is_empty());
}

#[test]
fn the_default_route_is_recognised_in_every_spelling() {
    assert!(is_default_route("0.0.0.0/0"));
    assert!(is_default_route("0.0.0.0"));
    assert!(is_default_route("::/0"));
    assert!(is_default_route("::"));
    assert!(!is_default_route("10.0.0.0/8"));
    assert!(!is_default_route("1.2.3.4/32"));
}

#[test]
fn addresses_sharing_a_name_become_one_host() {
    let imported = hosts_from_value("31.13.64.1/32, 31.13.64.2/32, 157.240.205.174/32", &fake());
    let Imported::Hosts(hosts) = imported else {
        panic!("expected hosts")
    };
    assert_eq!(hosts.len(), 1);
    assert_eq!(hosts[0].target, "instagram.com");
    assert_eq!(hosts[0].ips.len(), 3);
}

#[test]
fn an_address_with_no_ptr_falls_back_to_its_subnet() {
    // No name, but neighbours in the same /24 are still one thing the table
    // can show.
    let Imported::Hosts(hosts) = hosts_from_value("203.0.113.9/32, 203.0.113.10/32", &fake())
    else {
        panic!("expected hosts")
    };
    assert_eq!(hosts.len(), 1);
    assert_eq!(hosts[0].target, "203.0.113.0/24");
    assert!(is_subnet_label(&hosts[0].target));
    assert_eq!(
        hosts[0].allowed_entries(),
        vec!["203.0.113.9/32", "203.0.113.10/32"]
    );
}

#[test]
fn a_subnet_label_yields_to_a_real_name_on_the_same_network() {
    // One address has a reverse name, one does not. They must not become two
    // hosts: the named one wins the whole network.
    let names = FakeNames::new(&[("31.13.64.2", "instagram.com")]);
    let Imported::Hosts(hosts) = hosts_from_value("31.13.64.1/32, 31.13.64.2/32", &names) else {
        panic!("expected hosts")
    };
    assert!(
        hosts.iter().any(|h| h.target == "instagram.com"),
        "the named host is present"
    );
    assert_eq!(hosts.len(), 1);
    assert_eq!(hosts[0].ips, vec!["31.13.64.1/32", "31.13.64.2/32"]);
}

#[test]
fn a_lone_address_with_no_name_is_its_own_host_not_a_subnet() {
    let Imported::Hosts(hosts) = hosts_from_value("203.0.113.9/32", &fake()) else {
        panic!("expected hosts")
    };
    assert_eq!(hosts.len(), 1);
    assert_eq!(hosts[0].target, "203.0.113.0/24");
}

#[test]
fn a_subnet_is_recognised_as_one_for_both_families() {
    assert!(is_subnet_label("203.0.113.0/24"));
    assert!(is_subnet_label("2001:db8:1::/48"));
    assert!(!is_subnet_label("instagram.com"));
    assert!(!is_subnet_label("203.0.113.9"));
}

#[test]
fn a_full_tunnel_config_is_named_not_silently_empty() {
    assert_eq!(
        hosts_from_value("0.0.0.0/0, ::/0", &fake()),
        Imported::FullTunnel
    );
}

#[test]
fn a_full_tunnel_mixed_with_sites_keeps_the_sites() {
    let imported = hosts_from_value("0.0.0.0/0, 142.250.74.14/32", &fake());
    let Imported::Hosts(hosts) = imported else {
        panic!("expected hosts")
    };
    assert_eq!(hosts.len(), 1);
    assert_eq!(hosts[0].target, "youtube.com");
}

#[test]
fn an_empty_value_imports_nothing() {
    assert_eq!(hosts_from_value("", &fake()), Imported::Nothing);
    assert_eq!(hosts_from_value("   ", &fake()), Imported::Nothing);
}

#[test]
fn an_already_named_host_is_not_duplicated_and_gains_the_addresses() {
    let mut store = HostStore::default();
    store.add_host("instagram.com", &["chat".into()]);
    let imported = hosts_from_value("31.13.64.1/32, 31.13.64.2/32", &fake());
    let Imported::Hosts(hosts) = imported else {
        panic!("expected hosts")
    };
    let added = apply_import(&mut store, hosts, Some("imported"));
    assert_eq!(added, 0, "the host already existed");
    assert_eq!(store.hosts.len(), 1);
    assert_eq!(store.hosts[0].ips.len(), 2);
    assert!(store.hosts[0].groups.contains(&"chat".to_string()));
    assert!(store.hosts[0].groups.contains(&"imported".to_string()));
}

#[test]
fn importing_twice_adds_nothing_the_second_time() {
    let mut store = HostStore::default();
    let value = "31.13.64.1/32, 142.250.74.14/32";
    let Imported::Hosts(first) = hosts_from_value(value, &fake()) else {
        panic!("expected hosts")
    };
    assert_eq!(apply_import(&mut store, first, None), 2);
    let Imported::Hosts(second) = hosts_from_value(value, &fake()) else {
        panic!("expected hosts")
    };
    assert_eq!(apply_import(&mut store, second, None), 0);
    assert_eq!(store.hosts.len(), 2);
}

#[test]
fn the_imported_addresses_reach_the_written_value() {
    let mut store = HostStore::default();
    let Imported::Hosts(hosts) = hosts_from_value("142.250.74.14/32", &fake()) else {
        panic!("expected hosts")
    };
    apply_import(&mut store, hosts, None);
    assert_eq!(store.allowed_ips_value(), "142.250.74.14/32");
}

#[test]
fn a_config_file_is_read_through_the_same_parser_used_for_writing() {
    let text = "# base\n[Peer]\nAllowedIPs = 31.13.64.1/32, 31.13.64.2/32, 198.51.100.9/32\n";
    let Imported::Hosts(hosts) = from_config(text, &fake()) else {
        panic!("expected hosts")
    };
    assert_eq!(hosts.len(), 2);
    let named = hosts.iter().find(|h| h.target == "instagram.com").unwrap();
    assert_eq!(named.ips.len(), 2);
    assert!(hosts.iter().any(|h| h.target == "198.51.100.0/24"));
}

#[test]
fn a_config_with_no_allowed_ips_line_imports_nothing() {
    assert_eq!(
        from_config("[Interface]\nPrivateKey = x\n", &fake()),
        Imported::Nothing
    );
}

#[test]
fn several_allowed_ips_lines_are_all_imported() {
    let text = "[Peer]\nAllowedIPs = 31.13.64.1/32\n\n[Peer]\nAllowedIPs = 142.250.74.14/32\n";
    let Imported::Hosts(hosts) = from_config(text, &fake()) else {
        panic!("expected hosts")
    };
    assert_eq!(hosts.len(), 2);
}

#[test]
fn a_reverse_resolved_name_is_lowercased_and_dot_stripped() {
    let names = FakeNames::new(&[("1.2.3.4", "Some.Site.EXAMPLE.com.")]);
    let Imported::Hosts(hosts) = hosts_from_value("1.2.3.4/32", &names) else {
        panic!("expected hosts")
    };
    assert_eq!(hosts[0].target, "some.site.example.com");
}

#[test]
fn a_name_equal_to_the_address_is_treated_as_no_name() {
    // Some resolvers answer the address itself when there is no name; that
    // must not be taken for a name, it must fall through to /24.
    let names = FakeNames::new(&[("1.2.3.4", "1.2.3.4")]);
    let Imported::Hosts(hosts) = hosts_from_value("1.2.3.4/32", &names) else {
        panic!("expected hosts")
    };
    assert_eq!(hosts[0].target, "1.2.3.0/24");
    assert_eq!(hosts[0].ips, vec!["1.2.3.4/32"]);
}

#[test]
fn an_ipv6_address_falls_back_to_a_48() {
    assert_eq!(
        subnet_of("2001:db8:1234::5"),
        Some("2001:db8:1234::/48".to_string())
    );
    assert_eq!(subnet_of("10.1.2.3"), Some("10.1.2.0/24".to_string()));
}

#[test]
fn an_address_inside_a_network_still_names_that_network() {
    let Imported::Hosts(hosts) = hosts_from_value("10.0.0.0/8", &fake()) else {
        panic!("expected hosts")
    };
    assert_eq!(hosts[0].target, "10.0.0.0/24");
    assert_eq!(hosts[0].allowed_entries(), vec!["10.0.0.0/8"]);
}

#[test]
fn a_subnet_label_never_widens_the_tunnel() {
    // `31.13.64.0/24` is a valid network, and must not take the whole /24
    // instead of the two /32s the file listed.
    let Imported::Hosts(hosts) =
        hosts_from_value("31.13.64.1/32, 31.13.64.2/32", &FakeNames::new(&[]))
    else {
        panic!("expected hosts")
    };
    assert_eq!(hosts[0].target, "31.13.64.0/24");
    assert_eq!(
        hosts[0].allowed_entries(),
        vec!["31.13.64.1/32", "31.13.64.2/32"],
        "the /24 label must not become a route"
    );
}

#[test]
fn a_named_host_never_inherits_a_route_from_its_name() {
    let Imported::Hosts(hosts) = hosts_from_value("142.250.74.14/32", &fake()) else {
        panic!("expected hosts")
    };
    assert_eq!(hosts[0].target, "youtube.com");
    assert_eq!(hosts[0].allowed_entries(), vec!["142.250.74.14/32"]);
}

#[test]
fn the_imported_value_is_exactly_what_the_file_listed() {
    let mut store = HostStore::default();
    let value = "31.13.64.1/32, 31.13.64.2/32, 198.51.100.9/32";
    let Imported::Hosts(hosts) = hosts_from_value(value, &FakeNames::new(&[])) else {
        panic!("expected hosts")
    };
    apply_import(&mut store, hosts, None);
    let written = store.allowed_ips_value();
    for entry in split_entries(value) {
        assert!(written.contains(&entry), "{entry} missing from {written}");
    }
    // The label is shown but never written: a `/24` route would take 256
    // addresses where the file listed one.
    assert!(
        !written.contains("31.13.64.0/24") && !written.contains("198.51.100.0/24"),
        "no subnet route may appear: {written}"
    );
    assert!(
        store.hosts[0].label().ends_with("/24"),
        "the label still shows the network"
    );
}

#[test]
fn a_wide_network_is_kept_as_written_not_expanded() {
    let Imported::Hosts(hosts) = hosts_from_value("198.51.100.0/8", &fake()) else {
        panic!("expected hosts")
    };
    assert_eq!(hosts.len(), 1);
    assert_eq!(hosts[0].allowed_entries(), vec!["198.51.100.0/8"]);
}

#[test]
fn imported_hosts_are_marked_as_coming_from_a_template() {
    let Imported::Hosts(hosts) = hosts_from_value("142.250.74.14/32", &fake()) else {
        panic!("expected hosts")
    };
    assert_eq!(hosts[0].source, Source::Template);
}

#[test]
fn answers_given_by_hand_name_the_hosts() {
    let answers = vec![
        Err("timed out".to_string()),
        Ok(" B.Example. ".to_string()),
        Ok("".to_string()),
    ];
    let found = hosts_from_answers("9.9.9.9, ::/0, 1.1.1.1/32; 1.1.1.7/32", &answers);
    let Imported::Hosts(hosts) = found else {
        panic!("expected hosts")
    };
    let shown: Vec<(&str, Vec<String>)> = hosts
        .iter()
        .map(|h| (h.target.as_str(), h.ips.clone()))
        .collect();
    assert_eq!(
        shown,
        vec![
            ("9.9.9.0/24", vec!["9.9.9.9".to_string()]),
            ("b.example", vec!["1.1.1.1/32".to_string(), "1.1.1.7/32".to_string()]),
        ]
    );
}

#[test]
fn an_entry_that_is_no_address_stays_as_itself() {
    let Imported::Hosts(hosts) = hosts_from_value("example.com, example.com", &fake()) else {
        panic!("expected hosts")
    };
    assert_eq!(hosts.len(), 1);
    assert_eq!(hosts[0].target, "example.com");
    assert_eq!(hosts[0].ips, vec!["example.com"]);
}

#[test]
fn a_network_that_the_file_lists_is_imported() {
    let mut store = HostStore::default();
    let Imported::Hosts(hosts) = hosts_from_value("31.13.64.0/24", &FakeNames::new(&[])) else {
        panic!("expected hosts")
    };
    assert_eq!(hosts[0].target, "31.13.64.0/24");
    assert_eq!(hosts[0].ips, vec!["31.13.64.0/24"]);
    assert_eq!(apply_import(&mut store, hosts.clone(), None), 1);
    assert_eq!(store.allowed_ips_value(), "31.13.64.0/24");
    assert_eq!(apply_import(&mut store, hosts, None), 0);
    assert_eq!(store.allowed_ips_value(), "31.13.64.0/24");
}

#[test]
fn a_second_import_leaves_the_list_as_it_is() {
    let mut store = HostStore::default();
    store.add_host("other.example.com", &["mine".to_string()]);
    store.add_address("youtube.com", &["9.9.9.9".into()], &[]);
    let other = store.hosts[0].clone();
    let Imported::Hosts(hosts) =
        hosts_from_value("142.250.74.14/32, 31.13.64.1/32, 198.51.100.9/32", &fake())
    else {
        panic!("expected hosts")
    };
    let names: Vec<&str> = hosts.iter().map(|h| h.target.as_str()).collect();
    assert_eq!(names, vec!["198.51.100.0/24", "instagram.com", "youtube.com"]);
    assert_eq!(apply_import(&mut store, hosts.clone(), Some("base")), 2);
    assert_eq!(store.hosts.len(), 4);
    assert_eq!(store.hosts[0], other);
    assert_eq!(store.hosts[1].ips, vec!["9.9.9.9", "142.250.74.14/32"]);
    assert!(store.hosts[1..].iter().all(|h| h.groups == vec!["base"]));
    let once = store.hosts.clone();
    assert_eq!(apply_import(&mut store, hosts, Some("base")), 0);
    assert_eq!(store.hosts, once);
}

#[test]
fn every_site_is_filed_once_and_in_the_order_of_the_file() {
    let value = "142.250.74.99/32, 142.250.74.14/32, 31.13.64.1/32, 142.250.74.14/32, 0.0.0.0/0";
    let Imported::Hosts(hosts) = hosts_from_value(value, &fake()) else {
        panic!("expected hosts")
    };
    let shown: Vec<(&str, Vec<String>)> = hosts
        .iter()
        .map(|h| (h.target.as_str(), h.ips.clone()))
        .collect();
    assert_eq!(
        shown,
        vec![
            ("instagram.com", vec!["31.13.64.1/32".to_string()]),
            (
                "youtube.com",
                vec!["142.250.74.99/32".to_string(), "142.250.74.14/32".to_string()]
            ),
        ]
    );
    assert!(hosts
        .iter()
        .all(|h| h.source == Source::Template && h.groups.is_empty() && h.error.is_none()));
}

#[test]
fn entries_are_given_back_between_any_separators() {
    let parts = vec!["10.0.0.1/32".to_string(), "::1".to_string(), "a.example".to_string()];
    for sep in [", ", ",", "\n", " ", ";\t "] {
        assert_eq!(split_entries(&parts.join(sep)), parts, "{sep:?}");
    }
    assert_eq!(split_entries(" ,;\n "), Vec::<String>::new());
}

#[test]
fn values_without_text_do_not_leave_commas() {
    let text = "AllowedIPs =\nAllowedIPs = 142.250.74.14/32\nAllowedIPs =\n";
    let Imported::Hosts(hosts) = from_config(text, &fake()) else {
        panic!("expected hosts")
    };
    assert_eq!(hosts.len(), 1);
    assert_eq!(hosts[0].ips, vec!["142.250.74.14/32"]);
    assert_eq!(from_config("AllowedIPs =  \n", &fake()), Imported::Nothing);
}

#[test]
fn the_question_for_a_reverse_name() {
    let r = PtrResolver;
    assert_eq!(r.query("1.2.3.4"), Ok("4.3.2.1.in-addr.arpa".to_string()));
    assert_eq!(
        r.query("2001:db8::567:89ab"),
        Ok("b.a.9.8.7.6.5.0.0.0.0.0.0.0.0.0.0.0.0.0.0.0.0.0.8.b.d.0.1.0.0.2.ip6.arpa".to_string())
    );
    assert_eq!(r.query("example.com"), Err("not an address".to_string()));
}

#[test]
fn the_reply_to_a_reverse_lookup() {
    let r = PtrResolver;
    assert_eq!(
        r.answer("4.3.2.1.in-addr.arpa.", true),
        Ok("4.3.2.1.in-addr.arpa".to_string())
    );
    assert_eq!(
        r.answer("4.3.2.1.in-addr.arpa", false),
        Err("no reverse name for 4.3.2.1.in-addr.arpa".to_string())
    );
}

#[test]
fn a_table_of_names_answers_for_what_it_holds() {
    assert_eq!(fake().reverse("31.13.64.1"), Ok("instagram.com".to_string()));
    assert_eq!(fake().reverse("9.9.9.9"), Err("no name for 9.9.9.9".to_string()));
}

#[test]
fn networks_of_odd_addresses() {
    assert_eq!(subnet_of("1.2.3.4/8"), Some("1.2.3.0/24".to_string()));
    assert_eq!(subnet_of("::1"), Some("::/48".to_string()));
    assert_eq!(subnet_of("2001:db8::5"), Some("2001:db8::/48".to_string()));
    assert_eq!(subnet_of("2001::5"), Some("2001::/48".to_string()));
    assert_eq!(subnet_of("2001:0:5::1"), Some("2001:0:5::/48".to_string()));
    assert_eq!(subnet_of("example.com"), None);
    assert!(is_subnet_label(&subnet_of("::1").unwrap()));
    assert!(is_subnet_label(&subnet_of("2001:db8::5").unwrap()));
}

#[test]
fn a_subnet_label_has_a_prefix_below_the_width_of_its_family() {
    assert!(is_subnet_label("1.2.3.0/24"));
    assert!(is_subnet_label("1.2.3.4/31"));
    assert!(!is_subnet_label("1.2.3.4/32"));
    assert!(!is_subnet_label("1.2.3.4/127"));
    assert!(is_subnet_label("2001:db8::/127"));
    assert!(!is_subnet_label("2001:db8::/128"));
}

#[test]
fn default_routes_with_odd_spacing() {
    assert!(is_default_route("0.0.0.0/ 0"));
    assert!(!is_default_route("0.0.0.0/00"));
    assert!(!is_default_route("0.0.0.0/1"));
    assert!(!is_default_route(" 0.0.0.0/0"));
}

#[test]
fn only_addresses_can_be_typed_in() {
    assert!(is_importable("10.0.0.0/8"));
    assert!(!is_importable("example.com"));
}
