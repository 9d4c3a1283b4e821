//! Where things live.

use wireutils::paths::{config_dir, store_path, Environment, Location, Platform, STORE_FILE};

fn env(config: Option<&str>, appdata: Option<&str>, xdg: Option<&str>) -> Environment {
    Environment {
        config_dir: config.map(str::to_string),
        conf_store: None,
        appdata: appdata.map(str::to_string),
        userprofile: Some("C:\\Users\\me".to_string()),
        xdg_config_home: xdg.map(str::to_string),
        home: Some("/home/me".to_string()),
    }
}

fn text(l: Option<Location>, platform: Platform) -> String {
    l.unwrap().text(platform)
}

#[test]
fn the_env_override_wins() {
    let e = env(Some("/tmp/wireutils_cfg_test"), Some("a"), Some("/x"));
    assert_eq!(
        text(config_dir(Platform::Unix, &e), Platform::Unix),
        "/tmp/wireutils_cfg_test"
    );
    assert_eq!(
        text(store_path(Platform::Unix, &e), Platform::Unix),
        "/tmp/wireutils_cfg_test/hosts.json"
    );
}

#[test]
fn without_the_override_it_lands_under_xdg_or_home() {
    let e = env(Some(""), None, Some("/x"));
    assert_eq!(text(config_dir(Platform::Unix, &e), Platform::Unix), "/x/wireutils");
    let e = env(None, None, Some(""));
    assert_eq!(
        text(config_dir(Platform::Unix, &e), Platform::Unix),
        "/home/me/.config/wireutils"
    );
}

#[test]
fn on_windows_it_lands_under_appdata_or_the_profile() {
    let e = env(None, Some("C:\\Users\\me\\AppData"), None);
    assert_eq!(
        text(store_path(Platform::Windows, &e), Platform::Windows),
        "C:\\Users\\me\\AppData\\wireutils\\hosts.json"
    );
    let e = env(None, Some(""), Some("/x"));
    assert_eq!(
        text(config_dir(Platform::Windows, &e), Platform::Windows),
        "C:\\Users\\me\\.config\\wireutils"
    );
}

#[test]
fn with_nothing_set_there_is_no_place() {
    let e = Environment::default();
    assert_eq!(config_dir(Platform::Unix, &e), None);
    assert_eq!(store_path(Platform::Windows, &e), None);
    let e = Environment { home: Some("".into()), ..Environment::default() };
    assert_eq!(config_dir(Platform::Unix, &e), None);
}

#[test]
fn a_separator_goes_between_names() {
    let at = |base: &str| Location { base: base.to_string(), parts: vec![STORE_FILE.to_string()] };
    assert_eq!(at("/").text(Platform::Unix), "/hosts.json");
    assert_eq!(at("a/").text(Platform::Unix), "a/hosts.json");
    assert_eq!(at("").text(Platform::Unix), "hosts.json");
    assert_eq!(at("a\\").text(Platform::Unix), "a\\/hosts.json");
    assert_eq!(at("C:").text(Platform::Windows), "C:hosts.json");
    assert_eq!(at("C:\\").text(Platform::Windows), "C:\\hosts.json");
    assert_eq!(at("C:/x").text(Platform::Windows), "C:/x\\hosts.json");
}
