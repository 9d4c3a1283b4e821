//! The icon.

use wireutils::guiassert::{STATUS_FIELDS, STATUS_PRIMARY_FIELD};
use wireutils::tray::{
    is_warning, place_text, poll_interval, settings, tooltip, Tray, TrayNext, Update,
};

fn tray() -> Tray {
    Tray::new("v".to_string(), "https://h".to_string())
}

#[test]
fn status_field_is_a_real_pane() {
    assert!(STATUS_FIELDS >= 1, "the bar must have at least one pane");
    assert!(
        STATUS_PRIMARY_FIELD < STATUS_FIELDS,
        "writes go to field {STATUS_PRIMARY_FIELD}, outside the {STATUS_FIELDS}-pane bar"
    );
}

#[test]
fn settings_come_from_arguments_variables_and_defaults() {
    let args = vec!["a".to_string()];
    assert_eq!(
        settings(&args, Some("b".into()), Some("u".into())),
        ("a".to_string(), "u".to_string())
    );
    assert_eq!(
        settings(&[], Some("b".into()), None),
        ("b".to_string(), "https://vpn.denizsincar.ru/conf".to_string())
    );
    assert_eq!(settings(&[], None, None).0, "wireguard");
    assert_eq!(poll_interval(), 600_000);
}

#[test]
fn each_outcome_of_a_fetch_is_said() {
    let mut t = tray();
    t.running = false;
    assert_eq!(t.updated(Update::Unchanged), "v: без изменений");
    assert_eq!(t.updated(Update::Failed("e".into())), "v: ошибка — e");
    assert_eq!(
        t.updated(Update::NotRestarted("e".into())),
        "v: обновлён, но туннель не поднялся — e"
    );
    assert!(!t.running);
    assert_eq!(t.updated(Update::Restarted("ok".into())), "v: обновлён, ok");
    assert!(t.running);
}

#[test]
fn only_a_changed_config_has_the_tunnel_restarted() {
    let mut t = tray();
    t.running = false;
    assert_eq!(t.fetched(Ok(false)), TrayNext::Say("v: без изменений".into()));
    assert_eq!(t.fetched(Err("e".into())), TrayNext::Say("v: ошибка — e".into()));
    assert_eq!(t.fetched(Ok(true)), TrayNext::Restart);
    assert_eq!(
        t.restarted(Err("e".into())),
        "v: обновлён, но туннель не поднялся — e"
    );
    assert!(!t.running);
    assert_eq!(t.restarted(Ok("ok".into())), "v: обновлён, ok");
    assert!(t.running);
}

#[test]
fn failures_make_the_icon_warn() {
    let mut t = tray();
    let said = t.updated(Update::Failed("e".into()));
    assert!(is_warning(&said));
    let said = t.updated(Update::NotRestarted("e".into()));
    assert!(is_warning(&said));
    t.toggle();
    let said = t.toggled(Err("e".into()));
    assert_eq!(said, "v: не удалось — e");
    assert!(is_warning(&said));
    assert!(!is_warning("v: без изменений"));
}

#[test]
fn a_toggle_that_fails_is_taken_back() {
    let mut t = tray();
    assert!(!t.toggle());
    assert_eq!(t.toggled(Ok("туннель остановлен".into())), "v: туннель остановлен");
    assert!(!t.running);
    assert!(t.toggle());
    t.toggled(Err("e".into()));
    assert!(!t.running);
}

#[test]
fn the_same_sentence_is_said_once() {
    let mut t = tray();
    assert!(t.says("a"));
    assert!(!t.says("a"));
    assert!(t.says("b"));
    assert!(t.says("a"));
    assert_eq!(tooltip("a"), "wireutils — a");
    assert_eq!(place_text("/x"), "конфиг клиента лежит в /x");
}
