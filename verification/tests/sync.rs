//! Keeping a tunnel's config up to date.

use wireutils::fetch::Origin;
use wireutils::paths::{Environment, Platform};
use wireutils::sync::{
    amnesiawg_exe, config_path, config_store_dir, fetch_text, has_tunnel_service, install,
    install_next, request, restart_first, restart_next, restart_tunnel, step_flag, stop_done,
    stop_tunnel, store_dir_label, store_is_usable, InstallStep, Ran, Reply, Restart, RestartNext,
    Stop, TunnelStep,
};

fn home() -> Environment {
    Environment {
        home: Some("/home/me".into()),
        ..Environment::default()
    }
}

const GOOD: &str = "[Interface]\nPrivateKey = a\n\n[Peer]\nAllowedIPs = 1.2.3.4/32\n";

#[test]
fn a_name_that_names_a_path_is_refused() {
    for bad in ["../etc/passwd", "a/b", "a\\b", ".."] {
        assert!(
            config_path(Platform::Unix, &home(), bad).is_err(),
            "{bad} should be refused"
        );
        assert!(request("http://x", bad).is_err(), "{bad} should be refused");
    }
}

#[test]
fn a_plain_name_becomes_a_conf_file() {
    let p = config_path(Platform::Unix, &home(), "vasilisa").unwrap();
    assert_eq!(p.parts.last().map(String::as_str), Some("vasilisa.conf"));
    let text = p.text(Platform::Unix);
    assert!(text.ends_with("/vasilisa.conf"), "{text:?}");
}

#[test]
fn the_store_override_wins() {
    let env = Environment {
        conf_store: Some("/tmp/wireutils_store_test".into()),
        ..home()
    };
    for platform in [Platform::Unix, Platform::Windows] {
        let dir = config_store_dir(platform, &env);
        assert_eq!(dir.base, "/tmp/wireutils_store_test");
        assert!(dir.parts.is_empty());
        let p = config_path(platform, &env, "vasilisa").unwrap();
        assert_eq!(p.base, "/tmp/wireutils_store_test");
        assert_eq!(p.parts, vec!["vasilisa.conf"]);
    }
}

#[test]
fn a_fetch_that_is_not_a_config_is_refused() {
    let err = fetch_text(
        "file:///served/served.conf",
        Reply::Read("hello, this is HTML, not a tunnel".into()),
    )
    .unwrap_err();
    assert!(err.contains("no AllowedIPs"), "{err}");
}

#[test]
fn install_writes_and_then_reports_unchanged() {
    let first = install("vasilisa.conf", None, GOOD);
    assert!(first.changed, "a first install must report a change");
    assert_eq!(first.path, "vasilisa.conf");

    let second = install("vasilisa.conf", Some(GOOD), GOOD);
    assert!(!second.changed, "the same bytes must report no change");
    assert!(install("vasilisa.conf", Some("old"), GOOD).changed);
}

#[test]
fn the_words_of_a_refused_name() {
    assert_eq!(
        request("http://x", "  ").unwrap_err(),
        "the tunnel name is empty"
    );
    assert_eq!(
        request("http://x", " a\\b\" ").unwrap_err(),
        "the tunnel name \"a\\\\b\\\"\" names a path, not a tunnel — refusing it"
    );
}

#[test]
fn what_is_asked_for() {
    let q = request("https://h/conf//", " vasilisa ").unwrap();
    assert_eq!(q.url, "https://h/conf/vasilisa.conf");
    assert_eq!(q.origin, Origin::Web(q.url.clone()));
    let q = request("file:///srv", "v").unwrap();
    assert_eq!(q.url, "file:///srv/v.conf");
    assert_eq!(q.origin, Origin::File("/srv/v.conf".into()));
    let q = request("/srv/conf", "v").unwrap();
    assert_eq!(q.origin, Origin::File("/srv/conf/v.conf".into()));
}

#[test]
fn the_words_of_each_reply() {
    assert_eq!(
        fetch_text("u", Reply::Answered { status: 200, body: Ok(GOOD.into()) }),
        Ok(GOOD.to_string())
    );
    assert_eq!(
        fetch_text("u", Reply::Answered { status: 204, body: Ok(GOOD.into()) }),
        Err("u: HTTP 204".to_string())
    );
    assert_eq!(
        fetch_text("u", Reply::Answered { status: 200, body: Err("cut".into()) }),
        Err("u: cut".to_string())
    );
    assert_eq!(
        fetch_text("u", Reply::Failed("no route".into())),
        Err("u: no route".to_string())
    );
    assert_eq!(
        fetch_text("u", Reply::Read("x".into())),
        Err("u: fetched, but it has no AllowedIPs line — refusing to install it".to_string())
    );
}

#[test]
fn where_the_client_keeps_its_configs() {
    assert_eq!(
        store_dir_label(Platform::Unix, &home()),
        "/home/me/.config/amneziawg/Configurations"
    );
    assert_eq!(
        store_dir_label(Platform::Unix, &Environment::default()),
        "/.config/amneziawg/Configurations"
    );
    let xdg = Environment { xdg_config_home: Some("/x".into()), ..home() };
    assert_eq!(
        store_dir_label(Platform::Unix, &xdg),
        "/x/amneziawg/Configurations"
    );
    assert_eq!(
        store_dir_label(Platform::Windows, &home()),
        "C:\\Program Files\\AmnesiaWG\\Data\\Configurations"
    );
}

#[test]
fn a_store_is_a_folder_or_not_there_yet() {
    assert_eq!(store_is_usable("d", true, true), Ok(()));
    assert_eq!(store_is_usable("d", false, false), Ok(()));
    assert_eq!(
        store_is_usable("d", true, false),
        Err("d is not a directory".to_string())
    );
}

#[test]
fn where_the_client_program_is() {
    assert_eq!(amnesiawg_exe(&Some("x.exe".into()), true, true), Ok("x.exe".to_string()));
    assert_eq!(
        amnesiawg_exe(&Some("".into()), true, true),
        Ok("C:\\Program Files\\AmnesiaWG\\amnesiawg.exe".to_string())
    );
    assert_eq!(
        amnesiawg_exe(&None, false, true),
        Ok("C:\\Program Files\\AmnesiaWG\\AmnesiaWG.exe".to_string())
    );
    assert_eq!(
        amnesiawg_exe(&None, false, false),
        Err("amnesiawg.exe was not found in C:\\Program Files\\AmnesiaWG — set \
             WIREUTILS_AMNESIAWG to its full path"
            .to_string())
    );
}

#[test]
fn the_words_of_a_restart() {
    assert_eq!(
        restart_tunnel(Restart::NoService),
        Ok("no tunnel service on this platform — restart the client yourself".to_string())
    );
    assert_eq!(
        restart_tunnel(Restart::NoConfig { path: "p".into() }),
        Err("p does not exist yet — fetch a config before restarting the tunnel".to_string())
    );
    assert_eq!(
        restart_tunnel(Restart::NotRun { exe: "e".into(), error: "gone".into() }),
        Err("e: gone".to_string())
    );
    assert_eq!(
        restart_tunnel(Restart::NotStarted {
            exe: "e".into(),
            path: "p".into(),
            stderr: " bad key\r\n".into()
        }),
        Err("e /installtunnelservice p failed: bad key".to_string())
    );
    assert_eq!(
        restart_tunnel(Restart::Started { was_running: true }),
        Ok("tunnel service stopped, tunnel service started".to_string())
    );
    assert_eq!(
        restart_tunnel(Restart::Started { was_running: false }),
        Ok("no tunnel service was running, tunnel service started".to_string())
    );
}

#[test]
fn the_words_of_a_stop() {
    assert_eq!(stop_tunnel(Stop::NoService), Ok(()));
    assert_eq!(stop_tunnel(Stop::Stopped), Ok(()));
    assert_eq!(
        stop_tunnel(Stop::NotRun { exe: "e".into(), error: "gone".into() }),
        Err("e: gone".to_string())
    );
    assert_eq!(
        stop_tunnel(Stop::NotStopped { exe: "e".into(), stderr: "no\n".into() }),
        Err("e: stopping the tunnel failed: no".to_string())
    );
}

#[test]
fn the_steps_of_an_install() {
    // The same text: no step at all.
    assert_eq!(install_next(false, None), None);
    // Another text, with the step that fails, if one does.
    let run = |fails: Option<InstallStep>| {
        let mut steps = Vec::new();
        let mut done = None;
        while let Some(step) = install_next(true, done) {
            steps.push(step);
            done = Some((step, Some(step) != fails));
        }
        steps
    };
    let (make, write) = (InstallStep::MakeFolder, InstallStep::WriteTemporary);
    let (rename, drop) = (InstallStep::RenameOver, InstallStep::DropTemporary);
    assert_eq!(run(None), vec![make, write, rename]);
    assert_eq!(run(Some(make)), vec![make]);
    assert_eq!(run(Some(write)), vec![make, write]);
    assert_eq!(run(Some(rename)), vec![make, write, rename, drop]);
}

fn ended(success: bool) -> Ran {
    Ran::Ended { success, stderr: "words".into() }
}

#[test]
fn a_restart_stops_the_service_and_starts_it_again() {
    assert!(has_tunnel_service(Platform::Windows));
    assert!(!has_tunnel_service(Platform::Unix));
    assert_eq!(
        restart_first("p", false),
        RestartNext::Over(Restart::NoConfig { path: "p".into() })
    );
    assert_eq!(restart_first("p", true), RestartNext::Run(TunnelStep::Stop));
    for was_running in [true, false] {
        let start = TunnelStep::Start { was_running };
        assert_eq!(
            restart_next("e", "p", TunnelStep::Stop, ended(was_running)),
            RestartNext::Run(start)
        );
        assert_eq!(
            restart_next("e", "p", start, ended(true)),
            RestartNext::Over(Restart::Started { was_running })
        );
        assert_eq!(
            restart_next("e", "p", start, ended(false)),
            RestartNext::Over(Restart::NotStarted {
                exe: "e".into(),
                path: "p".into(),
                stderr: "words".into()
            })
        );
        for step in [TunnelStep::Stop, start] {
            assert_eq!(
                restart_next("e", "p", step, Ran::NotRun("gone".into())),
                RestartNext::Over(Restart::NotRun { exe: "e".into(), error: "gone".into() })
            );
        }
    }
    assert_eq!(step_flag(TunnelStep::Stop), "/uninstalltunnelservice");
    assert_eq!(
        step_flag(TunnelStep::Start { was_running: true }),
        "/installtunnelservice"
    );
}

#[test]
fn how_a_stop_went() {
    assert_eq!(stop_done("e", ended(true)), Stop::Stopped);
    assert_eq!(
        stop_done("e", ended(false)),
        Stop::NotStopped { exe: "e".into(), stderr: "words".into() }
    );
    assert_eq!(
        stop_done("e", Ran::NotRun("gone".into())),
        Stop::NotRun { exe: "e".into(), error: "gone".into() }
    );
}
