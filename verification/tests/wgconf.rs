//! Reading and rewriting `AllowedIPs`.

use wireutils::wgconf::WgConfig;

const SAMPLE: &str = "\
[Interface]
PrivateKey = aGVsbG8=
Address = 10.8.1.2/32
DNS = 10.8.0.1

[Peer]
PublicKey = d29ybGQ=
PresharedKey = c2VjcmV0
AllowedIPs = 0.0.0.0/0, ::/0
Endpoint = vpn.example.com:51820
";

fn rewritten(text: &str, value: &str) -> String {
    let mut c = WgConfig::parse(text);
    c.set_allowed_ips(value);
    c.to_string()
}

#[test]
fn reads_the_allowed_ips_value() {
    let c = WgConfig::parse(SAMPLE);
    assert_eq!(c.allowed_ips(), vec!["0.0.0.0/0, ::/0".to_string()]);
    assert!(c.has_allowed_ips());
}

#[test]
fn rewrites_only_the_allowed_ips_line() {
    let mut c = WgConfig::parse(SAMPLE);
    c.set_allowed_ips("1.2.3.4/32, 5.6.7.8/32");
    let out = c.to_string();
    assert!(out.contains("AllowedIPs = 1.2.3.4/32, 5.6.7.8/32\n"));
    // Everything the owner did not ask to change is untouched, including the
    // keys.
    assert!(out.contains("PrivateKey = aGVsbG8="));
    assert!(out.contains("PresharedKey = c2VjcmV0"));
    assert!(out.contains("Endpoint = vpn.example.com:51820"));
    assert_eq!(out.matches("AllowedIPs").count(), 1);
}

#[test]
fn keeps_comments_blank_lines_and_order() {
    let text = "# my tunnel\n\n[Peer]\n# the only peer\nAllowedIPs = 10.0.0.0/8\n\n[Peer]\nAllowedIPs = 192.168.0.0/16\n";
    let mut c = WgConfig::parse(text);
    assert_eq!(c.allowed_ips().len(), 2);
    c.set_allowed_ips("1.1.1.1/32");
    let out = c.to_string();
    assert_eq!(
        out,
        "# my tunnel\n\n[Peer]\n# the only peer\nAllowedIPs = 1.1.1.1/32\n\n[Peer]\nAllowedIPs = 1.1.1.1/32\n"
    );
}

#[test]
fn a_file_without_the_key_is_left_exactly_as_it_was() {
    let text = "[Interface]\nPrivateKey = aGVsbG8=\n";
    let mut c = WgConfig::parse(text);
    assert!(!c.has_allowed_ips());
    c.set_allowed_ips("1.2.3.4/32");
    assert_eq!(c.to_string(), text);
}

#[test]
fn preserves_crlf_and_a_missing_trailing_newline() {
    let text = "[Peer]\r\nAllowedIPs = 0.0.0.0/0\r\n";
    let mut c = WgConfig::parse(text);
    c.set_allowed_ips("9.9.9.9/32");
    assert_eq!(c.to_string(), "[Peer]\r\nAllowedIPs = 9.9.9.9/32\r\n");

    let text = "[Peer]\nAllowedIPs = 0.0.0.0/0";
    let mut c = WgConfig::parse(text);
    c.set_allowed_ips("9.9.9.9/32");
    assert_eq!(c.to_string(), "[Peer]\nAllowedIPs = 9.9.9.9/32");
}

#[test]
fn accepts_spacing_and_case_variants() {
    for text in [
        "[Peer]\nallowedips=0.0.0.0/0\n",
        "[Peer]\n  AllowedIPs   =   0.0.0.0/0  \n",
    ] {
        let mut c = WgConfig::parse(text);
        assert!(c.has_allowed_ips(), "not matched: {text:?}");
        c.set_allowed_ips("7.7.7.7/32");
        let out = c.to_string();
        assert!(out.contains("7.7.7.7/32"), "{out:?}");
        assert!(!out.contains("0.0.0.0/0"), "{out:?}");
    }
}

#[test]
fn does_not_mistake_a_longer_key_for_allowed_ips() {
    let text = "[Peer]\nAllowedIPsList = nope\n";
    let c = WgConfig::parse(text);
    assert!(!c.has_allowed_ips());
    assert_eq!(c.to_string(), text);
}

#[test]
fn mixed_line_endings_stay_as_they_are() {
    let text = "# a\r\n[Peer]\nAllowedIPs = 1.1.1.1/32\r\nKeepalive = 25\n";
    assert_eq!(
        rewritten(text, "2.2.2.2/32"),
        "# a\r\n[Peer]\nAllowedIPs = 2.2.2.2/32\r\nKeepalive = 25\n"
    );
}

#[test]
fn indentation_and_key_spelling_stay_as_found() {
    assert_eq!(
        rewritten("\t allowedIPS =1.1.1.1/32\n", "2.2.2.2/32"),
        "\t allowedIPS = 2.2.2.2/32\n"
    );
}

#[test]
fn writing_the_same_value_twice_changes_nothing() {
    let once = rewritten(SAMPLE, "1.2.3.4/32, 5.6.7.8/32");
    assert_eq!(rewritten(&once, "1.2.3.4/32, 5.6.7.8/32"), once);
    assert_eq!(WgConfig::parse(&once).to_string(), once);
    assert_eq!(
        WgConfig::parse(&once).allowed_ips(),
        vec!["1.2.3.4/32, 5.6.7.8/32"]
    );
}

#[test]
fn an_untouched_config_is_rendered_as_it_was_read() {
    assert_eq!(WgConfig::parse(SAMPLE).to_string(), SAMPLE);
    assert_eq!(WgConfig::parse("").to_string(), "");
    assert_eq!(WgConfig::parse("\n\n").to_string(), "\n\n");
}

#[test]
fn white_space_behind_a_value_is_not_kept() {
    assert_eq!(
        WgConfig::parse("AllowedIPs = 1.1.1.1/32  \t\nA = b  \n").to_string(),
        "AllowedIPs = 1.1.1.1/32\nA = b  \n"
    );
}

#[test]
fn a_second_equals_sign_in_front_of_a_value_is_not_read() {
    assert_eq!(
        WgConfig::parse("AllowedIPs == 1.1.1.1/32\n").allowed_ips(),
        vec!["1.1.1.1/32"]
    );
}

#[test]
fn a_text_settles_once_it_is_read_and_written() {
    for text in [
        "",
        "AllowedIPs = 1.1.1.1/32  \t\r\n\nX = y  \n",
        " allowedIPs=\r\r\nAllowedIPs = = a, b \n\r",
        "AllowedIPs =   ",
    ] {
        let c = WgConfig::parse(text);
        let once = c.to_string();
        let again = WgConfig::parse(&once);
        assert_eq!(again.to_string(), once, "{text:?}");
        assert_eq!(again.allowed_ips(), c.allowed_ips(), "{text:?}");
    }
    assert_eq!(
        WgConfig::parse("AllowedIPs = a \t\r\nX = y  \n").to_string(),
        "AllowedIPs = a\r\nX = y  \n"
    );
}
