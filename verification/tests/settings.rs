use mirror_proxy::config::Config;
use mirror_proxy::config::Mode;

fn b(s: &str) -> Vec<u8> {
    s.as_bytes().to_vec()
}

#[test]
fn mode_selection_from_raw_value() {
    assert!(matches!(Mode::from_value(None), Mode::SPSEJECNA));
    assert!(matches!(Mode::from_value(Some(&b(""))), Mode::SPSEJECNA));
    assert!(matches!(Mode::from_value(Some(&b("spsejecna"))), Mode::SPSEJECNA));
    assert!(matches!(Mode::from_value(Some(&b("SPSEJECNA"))), Mode::SPSEJECNA));
    assert!(matches!(Mode::from_value(Some(&b("jidelna"))), Mode::JIDELNA));
    assert!(matches!(Mode::from_value(Some(&b("Jidelna"))), Mode::JIDELNA));
    match Mode::from_value(Some(&b("https://other.example"))) {
        Mode::CUSTOM(u) => assert_eq!(u, b("https://other.example")),
        _ => panic!("expected a custom mode"),
    }
}

#[test]
fn builtin_mode_urls() {
    assert_eq!(Mode::SPSEJECNA.url(), b("https://www.spsejecna.cz"));
    assert_eq!(Mode::JIDELNA.url(), b("https://strav.nasejidelna.cz"));
    assert_eq!(Mode::CUSTOM(b("https://other.example")).url(), b("https://other.example"));
}

#[test]
fn builtin_mode_variants() {
    let v = Mode::SPSEJECNA.get_all_variants();
    assert_eq!(
        v,
        vec![
            b("https://www.spsejecna.cz"),
            b("https://spsejecna.cz"),
            b("http://www.spsejecna.cz"),
            b("http://spsejecna.cz"),
        ]
    );
    let v = Mode::JIDELNA.get_all_variants();
    assert_eq!(v, vec![b("https://strav.nasejidelna.cz"), b("http://strav.nasejidelna.cz")]);
}

#[test]
fn custom_https_mode_gets_http_variant() {
    let v = Mode::CUSTOM(b("https://other.example")).get_all_variants();
    assert_eq!(v, vec![b("https://other.example"), b("http://other.example")]);
    let v = Mode::CUSTOM(b("http://plain.example")).get_all_variants();
    assert_eq!(v, vec![b("http://plain.example")]);
}

#[test]
fn config_port_parsing() {
    let c = Config::from_values(Some(&b("8080")), None, None, None);
    assert_eq!(c.port, 8080);
    let c = Config::from_values(Some(&b("+81")), None, None, None);
    assert_eq!(c.port, 81);
    let c = Config::from_values(None, None, None, None);
    assert_eq!(c.port, 3000);
    let c = Config::from_values(Some(&b("not-a-port")), None, None, None);
    assert_eq!(c.port, 3000);
    let c = Config::from_values(Some(&b("99999")), None, None, None);
    assert_eq!(c.port, 3000);
    let c = Config::from_values(Some(&b("")), None, None, None);
    assert_eq!(c.port, 3000);
    let c = Config::from_values(Some(&b("000065535")), None, None, None);
    assert_eq!(c.port, 65535);
}

#[test]
fn config_banner_switch() {
    assert!(Config::from_values(None, None, Some(&b("true")), None).disable_warning);
    assert!(Config::from_values(None, None, Some(&b("1")), None).disable_warning);
    assert!(!Config::from_values(None, None, Some(&b("yes")), None).disable_warning);
    assert!(!Config::from_values(None, None, None, None).disable_warning);
}

#[test]
fn config_base_url_kept_verbatim() {
    let c = Config::from_values(None, Some(b("https://mirror.example/")), None, None);
    assert_eq!(c.base_url, Some(b("https://mirror.example/")));
    let c = Config::from_values(None, None, None, None);
    assert!(c.base_url.is_none());
}
