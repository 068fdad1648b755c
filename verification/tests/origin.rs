use mirror_proxy::headers::Headers;
use mirror_proxy::utils::determine_proxy_origin;
use mirror_proxy::utils::is_secure_origin;

fn b(s: &str) -> Vec<u8> {
    s.as_bytes().to_vec()
}

fn with_host(host: &str) -> Headers {
    let mut h = Headers::new();
    h.append(b("host"), b(host));
    h
}

#[test]
fn configured_base_wins_over_any_host() {
    let base = b("https://mirror.example");
    let via_one = determine_proxy_origin(Some(&base), &with_host("a.example"));
    let via_other = determine_proxy_origin(Some(&base), &with_host("b.example"));
    let via_none = determine_proxy_origin(Some(&base), &Headers::new());
    assert_eq!(via_one, b("https://mirror.example"));
    assert_eq!(via_one, via_other);
    assert_eq!(via_one, via_none);
}

#[test]
fn configured_base_loses_trailing_slashes() {
    let base = b("https://mirror.example/");
    let origin = determine_proxy_origin(Some(&base), &Headers::new());
    assert_eq!(origin, b("https://mirror.example"));
}

#[test]
fn host_header_forms_http_origin() {
    let origin = determine_proxy_origin(None, &with_host("mysite.example"));
    assert_eq!(origin, b("http://mysite.example"));
    let with_port = determine_proxy_origin(None, &with_host("mysite.example:8080"));
    assert_eq!(with_port, b("http://mysite.example:8080"));
}

#[test]
fn missing_host_falls_back_to_localhost() {
    let origin = determine_proxy_origin(None, &Headers::new());
    assert_eq!(origin, b("http://localhost:3000"));
}

#[test]
fn host_header_name_is_case_insensitive() {
    let mut h = Headers::new();
    h.append(b("Host"), b("mysite.example"));
    let origin = determine_proxy_origin(None, &h);
    assert_eq!(origin, b("http://mysite.example"));
}

#[test]
fn secure_origin_heuristic() {
    assert!(is_secure_origin(&b("https://mirror.example")));
    assert!(is_secure_origin(&b("http://localhost:3000")));
    assert!(is_secure_origin(&b("http://127.0.0.1:8080")));
    assert!(!is_secure_origin(&b("http://mysite.example")));
}
