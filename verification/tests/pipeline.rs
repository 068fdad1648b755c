use mirror_proxy::config::Config;
use mirror_proxy::config::Mode;
use mirror_proxy::handlers::process_buffered_body;
use mirror_proxy::handlers::should_buffer_body;
use mirror_proxy::handlers::transform_response_headers;
use mirror_proxy::handlers::plan_proxy_request;
use mirror_proxy::handlers::BANNER_HTML;
use mirror_proxy::headers::Headers;
use mirror_proxy::utils::prepare_request_headers;
use mirror_proxy::utils::rewrite_content_urls;

fn b(s: &str) -> Vec<u8> {
    s.as_bytes().to_vec()
}

fn upstream_mode() -> Mode {
    Mode::CUSTOM(b("https://upstream.example"))
}

#[test]
fn rewrite_replaces_every_variant_occurrence() {
    let content = b("see https://upstream.example/a and http://upstream.example/b");
    let out = rewrite_content_urls(content, &b("http://mysite.example"), &upstream_mode());
    assert_eq!(out, b("see http://mysite.example/a and http://mysite.example/b"));
}

#[test]
fn rewrite_without_occurrences_changes_nothing() {
    let content = b("<p>no links here at all</p>");
    let out = rewrite_content_urls(content.clone(), &b("http://mysite.example"), &upstream_mode());
    assert_eq!(out, content);
    let out = rewrite_content_urls(content.clone(), &b("http://mysite.example"), &Mode::SPSEJECNA);
    assert_eq!(out, content);
}

#[test]
fn set_cookie_multiplicity_preserved() {
    let mut upstream = Headers::new();
    upstream.append(b("set-cookie"), b("a=1; Domain=upstream.example"));
    upstream.append(b("content-type"), b("text/html"));
    upstream.append(b("set-cookie"), b("b=2; Secure"));
    let out = transform_response_headers(&upstream, &b("http://mysite.example"), false, &upstream_mode());
    let cookies: Vec<String> = out
        .entries
        .iter()
        .filter(|(n, _)| n == &b("set-cookie"))
        .map(|(_, v)| String::from_utf8(v.clone()).unwrap())
        .collect();
    assert_eq!(cookies.len(), 2);
    assert_eq!(cookies[0], "a=1; SameSite=Lax");
    assert_eq!(cookies[1], "b=2; SameSite=Lax");
}

#[test]
fn full_html_round_trip() {
    let config = Config {
        port: 3000,
        base_url: None,
        disable_warning: false,
        mode: upstream_mode(),
    };
    let mut inbound = Headers::new();
    inbound.append(b("host"), b("mysite.example"));
    inbound.append(b("accept"), b("text/html"));
    let plan = plan_proxy_request(&config, Some(&b("/foo?x=1")), inbound);
    assert_eq!(plan.target_url, b("https://upstream.example/foo?x=1"));
    assert_eq!(plan.proxy_origin, b("http://mysite.example"));
    assert!(!plan.is_secure);
    assert!(plan.headers.get_first(&b("host")).is_none());
    assert_eq!(plan.headers.get_first(&b("accept")), Some(&b("text/html")));

    let mut upstream = Headers::new();
    upstream.append(b("content-type"), b("text/html"));
    upstream.append(b("content-length"), b("58"));
    let mut outbound = transform_response_headers(
        &upstream,
        &plan.proxy_origin,
        plan.is_secure,
        &config.mode,
    );
    assert!(should_buffer_body(&outbound));
    let body = b("<html><body>Visit https://upstream.example/page</body></html>");
    let new_body = process_buffered_body(
        &body,
        &mut outbound,
        &plan.proxy_origin,
        &config.mode,
        config.disable_warning,
    );
    let new_body = String::from_utf8(new_body).unwrap();
    assert!(new_body.contains("http://mysite.example/page"));
    assert!(new_body.contains(BANNER_HTML));
    assert!(outbound.get_first(&b("content-length")).is_none());
}

#[test]
fn redirect_location_rewritten_to_proxy_origin() {
    let mut upstream = Headers::new();
    upstream.append(b("location"), b("https://upstream.example/login"));
    let out = transform_response_headers(&upstream, &b("http://mysite.example"), false, &upstream_mode());
    assert_eq!(out.get_first(&b("location")), Some(&b("http://mysite.example/login")));
}

#[test]
fn location_never_empties_to_nothing() {
    let mut upstream = Headers::new();
    upstream.append(b("location"), b("https://upstream.example"));
    let out = transform_response_headers(&upstream, &b(""), false, &upstream_mode());
    assert_eq!(out.get_first(&b("location")), Some(&b("/")));
}

#[test]
fn binary_content_streams_untouched() {
    let mut upstream = Headers::new();
    upstream.append(b("content-type"), b("image/png"));
    upstream.append(b("content-length"), b("4"));
    let out = transform_response_headers(&upstream, &b("http://mysite.example"), false, &upstream_mode());
    assert!(!should_buffer_body(&out));
    assert_eq!(out.get_first(&b("content-type")), Some(&b("image/png")));
    assert_eq!(out.get_first(&b("content-length")), Some(&b("4")));
    assert_eq!(out.entries.len(), 2);
}

#[test]
fn request_headers_sanitized_for_upstream() {
    let mut h = Headers::new();
    h.append(b("host"), b("mysite.example"));
    h.append(b("content-length"), b("12"));
    h.append(b("accept-encoding"), b("gzip"));
    h.append(b("origin"), b("http://mysite.example"));
    h.append(b("x-custom"), b("kept"));
    prepare_request_headers(&mut h, &upstream_mode());
    assert!(h.get_first(&b("host")).is_none());
    assert!(h.get_first(&b("content-length")).is_none());
    assert!(h.get_first(&b("accept-encoding")).is_none());
    assert_eq!(h.get_first(&b("origin")), Some(&b("https://upstream.example")));
    assert_eq!(h.get_first(&b("x-custom")), Some(&b("kept")));
}

#[test]
fn referer_rebased_onto_upstream() {
    let mut h = Headers::new();
    h.append(b("referer"), b("http://mysite.example/some/page?q=1"));
    prepare_request_headers(&mut h, &upstream_mode());
    assert_eq!(
        h.get_first(&b("referer")),
        Some(&b("https://upstream.example/some/page?q=1"))
    );
}

#[test]
fn unparseable_referer_passes_through() {
    let mut h = Headers::new();
    h.append(b("referer"), b("not a url"));
    prepare_request_headers(&mut h, &upstream_mode());
    assert_eq!(h.get_first(&b("referer")), Some(&b("not a url")));
}

#[test]
fn unrepresentable_location_keeps_upstream_value() {
    let mut upstream = Headers::new();
    upstream.append(b("location"), b("https://upstream.example/x"));
    let mut origin = b("http://mysite.example");
    origin.push(0x01);
    let out = transform_response_headers(&upstream, &origin, false, &upstream_mode());
    assert_eq!(out.get_first(&b("location")), Some(&b("https://upstream.example/x")));
}

#[test]
fn unrepresentable_cookie_keeps_upstream_value() {
    let mut upstream = Headers::new();
    let mut raw = b("a=");
    raw.push(0x01);
    upstream.append(b("set-cookie"), raw.clone());
    let out = transform_response_headers(&upstream, &b("http://mysite.example"), false, &upstream_mode());
    assert_eq!(out.get_first(&b("set-cookie")), Some(&raw));
}

#[test]
fn unrepresentable_upstream_url_leaves_origin_header() {
    let mut url = b("https://upstream.example");
    url.push(0x01);
    let mode = Mode::CUSTOM(url);
    let mut h = Headers::new();
    h.append(b("origin"), b("http://mysite.example"));
    prepare_request_headers(&mut h, &mode);
    assert_eq!(h.get_first(&b("origin")), Some(&b("http://mysite.example")));
}

#[test]
fn invalid_utf8_body_decoded_permissively() {
    let mut headers = Headers::new();
    headers.append(b("content-type"), b("text/css"));
    let body = vec![0xffu8, 0x61];
    let out = process_buffered_body(
        &body,
        &mut headers,
        &b("http://mysite.example"),
        &upstream_mode(),
        true,
    );
    assert_eq!(out, "\u{FFFD}a".as_bytes().to_vec());
}

#[test]
fn banner_suppressed_when_disabled() {
    let mut headers = Headers::new();
    headers.append(b("content-type"), b("text/html"));
    let body = b("<html><body>hi</body></html>");
    let out = process_buffered_body(
        &body,
        &mut headers,
        &b("http://mysite.example"),
        &upstream_mode(),
        true,
    );
    assert_eq!(out, body);
}
