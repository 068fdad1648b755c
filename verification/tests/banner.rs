use mirror_proxy::handlers::inject_banner;
use mirror_proxy::handlers::BANNER_HTML;

fn inject(html: &str) -> String {
    let mut body = html.as_bytes().to_vec();
    inject_banner(&mut body);
    String::from_utf8(body).unwrap()
}

#[test]
fn test_inject_banner_basic() {
    let html = inject("<html><body><h1>Hello</h1></body></html>");
    assert!(html.contains("<body><div"));
    assert!(html.contains(BANNER_HTML));
}

#[test]
fn test_inject_banner_attributes() {
    let html = inject("<html lang='en'><body class='foo'><h1>Hello</h1></body></html>");
    assert!(html.contains("<body class='foo'><div"));
}

#[test]
fn test_inject_banner_case() {
    let html = inject("<HTML><BODY><h1>Hello</h1></BODY></HTML>");
    assert!(html.contains("<BODY><div"));
}

#[test]
fn test_inject_banner_no_body() {
    let html = inject("<h1>Hello</h1>");
    assert!(html.starts_with("<div"));
    assert!(html.contains("<h1>Hello</h1>"));
}

#[test]
fn banner_follows_body_tag_with_attributes() {
    let html = inject("<html><body class='x'><p>hi</p></body></html>");
    let expected = format!("<body class='x'>{}", "<div");
    assert!(html.contains(&expected));
    assert!(html.contains(BANNER_HTML));
}

#[test]
fn banner_prepended_without_body_tag() {
    let html = inject("plain text only");
    assert!(html.starts_with(BANNER_HTML));
    assert!(html.ends_with("plain text only"));
}

#[test]
fn banner_goes_after_first_body_tag_only() {
    let html = inject("<body><body>");
    let expected = format!("<body>{}<body>", BANNER_HTML);
    assert_eq!(html, expected);
}

#[test]
fn banner_skips_longer_tag_names() {
    let html = inject("<bodyguard><p>x</p>");
    assert!(html.starts_with(BANNER_HTML));
}
