use mirror_proxy::utils::process_cookie;

fn rewrite(cookie: &str, secure: bool) -> String {
    let out = process_cookie(&cookie.as_bytes().to_vec(), secure);
    String::from_utf8(out).unwrap()
}

#[test]
fn cookie_rescoped_in_secure_context() {
    let out = rewrite("id=1; Domain=example.com; Secure; SameSite=Strict", true);
    assert_eq!(out, "id=1; Secure; SameSite=None");
    assert!(out.contains("id=1"));
    assert!(!out.contains("Domain="));
    assert_eq!(out.matches("Secure").count(), 1);
    assert!(out.ends_with("SameSite=None"));
    assert_eq!(out.matches("SameSite").count(), 1);
}

#[test]
fn cookie_rescoped_in_insecure_context() {
    let out = rewrite("id=1; Domain=example.com; Secure; SameSite=Strict", false);
    assert_eq!(out, "id=1; SameSite=Lax");
    assert!(!out.contains("Secure"));
    assert!(out.contains("SameSite=Lax"));
}

#[test]
fn cookie_secure_added_when_missing() {
    let out = rewrite("sid=abc; Path=/; HttpOnly", true);
    assert_eq!(out, "sid=abc; Path=/; HttpOnly; Secure; SameSite=None");
}

#[test]
fn cookie_insecure_keeps_path_and_httponly() {
    let out = rewrite("sid=abc; path=/app; httponly", false);
    assert_eq!(out, "sid=abc; path=/app; HttpOnly; SameSite=Lax");
}

#[test]
fn cookie_domain_dropped_case_insensitively() {
    let out = rewrite("a=b; DOMAIN=x.example; secure", false);
    assert_eq!(out, "a=b; SameSite=Lax");
}

#[test]
fn cookie_attributes_are_trimmed() {
    let out = rewrite("a=b ;  Max-Age=60 ", false);
    assert_eq!(out, "a=b; Max-Age=60; SameSite=Lax");
}

#[test]
fn repeated_secure_flags_collapse_to_one() {
    let out = rewrite("a=1; Secure; Secure", true);
    assert_eq!(out, "a=1; Secure; SameSite=None");
    assert_eq!(out.matches("Secure").count(), 1);
    let out = rewrite("Secure; a=1; secure; SECURE", true);
    assert_eq!(out, "Secure; a=1; SameSite=None");
    let out = rewrite("a=1; Secure; Secure", false);
    assert_eq!(out, "a=1; SameSite=Lax");
}

#[test]
fn empty_cookie_still_gets_samesite() {
    let out = rewrite("", false);
    assert_eq!(out, "; SameSite=Lax");
}
