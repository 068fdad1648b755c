//! The response pipeline: header transformation, the buffer-or-stream
//! decision, body rewriting with banner injection, and the per-request
//! forwarding plan.

use vstd::prelude::*;
use vstd::string::StrSliceExecFns;
use vstd::string::StringSliceAdditionalSpecFns;

use crate::config::Config;
use crate::config::Mode;
use crate::headers::Headers;
use crate::headers::copy_bytes;
use crate::headers::get_first_spec;
use crate::headers::is_header_value;
use crate::headers::is_header_value_spec;
use crate::headers::key_eq;
use crate::headers::key_matches;
use crate::headers::remove_key_spec;
use crate::text::bytes_contains;
use crate::text::bytes_eq;
use crate::text::contains_seq;
use crate::text::find_byte_from;
use crate::text::is_ws;
use crate::text::is_ws_byte;
use crate::text::lower_bytes;
use crate::text::lower_seq;
use crate::text::push_all;
use crate::text::subvec;
use crate::utils::determine_proxy_origin;
use crate::utils::is_secure_origin;
use crate::utils::is_secure_spec;
use crate::utils::origin_spec;
use crate::utils::prepare_request_headers;
use crate::utils::prepared_headers_spec;
use crate::utils::process_cookie;
use crate::utils::process_cookie_spec;
use crate::utils::rewrite_content_urls;
use crate::utils::rewrite_seq;

verus! {

/// The disclaimer fragment inserted into mirrored HTML pages: a
/// full-viewport overlay naming the real site, with a client-side timer
/// that redirects there.
pub const BANNER_HTML: &'static str =
    "<div style=\"width: 100vw; height: 100vh; position: fixed; z-index: 1000; background-color: black; color: white; display: flex; flex-direction: column; justify-content: center; align-items: center; text-align: center; gap: 5px;\">\n  <h1 style=\"font-size: 40px;\">Toto nen\u{ed} ofici\u{e1}ln\u{ed} web SP\u{160}E Je\u{10d}n\u{e1}!</h1>\n  <p style=\"font-size: 20px;\">Ofici\u{e1}ln\u{ed} web se nach\u{e1}z\u{ed} na <a style=\"font-size: 20px; color: white;\" href=\"https://spsejecna.cz\">spsejecna.cz</a>.</p>\n  <script>\n    setTimeout(() => {\n      const { pathname, search, hash } = window.location;\n      window.location.replace(\n        \"https://spsejecna.cz\" + pathname + search + hash\n      );\n    }, 500);\n  </script>\n</div>";

/// The banner fragment's bytes.
pub open spec fn banner_bytes_spec() -> Seq<u8> {
    BANNER_HTML.spec_bytes()
}

/// The banner fragment as a byte string.
pub fn banner_bytes() -> (r: Vec<u8>)
    ensures
        r@ == banner_bytes_spec(),
{
    BANNER_HTML.as_bytes_vec()
}

/// An opening `body` tag begins at `i`: a `<`, the tag name
/// ASCII-case-insensitively, then `>` or whitespace (attributes may
/// follow before the closing `>`).
pub open spec fn is_body_tag_at(s: Seq<u8>, i: int) -> bool {
    &&& 0 <= i
    &&& i + 6 <= s.len()
    &&& s[i] == 60
    &&& lower_seq(s.subrange(i + 1, i + 5)) == "body".spec_bytes()
    &&& (s[i + 5] == 62 || is_ws_byte(s[i + 5]))
}

/// The first `>` at or after `i`, if any.
pub open spec fn find_gt_from(s: Seq<u8>, i: int) -> Option<int>
    decreases s.len() - i when 0 <= i <= s.len()
{
    if i >= s.len() {
        None
    } else if s[i] == 62 {
        Some(i)
    } else {
        find_gt_from(s, i + 1)
    }
}

/// Scanning from `i`: the position just after the `>` that closes the
/// first opening `body` tag, if one with a closing `>` exists.
pub open spec fn banner_pos_from(s: Seq<u8>, i: int) -> Option<int>
    decreases s.len() - i when 0 <= i <= s.len()
{
    if i >= s.len() {
        None
    } else if is_body_tag_at(s, i) && find_gt_from(s, i) is Some {
        Some(find_gt_from(s, i)->Some_0 + 1)
    } else {
        banner_pos_from(s, i + 1)
    }
}

/// Where the banner goes: just after the first opening `body` tag, or at
/// the very start when no such tag exists.
pub open spec fn banner_insert_pos(s: Seq<u8>) -> int {
    match banner_pos_from(s, 0) {
        Some(p) => p,
        None => 0,
    }
}

/// The document with the banner fragment inserted at its insert position.
pub open spec fn inject_banner_spec(s: Seq<u8>) -> Seq<u8> {
    let p = banner_insert_pos(s);
    s.take(p) + banner_bytes_spec() + s.skip(p)
}

/// A first occurrence of `>` is what `find_gt_from` finds.
proof fn lemma_find_gt_char(s: Seq<u8>, i: int, g: int)
    requires
        0 <= i <= g < s.len(),
        s[g] == 62,
        forall|k: int| i <= k < g ==> s[k] != 62,
    ensures
        find_gt_from(s, i) == Some(g),
    decreases g - i,
{
    if i < g {
        lemma_find_gt_char(s, i + 1, g);
    }
}

/// Without an occurrence of `>`, `find_gt_from` finds nothing.
proof fn lemma_find_gt_none(s: Seq<u8>, i: int)
    requires
        0 <= i <= s.len(),
        forall|k: int| i <= k < s.len() ==> s[k] != 62,
    ensures
        find_gt_from(s, i) is None,
    decreases s.len() - i,
{
    if i < s.len() {
        lemma_find_gt_none(s, i + 1);
    }
}

/// Inserts the disclaimer banner immediately after the first opening
/// `body` tag, or at the start of the document when none exists.
pub fn inject_banner(body: &mut Vec<u8>)
    ensures
        final(body)@ == inject_banner_spec(old(body)@),
{
    let ghost s = body@;
    let body_lit = "body".as_bytes_vec();
    let mut i: usize = 0;
    let mut pos: usize = 0;
    let mut found = false;
    while !found && i < body.len()
        invariant
            body@ == s,
            i <= s.len(),
            body_lit@ == "body".spec_bytes(),
            !found ==> pos == 0 && banner_pos_from(s, 0) == banner_pos_from(s, i as int),
            found ==> banner_pos_from(s, 0) == Some(pos as int) && pos <= s.len(),
        decreases s.len() - i + (if found {
            0int
        } else {
            1int
        }),
    {
        let mut tag_here = false;
        if body[i] == 60 && body.len() - i >= 6 {
            let mid = subvec(body, i + 1, i + 5);
            let lm = lower_bytes(&mid);
            if bytes_eq(&lm, &body_lit) {
                let after = body[i + 5];
                if after == 62 || is_ws(after) {
                    tag_here = true;
                }
            }
        }
        proof {
            assert(tag_here == is_body_tag_at(s, i as int));
        }
        if tag_here {
            match find_byte_from(body, 62, i) {
                Some(g) => {
                    proof {
                        lemma_find_gt_char(s, i as int, g as int);
                    }
                    pos = g + 1;
                    found = true;
                },
                None => {
                    proof {
                        lemma_find_gt_none(s, i as int);
                    }
                    i = i + 1;
                },
            }
        } else {
            i = i + 1;
        }
    }
    let banner = banner_bytes();
    let mut out = subvec(body, 0, pos);
    let tail = subvec(body, pos, body.len());
    push_all(&mut out, &banner);
    push_all(&mut out, &tail);
    *body = out;
}

/// What one outbound header entry becomes while copying from the
/// upstream response: `Set-Cookie` values re-scoped, `Location` values
/// rewritten to the proxy origin (an empty outcome becomes `/`), and
/// everything else copied verbatim. A rewritten value the transport
/// cannot represent falls back to the upstream original — a header is
/// never dropped.
pub open spec fn transform_header_entry(
    e: (Seq<u8>, Seq<u8>),
    origin: Seq<u8>,
    secure: bool,
    variants: Seq<Seq<u8>>,
) -> (Seq<u8>, Seq<u8>) {
    if key_matches(e.0, "set-cookie".spec_bytes()) {
        let nv = process_cookie_spec(e.1, secure);
        (e.0, if is_header_value_spec(nv) {
            nv
        } else {
            e.1
        })
    } else if key_matches(e.0, "location".spec_bytes()) {
        let l = rewrite_seq(e.1, variants, origin);
        let nv = if l.len() == 0 {
            "/".spec_bytes()
        } else {
            l
        };
        (e.0, if is_header_value_spec(nv) {
            nv
        } else {
            e.1
        })
    } else {
        e
    }
}

/// Every upstream header entry transformed, order and multiplicity kept.
pub open spec fn transform_headers_spec(
    h: Seq<(Seq<u8>, Seq<u8>)>,
    origin: Seq<u8>,
    secure: bool,
    variants: Seq<Seq<u8>>,
) -> Seq<(Seq<u8>, Seq<u8>)> {
    h.map_values(|e: (Seq<u8>, Seq<u8>)| transform_header_entry(e, origin, secure, variants))
}

/// Copies every header from the upstream response to the outbound set,
/// re-scoping each `Set-Cookie` and rewriting each `Location`.
pub fn transform_response_headers(
    upstream: &Headers,
    proxy_origin: &Vec<u8>,
    is_secure: bool,
    mode: &Mode,
) -> (r: Headers)
    ensures
        r@ == transform_headers_spec(upstream@, proxy_origin@, is_secure, mode.variants_spec()),
{
    let set_cookie_key = "set-cookie".as_bytes_vec();
    let location_key = "location".as_bytes_vec();
    let mut r = Headers::new();
    let mut i: usize = 0;
    while i < upstream.len()
        invariant
            i <= upstream@.len(),
            set_cookie_key@ == "set-cookie".spec_bytes(),
            location_key@ == "location".spec_bytes(),
            r@ == transform_headers_spec(
                upstream@.take(i as int),
                proxy_origin@,
                is_secure,
                mode.variants_spec(),
            ),
        decreases upstream@.len() - i,
    {
        let name = upstream.name_at(i);
        if key_eq(name, &set_cookie_key) {
            let nv = process_cookie(upstream.value_at(i), is_secure);
            if is_header_value(&nv) {
                r.append(copy_bytes(name), nv);
            } else {
                r.append(copy_bytes(name), copy_bytes(upstream.value_at(i)));
            }
        } else if key_eq(name, &location_key) {
            let lv = rewrite_content_urls(copy_bytes(upstream.value_at(i)), proxy_origin, mode);
            let nv = if lv.len() == 0 {
                "/".as_bytes_vec()
            } else {
                lv
            };
            if is_header_value(&nv) {
                r.append(copy_bytes(name), nv);
            } else {
                r.append(copy_bytes(name), copy_bytes(upstream.value_at(i)));
            }
        } else {
            r.append(copy_bytes(name), copy_bytes(upstream.value_at(i)));
        }
        proof {
            assert(r@ =~= transform_headers_spec(
                upstream@.take(i + 1),
                proxy_origin@,
                is_secure,
                mode.variants_spec(),
            ));
        }
        i = i + 1;
    }
    proof {
        assert(upstream@.take(upstream@.len() as int) =~= upstream@);
    }
    r
}

/// The outbound `Content-Type`: the first such header's value, or empty.
pub open spec fn content_type_of(h: Seq<(Seq<u8>, Seq<u8>)>) -> Seq<u8> {
    match get_first_spec(h, "content-type".spec_bytes()) {
        Some(v) => v,
        None => Seq::<u8>::empty(),
    }
}

/// The content types whose bodies are buffered and rewritten; every
/// other body streams through untouched.
pub open spec fn is_textual_spec(ct: Seq<u8>) -> bool {
    ||| contains_seq(ct, "text/html".spec_bytes())
    ||| contains_seq(ct, "application/javascript".spec_bytes())
    ||| contains_seq(ct, "application/json".spec_bytes())
    ||| contains_seq(ct, "text/css".spec_bytes())
}

/// Whether the response's body must be buffered and rewritten, judged by
/// the outbound `Content-Type`.
pub open spec fn should_buffer_spec(h: Seq<(Seq<u8>, Seq<u8>)>) -> bool {
    is_textual_spec(content_type_of(h))
}

/// Decides between buffering (textual content, to be rewritten) and
/// streaming the body byte-for-byte.
pub fn should_buffer_body(headers: &Headers) -> (r: bool)
    ensures
        r == should_buffer_spec(headers@),
{
    let ct_key = "content-type".as_bytes_vec();
    let ct: Vec<u8> = match headers.get_first(&ct_key) {
        Some(v) => copy_bytes(v),
        None => Vec::new(),
    };
    proof {
        assert(ct@ =~= content_type_of(headers@));
    }
    bytes_contains(&ct, &"text/html".as_bytes_vec()) || bytes_contains(
        &ct,
        &"application/javascript".as_bytes_vec(),
    ) || bytes_contains(&ct, &"application/json".as_bytes_vec()) || bytes_contains(
        &ct,
        &"text/css".as_bytes_vec(),
    )
}

/// What a decoded byte string reads as under permissive UTF-8 decoding:
/// invalid sequences replaced, never an error. A function of the bytes
/// alone.
pub uninterp spec fn lossy_utf8(bytes: Seq<u8>) -> Seq<u8>;

/// Relies on String::from_utf8_lossy: decodes bytes as UTF-8, replacing
/// each invalid sequence with U+FFFD; already-valid UTF-8 comes back
/// unchanged.
#[verifier::external_body]
fn lossy_decode(bytes: &Vec<u8>) -> (r: Vec<u8>)
    ensures
        r@ == lossy_utf8(bytes@),
        vstd::utf8::valid_utf8(bytes@) ==> r@ == bytes@,
{
    String::from_utf8_lossy(bytes).into_owned().into_bytes()
}

/// The headers whose upstream values no longer hold after a body was
/// rewritten, removed from the outbound set.
pub open spec fn stripped_headers_spec(h: Seq<(Seq<u8>, Seq<u8>)>) -> Seq<(Seq<u8>, Seq<u8>)> {
    remove_key_spec(
        remove_key_spec(
            remove_key_spec(h, "content-length".spec_bytes()),
            "transfer-encoding".spec_bytes(),
        ),
        "content-encoding".spec_bytes(),
    )
}

/// What a buffered body becomes: permissively decoded, every upstream
/// variant rewritten to the proxy origin, and — for HTML with the banner
/// enabled — the banner injected.
pub open spec fn rewritten_body_spec(
    body: Seq<u8>,
    ct: Seq<u8>,
    origin: Seq<u8>,
    variants: Seq<Seq<u8>>,
    disable_warning: bool,
) -> Seq<u8> {
    let rewritten = rewrite_seq(lossy_utf8(body), variants, origin);
    if contains_seq(ct, "text/html".spec_bytes()) && !disable_warning {
        inject_banner_spec(rewritten)
    } else {
        rewritten
    }
}

/// Rewrites a buffered upstream body and drops the outbound headers that
/// no longer describe it (`Content-Length`, `Transfer-Encoding`,
/// `Content-Encoding`).
pub fn process_buffered_body(
    body: &Vec<u8>,
    headers: &mut Headers,
    proxy_origin: &Vec<u8>,
    mode: &Mode,
    disable_warning: bool,
) -> (r: Vec<u8>)
    ensures
        r@ == rewritten_body_spec(
            body@,
            content_type_of(old(headers)@),
            proxy_origin@,
            mode.variants_spec(),
            disable_warning,
        ),
        final(headers)@ == stripped_headers_spec(old(headers)@),
{
    let ct_key = "content-type".as_bytes_vec();
    let ct: Vec<u8> = match headers.get_first(&ct_key) {
        Some(v) => copy_bytes(v),
        None => Vec::new(),
    };
    proof {
        assert(ct@ =~= content_type_of(headers@));
    }
    let text = lossy_decode(body);
    let mut out = rewrite_content_urls(text, proxy_origin, mode);
    if bytes_contains(&ct, &"text/html".as_bytes_vec()) && !disable_warning {
        inject_banner(&mut out);
    }
    headers.remove_all(&"content-length".as_bytes_vec());
    headers.remove_all(&"transfer-encoding".as_bytes_vec());
    headers.remove_all(&"content-encoding".as_bytes_vec());
    out
}

/// Everything the transport needs to forward one request upstream.
pub struct PlannedRequest {
    /// The full upstream URL the request goes to.
    pub target_url: Vec<u8>,
    /// The proxy's public origin for this request.
    pub proxy_origin: Vec<u8>,
    /// Whether the origin counts as a secure context.
    pub is_secure: bool,
    /// The sanitized headers to forward.
    pub headers: Headers,
}

/// The forwarding target: the upstream base URL before the request's
/// path and query (`/` when the request carries none).
pub open spec fn target_url_spec(m: Mode, path_query: Option<Seq<u8>>) -> Seq<u8> {
    m.url_spec() + (match path_query {
        Some(p) => p,
        None => "/".spec_bytes(),
    })
}

/// Plans one proxied request: resolves the public origin, judges the
/// secure context, builds the upstream target and sanitizes the headers.
pub fn plan_proxy_request(config: &Config, path_query: Option<&Vec<u8>>, headers: Headers) -> (r:
    PlannedRequest)
    ensures
        r.target_url@ == target_url_spec(
            config.mode,
            match path_query {
                Some(p) => Some(p@),
                None => None,
            },
        ),
        r.proxy_origin@ == origin_spec(
            match config.base_url {
                Some(b) => Some(b@),
                None => None,
            },
            headers@,
        ),
        r.is_secure == is_secure_spec(r.proxy_origin@),
        r.headers@ == prepared_headers_spec(headers@, config.mode.url_spec()),
{
    let mut target = config.mode.url();
    match path_query {
        Some(p) => push_all(&mut target, p),
        None => push_all(&mut target, &"/".as_bytes_vec()),
    }
    let proxy_origin = determine_proxy_origin(config.base_url.as_ref(), &headers);
    let is_secure = is_secure_origin(&proxy_origin);
    let mut prepared = headers;
    prepare_request_headers(&mut prepared, &config.mode);
    PlannedRequest { target_url: target, proxy_origin, is_secure, headers: prepared }
}

/// Without an opening `body` tag anywhere, the scan finds no position.
proof fn lemma_banner_pos_none(s: Seq<u8>, i: int)
    requires
        0 <= i <= s.len(),
        forall|j: int| !is_body_tag_at(s, j),
    ensures
        banner_pos_from(s, i) is None,
    decreases s.len() - i,
{
    if i < s.len() {
        lemma_banner_pos_none(s, i + 1);
    }
}

/// A document without an opening `body` tag gets the banner prepended at
/// position zero.
pub proof fn lemma_inject_without_body_tag(s: Seq<u8>)
    requires
        forall|j: int| !is_body_tag_at(s, j),
    ensures
        inject_banner_spec(s) == banner_bytes_spec() + s,
{
    lemma_banner_pos_none(s, 0);
    assert(s.take(0) =~= Seq::<u8>::empty());
    assert(s.skip(0) =~= s);
    assert(Seq::<u8>::empty() + banner_bytes_spec() + s =~= banner_bytes_spec() + s);
}

/// How often a header name occurs in a header list.
pub open spec fn count_key(h: Seq<(Seq<u8>, Seq<u8>)>, key: Seq<u8>) -> int
    decreases h.len(),
{
    if h.len() == 0 {
        0
    } else {
        count_key(h.drop_last(), key) + (if key_matches(h.last().0, key) {
            1int
        } else {
            0int
        })
    }
}

/// Header transformation keeps every header's name, so each name — in
/// particular `Set-Cookie` — occurs in the outbound set exactly as often
/// as upstream sent it.
pub proof fn lemma_transform_keeps_multiplicity(
    h: Seq<(Seq<u8>, Seq<u8>)>,
    origin: Seq<u8>,
    secure: bool,
    variants: Seq<Seq<u8>>,
    key: Seq<u8>,
)
    ensures
        count_key(transform_headers_spec(h, origin, secure, variants), key) == count_key(h, key),
    decreases h.len(),
{
    if h.len() > 0 {
        let t = transform_headers_spec(h, origin, secure, variants);
        assert(t.drop_last() =~= transform_headers_spec(h.drop_last(), origin, secure, variants));
        assert(t.last().0 == h.last().0);
        lemma_transform_keeps_multiplicity(h.drop_last(), origin, secure, variants, key);
    }
}

} // verus!
