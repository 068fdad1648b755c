//! Per-request transformations: origin resolution, the secure-context
//! heuristic, content URL rewriting, cookie re-scoping, and inbound header
//! sanitization.

use vstd::prelude::*;
use vstd::string::StrSliceExecFns;
use vstd::string::StringSliceAdditionalSpecFns;

use crate::config::Mode;
use crate::headers::Headers;
use crate::headers::contains_key_spec;
use crate::headers::get_first_spec;
use crate::headers::is_header_value;
use crate::headers::is_header_value_spec;
use crate::headers::remove_key_spec;
use crate::text::byte_views;
use crate::text::bytes_contains;
use crate::text::bytes_eq;
use crate::text::bytes_starts_with;
use crate::text::contains_seq;
use crate::text::find_byte_from;
use crate::text::join_parts;
use crate::text::lemma_join_push;
use crate::text::lemma_replace_all_absent;
use crate::text::lemma_split_first_sep;
use crate::text::lemma_split_no_sep;
use crate::text::lemma_split_nonempty;
use crate::text::lower_bytes;
use crate::text::lower_seq;
use crate::text::push_all;
use crate::text::replace_all;
use crate::text::replace_all_bytes;
use crate::text::split_bytes_spec;
use crate::text::starts_with_seq;
use crate::text::subvec;
use crate::text::trim_bytes;
use crate::text::trim_spec;

verus! {

/// The base URL with every trailing `/` removed.
pub open spec fn trim_trailing_slashes(s: Seq<u8>) -> Seq<u8>
    decreases s.len(),
{
    if s.len() > 0 && s.last() == 47 {
        trim_trailing_slashes(s.drop_last())
    } else {
        s
    }
}

/// The public origin of the proxy: the configured base URL when present
/// (trailing slashes stripped), else `http://` before the `Host` header,
/// else `http://localhost:3000`.
pub open spec fn origin_spec(base: Option<Seq<u8>>, h: Seq<(Seq<u8>, Seq<u8>)>) -> Seq<u8> {
    match base {
        Some(b) => trim_trailing_slashes(b),
        None => "http://".spec_bytes() + (match get_first_spec(h, "host".spec_bytes()) {
            Some(v) => v,
            None => "localhost:3000".spec_bytes(),
        }),
    }
}

/// Trailing slashes after a last other byte are all that stripping removes.
proof fn lemma_trim_slashes_at(s: Seq<u8>, hi: int)
    requires
        0 <= hi <= s.len(),
        forall|j: int| hi <= j < s.len() ==> s[j] == 47,
        hi > 0 ==> s[hi - 1] != 47,
    ensures
        trim_trailing_slashes(s) == s.take(hi),
    decreases s.len() - hi,
{
    if hi == s.len() {
        assert(s.take(hi) =~= s);
    } else {
        lemma_trim_slashes_at(s.drop_last(), hi);
        assert(s.drop_last().take(hi) =~= s.take(hi));
    }
}

/// Determines the public origin of the proxy for the current request.
///
/// Priority: the configured base URL; the `Host` header of the incoming
/// request; the literal `http://localhost:3000`.
pub fn determine_proxy_origin(base_url: Option<&Vec<u8>>, headers: &Headers) -> (r: Vec<u8>)
    ensures
        r@ == origin_spec(
            match base_url {
                Some(b) => Some(b@),
                None => None,
            },
            headers@,
        ),
{
    match base_url {
        Some(b) => {
            let mut hi: usize = b.len();
            while hi > 0 && b[hi - 1] == 47
                invariant
                    hi <= b@.len(),
                    forall|j: int| hi <= j < b@.len() ==> b@[j] == 47,
                decreases hi,
            {
                hi = hi - 1;
            }
            proof {
                lemma_trim_slashes_at(b@, hi as int);
            }
            subvec(b, 0, hi)
        },
        None => {
            let mut r = "http://".as_bytes_vec();
            let host_key = "host".as_bytes_vec();
            match headers.get_first(&host_key) {
                Some(v) => {
                    push_all(&mut r, v);
                },
                None => {
                    push_all(&mut r, &"localhost:3000".as_bytes_vec());
                },
            }
            r
        },
    }
}

/// The proxy origin counts as secure when it is served over HTTPS or from
/// the local machine: a string-level heuristic, not a TLS check.
pub open spec fn is_secure_spec(origin: Seq<u8>) -> bool {
    starts_with_seq(origin, "https://".spec_bytes()) || contains_seq(
        origin,
        "://localhost".spec_bytes(),
    ) || contains_seq(origin, "://127.0.0.1".spec_bytes())
}

/// Checks if the proxy origin is considered "secure" (HTTPS or localhost).
pub fn is_secure_origin(origin: &Vec<u8>) -> (r: bool)
    ensures
        r == is_secure_spec(origin@),
{
    bytes_starts_with(origin, &"https://".as_bytes_vec()) || bytes_contains(
        origin,
        &"://localhost".as_bytes_vec(),
    ) || bytes_contains(origin, &"://127.0.0.1".as_bytes_vec())
}

/// The content after each variant, in list order, has been replaced by the
/// proxy origin, each pass scanning the outcome of the one before.
pub open spec fn rewrite_seq(content: Seq<u8>, variants: Seq<Seq<u8>>, origin: Seq<u8>) -> Seq<u8>
    decreases variants.len(),
{
    if variants.len() == 0 {
        content
    } else {
        rewrite_seq(replace_all(content, variants[0], origin), variants.skip(1), origin)
    }
}

/// Rewrites a content string (HTML, JSON, a header value) to point to the
/// proxy instead of the upstream.
pub fn rewrite_content_urls(content: Vec<u8>, proxy_origin: &Vec<u8>, mode: &Mode) -> (r: Vec<u8>)
    ensures
        r@ == rewrite_seq(content@, mode.variants_spec(), proxy_origin@),
{
    let variants = mode.get_all_variants();
    let ghost vs = byte_views(variants@);
    let ghost content0 = content@;
    let mut result = content;
    let mut i: usize = 0;
    proof {
        assert(vs.skip(0) =~= vs);
    }
    while i < variants.len()
        invariant
            i <= variants@.len(),
            vs == byte_views(variants@),
            vs == mode.variants_spec(),
            rewrite_seq(content0, vs, proxy_origin@) == rewrite_seq(
                result@,
                vs.skip(i as int),
                proxy_origin@,
            ),
        decreases variants@.len() - i,
    {
        let next = replace_all_bytes(&result, &variants[i], proxy_origin);
        proof {
            assert(vs.skip(i as int)[0] == vs[i as int]);
            assert(vs.skip(i as int).skip(1) =~= vs.skip(i + 1));
        }
        result = next;
        i = i + 1;
    }
    result
}

/// Content without any occurrence of a variant comes back from rewriting
/// unchanged.
pub proof fn lemma_rewrite_no_occurrence(content: Seq<u8>, variants: Seq<Seq<u8>>, origin: Seq<u8>)
    requires
        forall|i: int| 0 <= i < variants.len() ==> !contains_seq(content, #[trigger] variants[i]),
    ensures
        rewrite_seq(content, variants, origin) == content,
    decreases variants.len(),
{
    if variants.len() > 0 {
        lemma_replace_all_absent(content, variants[0], origin);
        assert(forall|i: int|
            0 <= i < variants.skip(1).len() ==> variants.skip(1)[i] == variants[i + 1]);
        lemma_rewrite_no_occurrence(content, variants.skip(1), origin);
    }
}

/// What becomes of one trimmed cookie attribute: `Domain` and `SameSite`
/// are dropped, the first `Secure` flag is kept (in canonical spelling)
/// only in a secure context and every further one is dropped so that at
/// most one remains, `HttpOnly` is canonically spelled, everything else
/// passes through unchanged. `seen` says whether a `Secure` flag already
/// stood earlier in the cookie.
pub open spec fn cookie_kept(part: Seq<u8>, secure: bool, seen: bool) -> Seq<Seq<u8>> {
    let l = lower_seq(part);
    if starts_with_seq(l, "domain=".spec_bytes()) {
        Seq::<Seq<u8>>::empty()
    } else if starts_with_seq(l, "path=".spec_bytes()) {
        seq![part]
    } else if starts_with_seq(l, "samesite=".spec_bytes()) {
        Seq::<Seq<u8>>::empty()
    } else if l == "secure".spec_bytes() {
        if secure && !seen {
            seq!["Secure".spec_bytes()]
        } else {
            Seq::<Seq<u8>>::empty()
        }
    } else if l == "httponly".spec_bytes() {
        seq!["HttpOnly".spec_bytes()]
    } else {
        seq![part]
    }
}

/// The attributes kept from a list of raw (untrimmed) attributes.
pub open spec fn kept_parts(parts: Seq<Seq<u8>>, secure: bool) -> Seq<Seq<u8>>
    decreases parts.len(),
{
    if parts.len() == 0 {
        Seq::<Seq<u8>>::empty()
    } else {
        kept_parts(parts.drop_last(), secure) + cookie_kept(
            trim_spec(parts.last()),
            secure,
            has_secure_spec(parts.drop_last()),
        )
    }
}

/// Whether some raw attribute is a `Secure` flag.
pub open spec fn has_secure_spec(parts: Seq<Seq<u8>>) -> bool {
    exists|i: int|
        0 <= i < parts.len() && lower_seq(trim_spec(#[trigger] parts[i])) == "secure".spec_bytes()
}

/// The attribute list a cookie's raw attributes become: the kept
/// attributes, then — in a secure context — exactly one `Secure` and a
/// final `SameSite=None`; in an insecure context a final `SameSite=Lax`.
pub open spec fn processed_cookie_parts(parts: Seq<Seq<u8>>, secure: bool) -> Seq<Seq<u8>> {
    let kept = kept_parts(parts, secure);
    if secure {
        let with_secure = if has_secure_spec(parts) {
            kept
        } else {
            kept.push("Secure".spec_bytes())
        };
        with_secure.push("SameSite=None".spec_bytes())
    } else {
        kept.push("SameSite=Lax".spec_bytes())
    }
}

/// What a `Set-Cookie` value becomes: its `;`-separated attributes
/// processed and rejoined with `; `.
pub open spec fn process_cookie_spec(cookie: Seq<u8>, secure: bool) -> Seq<u8> {
    join_parts(processed_cookie_parts(split_bytes_spec(cookie, 59), secure), "; ".spec_bytes())
}

/// Appends one more segment to a join in progress: a separator first,
/// unless nothing has been emitted yet.
fn emit_part(out: &mut Vec<u8>, any: bool, sep: &Vec<u8>, part: &Vec<u8>)
    ensures
        final(out)@ == (if any {
            old(out)@ + sep@ + part@
        } else {
            old(out)@ + part@
        }),
{
    if any {
        push_all(out, sep);
    }
    push_all(out, part);
}

/// Processes a `Set-Cookie` header value for delivery from the proxy's
/// origin: re-scopes the cookie by dropping its `Domain`, recomputing
/// `SameSite` and adjusting `Secure` to the context.
pub fn process_cookie(cookie: &Vec<u8>, is_secure_context: bool) -> (r: Vec<u8>)
    ensures
        r@ == process_cookie_spec(cookie@, is_secure_context),
{
    let sep = "; ".as_bytes_vec();
    let domain_lit = "domain=".as_bytes_vec();
    let path_lit = "path=".as_bytes_vec();
    let samesite_lit = "samesite=".as_bytes_vec();
    let secure_lower = "secure".as_bytes_vec();
    let httponly_lower = "httponly".as_bytes_vec();
    let secure_lit = "Secure".as_bytes_vec();
    let httponly_lit = "HttpOnly".as_bytes_vec();

    let ghost parts = split_bytes_spec(cookie@, 59);
    let mut out: Vec<u8> = Vec::new();
    let ghost mut pseq = Seq::<Seq<u8>>::empty();
    let mut any = false;
    let mut has_secure = false;
    let mut pos: usize = 0;
    let ghost mut k: int = 0;
    let mut done = false;
    proof {
        assert(cookie@.skip(0) =~= cookie@);
        assert(parts.skip(0) =~= parts);
    }
    while !done
        invariant
            pos <= cookie@.len(),
            0 <= k <= parts.len(),
            parts == split_bytes_spec(cookie@, 59),
            sep@ == "; ".spec_bytes(),
            domain_lit@ == "domain=".spec_bytes(),
            path_lit@ == "path=".spec_bytes(),
            samesite_lit@ == "samesite=".spec_bytes(),
            secure_lower@ == "secure".spec_bytes(),
            httponly_lower@ == "httponly".spec_bytes(),
            secure_lit@ == "Secure".spec_bytes(),
            httponly_lit@ == "HttpOnly".spec_bytes(),
            !done ==> split_bytes_spec(cookie@.skip(pos as int), 59) == parts.skip(k),
            !done ==> k < parts.len(),
            done ==> k == parts.len(),
            pseq == kept_parts(parts.take(k), is_secure_context),
            has_secure == has_secure_spec(parts.take(k)),
            any == (pseq.len() > 0),
            out@ == join_parts(pseq, "; ".spec_bytes()),
        decreases parts.len() - k + (if done {
            0int
        } else {
            1int
        }),
    {
        let ghost pre = cookie@.skip(pos as int);
        let seg_end: usize;
        match find_byte_from(cookie, 59, pos) {
            Some(j) => {
                seg_end = j;
                proof {
                    assert(pre[j - pos] == 59);
                    assert(forall|t: int| 0 <= t < j - pos ==> pre[t] != 59);
                    lemma_split_first_sep(pre, 59, j - pos);
                    lemma_split_nonempty(pre.skip(j - pos + 1), 59);
                    assert(pre.take(j - pos) =~= cookie@.subrange(pos as int, j as int));
                    assert(pre.skip(j - pos + 1) =~= cookie@.skip(j + 1));
                }
            },
            None => {
                seg_end = cookie.len();
                proof {
                    lemma_split_no_sep(pre, 59);
                    assert(pre =~= cookie@.subrange(pos as int, cookie@.len() as int));
                }
            },
        }
        let ghost raw = parts[k];
        proof {
            assert(parts.skip(k)[0] == parts[k]);
            assert(raw == cookie@.subrange(pos as int, seg_end as int));
        }
        let part = {
            let segment = subvec(cookie, pos, seg_end);
            trim_bytes(&segment)
        };
        let l = lower_bytes(&part);
        let is_secure_attr = bytes_eq(&l, &secure_lower);
        let was_secure_seen = has_secure;
        if is_secure_attr {
            has_secure = true;
        }
        let ghost pseq0 = pseq;
        proof {
            assert(parts.take(k + 1).drop_last() =~= parts.take(k));
            assert(parts.take(k + 1).last() == parts[k]);
            assert(kept_parts(parts.take(k + 1), is_secure_context) == pseq + cookie_kept(
                trim_spec(raw),
                is_secure_context,
                was_secure_seen,
            ));
        }
        if bytes_starts_with(&l, &domain_lit) {
            proof {
                assert(pseq + cookie_kept(trim_spec(raw), is_secure_context, was_secure_seen) =~= pseq);
            }
        } else if bytes_starts_with(&l, &path_lit) {
            emit_part(&mut out, any, &sep, &part);
            proof {
                pseq = pseq.push(part@);
                lemma_join_push(pseq0, "; ".spec_bytes(), part@);
                assert(pseq0 + cookie_kept(trim_spec(raw), is_secure_context, was_secure_seen) =~= pseq);
            }
            any = true;
        } else if bytes_starts_with(&l, &samesite_lit) {
            proof {
                assert(pseq + cookie_kept(trim_spec(raw), is_secure_context, was_secure_seen) =~= pseq);
            }
        } else if is_secure_attr {
            if is_secure_context && !was_secure_seen {
                emit_part(&mut out, any, &sep, &secure_lit);
                proof {
                    pseq = pseq.push("Secure".spec_bytes());
                    lemma_join_push(pseq0, "; ".spec_bytes(), "Secure".spec_bytes());
                    assert(pseq0 + cookie_kept(trim_spec(raw), is_secure_context, was_secure_seen)
                        =~= pseq);
                }
                any = true;
            } else {
                proof {
                    assert(pseq + cookie_kept(trim_spec(raw), is_secure_context, was_secure_seen)
                        =~= pseq);
                }
            }
        } else if bytes_eq(&l, &httponly_lower) {
            emit_part(&mut out, any, &sep, &httponly_lit);
            proof {
                pseq = pseq.push("HttpOnly".spec_bytes());
                lemma_join_push(pseq0, "; ".spec_bytes(), "HttpOnly".spec_bytes());
                assert(pseq0 + cookie_kept(trim_spec(raw), is_secure_context, was_secure_seen) =~= pseq);
            }
            any = true;
        } else {
            emit_part(&mut out, any, &sep, &part);
            proof {
                pseq = pseq.push(part@);
                lemma_join_push(pseq0, "; ".spec_bytes(), part@);
                assert(pseq0 + cookie_kept(trim_spec(raw), is_secure_context, was_secure_seen) =~= pseq);
            }
            any = true;
        }
        proof {
            let cur_secure = lower_seq(trim_spec(raw)) == "secure".spec_bytes();
            if has_secure_spec(parts.take(k)) {
                let i = choose|i: int|
                    0 <= i < parts.take(k).len() && lower_seq(
                        trim_spec(#[trigger] parts.take(k)[i]),
                    ) == "secure".spec_bytes();
                assert(parts.take(k + 1)[i] == parts.take(k)[i]);
                assert(lower_seq(trim_spec(parts.take(k + 1)[i])) == "secure".spec_bytes());
            }
            if cur_secure {
                assert(lower_seq(trim_spec(parts.take(k + 1)[k])) == "secure".spec_bytes());
            }
            if !has_secure_spec(parts.take(k)) && !cur_secure && has_secure_spec(
                parts.take(k + 1),
            ) {
                let i = choose|i: int|
                    0 <= i < parts.take(k + 1).len() && lower_seq(
                        trim_spec(#[trigger] parts.take(k + 1)[i]),
                    ) == "secure".spec_bytes();
                if i < k {
                    assert(parts.take(k)[i] == parts.take(k + 1)[i]);
                    assert(lower_seq(trim_spec(parts.take(k)[i])) == "secure".spec_bytes());
                }
            }
            k = k + 1;
        }
        if seg_end < cookie.len() {
            pos = seg_end + 1;
            proof {
                assert(parts.skip(k - 1).skip(1) =~= parts.skip(k));
            }
        } else {
            done = true;
            proof {
                assert(parts.skip(k - 1).len() == 1);
            }
        }
    }
    proof {
        assert(parts.take(parts.len() as int) =~= parts);
    }
    if is_secure_context {
        if !has_secure {
            emit_part(&mut out, any, &sep, &secure_lit);
            proof {
                lemma_join_push(pseq, "; ".spec_bytes(), "Secure".spec_bytes());
                pseq = pseq.push("Secure".spec_bytes());
            }
            any = true;
        }
        emit_part(&mut out, any, &sep, &"SameSite=None".as_bytes_vec());
        proof {
            lemma_join_push(pseq, "; ".spec_bytes(), "SameSite=None".spec_bytes());
        }
    } else {
        emit_part(&mut out, any, &sep, &"SameSite=Lax".as_bytes_vec());
        proof {
            lemma_join_push(pseq, "; ".spec_bytes(), "SameSite=Lax".spec_bytes());
        }
    }
    out
}

/// What rebasing a `Referer` URL onto the upstream's origin yields: the
/// referer with its scheme, host and port replaced by the upstream base
/// URL's, or nothing when either string does not parse as a URL or the
/// components cannot be set. A function of the two strings alone.
pub uninterp spec fn referer_rebased(referer: Seq<u8>, base: Seq<u8>) -> Option<Seq<u8>>;

/// Relies on url::Url (parse, set_scheme, set_host, set_port, as_str):
/// parses both strings, transplants the base's scheme, host and port onto
/// the referer, keeping the referer's path, query and fragment, and
/// serializes the outcome. Yields `None` on any parse or rewrite failure.
#[verifier::external_body]
fn rebase_url(referer: &Vec<u8>, base: &Vec<u8>) -> (r: Option<Vec<u8>>)
    ensures
        match r {
            Some(v) => referer_rebased(referer@, base@) == Some(v@),
            None => referer_rebased(referer@, base@) is None,
        },
{
    let base_str = std::str::from_utf8(base).ok()?;
    let referer_str = std::str::from_utf8(referer).ok()?;
    let base_parsed = url::Url::parse(base_str).ok()?;
    let mut rewritten = url::Url::parse(referer_str).ok()?;
    rewritten.set_scheme(base_parsed.scheme()).ok()?;
    rewritten.set_host(base_parsed.host_str()).ok()?;
    rewritten.set_port(base_parsed.port()).ok()?;
    Some(rewritten.as_str().as_bytes().to_vec())
}

/// The inbound headers as they are forwarded to the upstream: `Host`,
/// `Content-Length` and `Accept-Encoding` removed; an `Origin` header, if
/// present, set to the upstream base URL; a `Referer` header, if present,
/// rebased onto the upstream (left unchanged when rebasing fails). A new
/// value the transport cannot represent is not written: the header keeps
/// its inbound value rather than being dropped.
pub open spec fn prepared_headers_spec(
    h: Seq<(Seq<u8>, Seq<u8>)>,
    upstream_url: Seq<u8>,
) -> Seq<(Seq<u8>, Seq<u8>)> {
    let h1 = remove_key_spec(
        remove_key_spec(
            remove_key_spec(h, "host".spec_bytes()),
            "content-length".spec_bytes(),
        ),
        "accept-encoding".spec_bytes(),
    );
    let h2 = if contains_key_spec(h1, "origin".spec_bytes()) && is_header_value_spec(
        upstream_url,
    ) {
        remove_key_spec(h1, "origin".spec_bytes()).push(("origin".spec_bytes(), upstream_url))
    } else {
        h1
    };
    if contains_key_spec(h2, "referer".spec_bytes()) {
        match get_first_spec(h2, "referer".spec_bytes()) {
            Some(rv) => match referer_rebased(rv, upstream_url) {
                Some(nv) => if is_header_value_spec(nv) {
                    remove_key_spec(h2, "referer".spec_bytes()).push(
                        ("referer".spec_bytes(), nv),
                    )
                } else {
                    h2
                },
                None => h2,
            },
            None => h2,
        }
    } else {
        h2
    }
}

/// Rewrites request headers before sending to the upstream server.
pub fn prepare_request_headers(headers: &mut Headers, mode: &Mode)
    ensures
        final(headers)@ == prepared_headers_spec(old(headers)@, mode.url_spec()),
{
    headers.remove_all(&"host".as_bytes_vec());
    headers.remove_all(&"content-length".as_bytes_vec());
    headers.remove_all(&"accept-encoding".as_bytes_vec());

    let origin_key = "origin".as_bytes_vec();
    if headers.contains_key(&origin_key) {
        let upstream = mode.url();
        if is_header_value(&upstream) {
            headers.insert(&origin_key, upstream);
        }
    }

    let referer_key = "referer".as_bytes_vec();
    if headers.contains_key(&referer_key) {
        let upstream = mode.url();
        let rebased = match headers.get_first(&referer_key) {
            Some(rv) => rebase_url(rv, &upstream),
            None => None,
        };
        if let Some(nv) = rebased {
            if is_header_value(&nv) {
                headers.insert(&referer_key, nv);
            }
        }
    }
}

/// How many attributes of a list are a `Secure` flag (compared
/// ASCII-case-insensitively, as browsers read attribute names).
pub open spec fn count_secure(parts: Seq<Seq<u8>>) -> int
    decreases parts.len(),
{
    if parts.len() == 0 {
        0
    } else {
        count_secure(parts.drop_last()) + (if lower_seq(parts.last()) == "secure".spec_bytes() {
            1int
        } else {
            0int
        })
    }
}

/// The byte-level facts about the attribute literals that the `Secure`
/// counting argument rests on.
proof fn lemma_cookie_literal_facts()
    ensures
        lower_seq("Secure".spec_bytes()) == "secure".spec_bytes(),
        "secure".spec_bytes().len() == 6,
        "HttpOnly".spec_bytes().len() == 8,
        "SameSite=None".spec_bytes().len() == 13,
        "SameSite=Lax".spec_bytes().len() == 12,
        "domain=".spec_bytes().len() == 7,
        "samesite=".spec_bytes().len() == 9,
        !starts_with_seq("secure".spec_bytes(), "path=".spec_bytes()),
{
    reveal_strlit("Secure");
    reveal_strlit("secure");
    reveal_strlit("HttpOnly");
    reveal_strlit("SameSite=None");
    reveal_strlit("SameSite=Lax");
    reveal_strlit("path=");
    reveal_strlit("domain=");
    reveal_strlit("samesite=");
    assert(vstd::utf8::is_ascii_chars("Secure"@));
    assert(vstd::utf8::is_ascii_chars("secure"@));
    assert(vstd::utf8::is_ascii_chars("HttpOnly"@));
    assert(vstd::utf8::is_ascii_chars("SameSite=None"@));
    assert(vstd::utf8::is_ascii_chars("SameSite=Lax"@));
    assert(vstd::utf8::is_ascii_chars("path="@));
    assert(vstd::utf8::is_ascii_chars("domain="@));
    assert(vstd::utf8::is_ascii_chars("samesite="@));
    vstd::utf8::is_ascii_chars_encode_utf8("Secure"@);
    vstd::utf8::is_ascii_chars_encode_utf8("secure"@);
    vstd::utf8::is_ascii_chars_encode_utf8("HttpOnly"@);
    vstd::utf8::is_ascii_chars_encode_utf8("SameSite=None"@);
    vstd::utf8::is_ascii_chars_encode_utf8("SameSite=Lax"@);
    vstd::utf8::is_ascii_chars_encode_utf8("path="@);
    vstd::utf8::is_ascii_chars_encode_utf8("domain="@);
    vstd::utf8::is_ascii_chars_encode_utf8("samesite="@);
    assert(lower_seq("Secure".spec_bytes()) =~= "secure".spec_bytes());
    assert("secure".spec_bytes()[0] == 115);
    assert("path=".spec_bytes()[0] == 112);
    assert("path=".spec_bytes().len() == 5);
    if starts_with_seq("secure".spec_bytes(), "path=".spec_bytes()) {
        assert("secure".spec_bytes().subrange(0, 5) == "path=".spec_bytes());
        assert("secure".spec_bytes().subrange(0, 5)[0] == "secure".spec_bytes()[0]);
    }
}

/// A `Secure` flag stands in an attribute list exactly when it stands in
/// all but the last attribute or is the last attribute.
proof fn lemma_has_secure_step(parts: Seq<Seq<u8>>)
    requires
        parts.len() > 0,
    ensures
        has_secure_spec(parts) <==> (has_secure_spec(parts.drop_last()) || lower_seq(
            trim_spec(parts.last()),
        ) == "secure".spec_bytes()),
{
    if has_secure_spec(parts) {
        let i = choose|i: int|
            0 <= i < parts.len() && lower_seq(trim_spec(#[trigger] parts[i]))
                == "secure".spec_bytes();
        if i < parts.len() - 1 {
            assert(parts.drop_last()[i] == parts[i]);
            assert(lower_seq(trim_spec(parts.drop_last()[i])) == "secure".spec_bytes());
        }
    }
    if has_secure_spec(parts.drop_last()) {
        let i = choose|i: int|
            0 <= i < parts.drop_last().len() && lower_seq(
                trim_spec(#[trigger] parts.drop_last()[i]),
            ) == "secure".spec_bytes();
        assert(parts[i] == parts.drop_last()[i]);
        assert(lower_seq(trim_spec(parts[i])) == "secure".spec_bytes());
    }
    if lower_seq(trim_spec(parts.last())) == "secure".spec_bytes() {
        assert(lower_seq(trim_spec(parts[parts.len() - 1])) == "secure".spec_bytes());
    }
}

/// The attributes kept from a cookie's list hold one `Secure` flag when
/// the context is secure and the list held any, and none otherwise.
proof fn lemma_kept_parts_secure_count(parts: Seq<Seq<u8>>, secure: bool)
    ensures
        count_secure(kept_parts(parts, secure)) == (if secure && has_secure_spec(parts) {
            1int
        } else {
            0int
        }),
    decreases parts.len(),
{
    lemma_cookie_literal_facts();
    if parts.len() == 0 {
        assert(!has_secure_spec(parts));
    } else {
        let rest = parts.drop_last();
        lemma_kept_parts_secure_count(rest, secure);
        lemma_has_secure_step(parts);
        let seen = has_secure_spec(rest);
        let part = trim_spec(parts.last());
        let l = lower_seq(part);
        let ck = cookie_kept(part, secure, seen);
        let kept = kept_parts(rest, secure);
        if l == "secure".spec_bytes() {
            assert(!starts_with_seq(l, "domain=".spec_bytes()));
            assert(!starts_with_seq(l, "path=".spec_bytes()));
            assert(!starts_with_seq(l, "samesite=".spec_bytes()));
        }
        if ck.len() == 0 {
            assert(kept + ck =~= kept);
        } else {
            assert(ck.len() == 1);
            assert(kept + ck =~= kept.push(ck[0]));
            assert(kept.push(ck[0]).drop_last() =~= kept);
            if starts_with_seq(l, "path=".spec_bytes()) {
                assert(l != "secure".spec_bytes());
            }
        }
    }
}

/// The cookie rewrite emits exactly one `Secure` attribute in a secure
/// context — whether the input held none, one, or several — and none in
/// an insecure context.
pub proof fn lemma_cookie_single_secure(cookie: Seq<u8>, secure: bool)
    ensures
        count_secure(processed_cookie_parts(split_bytes_spec(cookie, 59), secure)) == (if secure {
            1int
        } else {
            0int
        }),
{
    lemma_cookie_literal_facts();
    let parts = split_bytes_spec(cookie, 59);
    let kept = kept_parts(parts, secure);
    lemma_kept_parts_secure_count(parts, secure);
    assert(lower_seq("SameSite=None".spec_bytes()).len() == 13);
    assert(lower_seq("SameSite=Lax".spec_bytes()).len() == 12);
    assert(lower_seq("SameSite=None".spec_bytes()) != "secure".spec_bytes());
    assert(lower_seq("SameSite=Lax".spec_bytes()) != "secure".spec_bytes());
    if secure {
        if has_secure_spec(parts) {
            let final_parts = kept.push("SameSite=None".spec_bytes());
            assert(final_parts.drop_last() =~= kept);
            assert(count_secure(final_parts) == count_secure(kept));
        } else {
            let with_secure = kept.push("Secure".spec_bytes());
            assert(with_secure.drop_last() =~= kept);
            assert(count_secure(with_secure) == count_secure(kept) + 1);
            let final_parts = with_secure.push("SameSite=None".spec_bytes());
            assert(final_parts.drop_last() =~= with_secure);
            assert(count_secure(final_parts) == count_secure(with_secure));
        }
    } else {
        let final_parts = kept.push("SameSite=Lax".spec_bytes());
        assert(final_parts.drop_last() =~= kept);
        assert(count_secure(final_parts) == count_secure(kept));
    }
}

/// With a configured base URL, the resolved origin does not depend on the
/// request headers.
pub proof fn lemma_origin_ignores_headers(
    base: Seq<u8>,
    h1: Seq<(Seq<u8>, Seq<u8>)>,
    h2: Seq<(Seq<u8>, Seq<u8>)>,
)
    ensures
        origin_spec(Some(base), h1) == origin_spec(Some(base), h2),
{
}

/// With no configured base URL, the resolved origin is exactly `http://`
/// before the request's `Host` header value.
pub proof fn lemma_origin_follows_host(h: Seq<(Seq<u8>, Seq<u8>)>, host: Seq<u8>)
    requires
        get_first_spec(h, "host".spec_bytes()) == Some(host),
    ensures
        origin_spec(None, h) == "http://".spec_bytes() + host,
{
}

} // verus!
