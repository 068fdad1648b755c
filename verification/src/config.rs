//! Configuration of the proxy: the upstream mode with its URL variants,
//! and the process-wide settings, built once from explicit values.

use vstd::prelude::*;
use vstd::string::StrSliceExecFns;
use vstd::string::StringSliceAdditionalSpecFns;

use crate::headers::copy_bytes;
use crate::text::byte_views;
use crate::text::bytes_eq;
use crate::text::bytes_starts_with;
use crate::text::lower_bytes;
use crate::text::lower_seq;
use crate::text::push_all;
use crate::text::starts_with_seq;
use crate::text::subvec;

verus! {

/// The selected upstream: one of two built-in sites, or an
/// operator-supplied base URL.
#[allow(non_camel_case_types)]
#[derive(Debug, Clone)]
pub enum Mode {
    SPSEJECNA,
    JIDELNA,
    CUSTOM(Vec<u8>),
}

/// Configuration for the proxy server.
#[derive(Debug, Clone)]
pub struct Config {
    /// The port to listen on.
    pub port: u16,
    /// The base URL of this proxy.
    /// If `None`, it is determined per request from the `Host` header.
    pub base_url: Option<Vec<u8>>,
    /// Whether to disable the "not official" warning banner.
    pub disable_warning: bool,
    /// Which upstream to mirror.
    pub mode: Mode,
}

/// How a raw mode setting selects a `Mode`: empty or absent picks the
/// default site, the two known names (ASCII-case-insensitively) pick their
/// sites, and anything else is kept verbatim as a custom base URL.
pub open spec fn mode_matches_value(m: Mode, raw: Option<Seq<u8>>) -> bool {
    match raw {
        None => m == Mode::SPSEJECNA,
        Some(v) => {
            let l = lower_seq(v);
            if l.len() == 0 || l == "spsejecna".spec_bytes() {
                m == Mode::SPSEJECNA
            } else if l == "jidelna".spec_bytes() {
                m == Mode::JIDELNA
            } else {
                m matches Mode::CUSTOM(u) && u@ == v
            }
        },
    }
}

/// The digits of a decimal numeral, most significant first.
pub open spec fn all_digits(s: Seq<u8>) -> bool {
    forall|i: int| 0 <= i < s.len() ==> 48 <= #[trigger] s[i] <= 57
}

/// The value of a decimal numeral.
pub open spec fn digits_value(s: Seq<u8>) -> int
    decreases s.len(),
{
    if s.len() == 0 {
        0
    } else {
        digits_value(s.drop_last()) * 10 + (s.last() - 48)
    }
}

/// What `str::parse::<u16>` accepts: an optional leading `+`, then one or
/// more decimal digits whose value fits in sixteen bits.
pub open spec fn parse_u16_spec(s: Seq<u8>) -> Option<u16> {
    let d = if s.len() > 0 && s[0] == 43 {
        s.skip(1)
    } else {
        s
    };
    if d.len() > 0 && all_digits(d) && digits_value(d) <= 65535 {
        Some(digits_value(d) as u16)
    } else {
        None
    }
}

/// The listen port a raw setting selects: the parsed value, or 3000 when
/// the setting is absent or unparseable.
pub open spec fn port_spec(p: Option<Seq<u8>>) -> u16 {
    match p {
        None => 3000,
        Some(v) => match parse_u16_spec(v) {
            Some(x) => x,
            None => 3000,
        },
    }
}

/// Whether a raw setting disables the banner: only `true` or `1` does.
pub open spec fn disable_warning_spec(d: Option<Seq<u8>>) -> bool {
    match d {
        None => false,
        Some(v) => v == "true".spec_bytes() || v == "1".spec_bytes(),
    }
}

/// A numeral's value only grows as digits are appended to it.
proof fn lemma_digits_value_prefix(s: Seq<u8>, i: int)
    requires
        all_digits(s),
        0 <= i <= s.len(),
    ensures
        digits_value(s) >= digits_value(s.take(i)),
        digits_value(s) >= 0,
    decreases s.len(),
{
    if s.len() == 0 {
        assert(s.take(i) =~= s);
    } else if i == s.len() {
        assert(s.take(i) =~= s);
        lemma_digits_value_prefix(s.drop_last(), s.len() - 1);
    } else {
        assert(all_digits(s.drop_last()));
        lemma_digits_value_prefix(s.drop_last(), i);
        assert(s.drop_last().take(i) =~= s.take(i));
    }
}

/// Parses a decimal numeral as `str::parse::<u16>` would.
pub fn parse_u16(s: &Vec<u8>) -> (r: Option<u16>)
    ensures
        r == parse_u16_spec(s@),
{
    let start: usize = if s.len() > 0 && s[0] == 43 {
        1
    } else {
        0
    };
    let ghost d = if s@.len() > 0 && s@[0] == 43 {
        s@.skip(1)
    } else {
        s@
    };
    if s.len() == start {
        return None;
    }
    let mut acc: u32 = 0;
    let mut i: usize = start;
    while i < s.len()
        invariant
            start <= i <= s@.len(),
            start <= 1,
            d == if s@.len() > 0 && s@[0] == 43 {
                s@.skip(1)
            } else {
                s@
            },
            d.len() == s@.len() - start,
            forall|k: int| 0 <= k < d.len() ==> d[k] == s@[k + start],
            all_digits(d.take(i - start)),
            acc == digits_value(d.take(i - start)),
            acc <= 65535,
        decreases s.len() - i,
    {
        let b = s[i];
        proof {
            assert(d.take(i - start + 1).drop_last() =~= d.take(i - start));
            assert(d.take(i - start + 1).last() == s@[i as int]);
        }
        if b < 48 || b > 57 {
            proof {
                assert(!all_digits(d));
            }
            return None;
        }
        let next: u32 = acc * 10 + (b - 48) as u32;
        if next > 65535 {
            proof {
                assert(all_digits(d.take(i - start + 1)));
                assert(digits_value(d.take(i - start + 1)) > 65535);
                if all_digits(d) && digits_value(d) <= 65535 {
                    lemma_digits_value_prefix(d, i - start + 1);
                }
            }
            return None;
        }
        acc = next;
        i = i + 1;
    }
    proof {
        assert(d.take(d.len() as int) =~= d);
    }
    Some(acc as u16)
}

impl Mode {
    /// The canonical upstream base URL of this mode.
    pub open spec fn url_spec(&self) -> Seq<u8> {
        match self {
            Mode::SPSEJECNA => "https://www.spsejecna.cz".spec_bytes(),
            Mode::JIDELNA => "https://strav.nasejidelna.cz".spec_bytes(),
            Mode::CUSTOM(u) => u@,
        }
    }

    /// Every URL-string form that refers to this mode's upstream, in the
    /// order in which content rewriting applies them. A custom base that
    /// begins with `https://` also gets its `http://` counterpart.
    pub open spec fn variants_spec(&self) -> Seq<Seq<u8>> {
        match self {
            Mode::SPSEJECNA => seq![
                "https://www.spsejecna.cz".spec_bytes(),
                "https://spsejecna.cz".spec_bytes(),
                "http://www.spsejecna.cz".spec_bytes(),
                "http://spsejecna.cz".spec_bytes(),
            ],
            Mode::JIDELNA => seq![
                "https://strav.nasejidelna.cz".spec_bytes(),
                "http://strav.nasejidelna.cz".spec_bytes(),
            ],
            Mode::CUSTOM(u) => {
                if starts_with_seq(u@, "https://".spec_bytes()) {
                    seq![u@, "http://".spec_bytes() + u@.skip("https://".spec_bytes().len() as int)]
                } else {
                    seq![u@]
                }
            },
        }
    }

    /// Selects the mode that a raw setting names.
    pub fn from_value(raw: Option<&Vec<u8>>) -> (m: Mode)
        ensures
            mode_matches_value(
                m,
                match raw {
                    Some(v) => Some(v@),
                    None => None,
                },
            ),
    {
        match raw {
            None => Mode::SPSEJECNA,
            Some(v) => {
                let l = lower_bytes(v);
                if l.len() == 0 {
                    Mode::SPSEJECNA
                } else if bytes_eq(&l, &"spsejecna".as_bytes_vec()) {
                    Mode::SPSEJECNA
                } else if bytes_eq(&l, &"jidelna".as_bytes_vec()) {
                    Mode::JIDELNA
                } else {
                    Mode::CUSTOM(copy_bytes(v))
                }
            },
        }
    }

    /// The canonical upstream base URL, used to build the forwarding target.
    pub fn url(&self) -> (r: Vec<u8>)
        ensures
            r@ == self.url_spec(),
    {
        match self {
            Mode::SPSEJECNA => "https://www.spsejecna.cz".as_bytes_vec(),
            Mode::JIDELNA => "https://strav.nasejidelna.cz".as_bytes_vec(),
            Mode::CUSTOM(u) => copy_bytes(u),
        }
    }

    /// The ordered list of URL variants recognized as the upstream.
    pub fn get_all_variants(&self) -> (r: Vec<Vec<u8>>)
        ensures
            byte_views(r@) == self.variants_spec(),
    {
        match self {
            Mode::SPSEJECNA => {
                let mut r: Vec<Vec<u8>> = Vec::new();
                r.push("https://www.spsejecna.cz".as_bytes_vec());
                r.push("https://spsejecna.cz".as_bytes_vec());
                r.push("http://www.spsejecna.cz".as_bytes_vec());
                r.push("http://spsejecna.cz".as_bytes_vec());
                proof {
                    assert(byte_views(r@) =~= self.variants_spec());
                }
                r
            },
            Mode::JIDELNA => {
                let mut r: Vec<Vec<u8>> = Vec::new();
                r.push("https://strav.nasejidelna.cz".as_bytes_vec());
                r.push("http://strav.nasejidelna.cz".as_bytes_vec());
                proof {
                    assert(byte_views(r@) =~= self.variants_spec());
                }
                r
            },
            Mode::CUSTOM(u) => {
                let mut r: Vec<Vec<u8>> = Vec::new();
                r.push(copy_bytes(u));
                let https = "https://".as_bytes_vec();
                if bytes_starts_with(u, &https) {
                    let mut alt = "http://".as_bytes_vec();
                    let tail = subvec(u, https.len(), u.len());
                    push_all(&mut alt, &tail);
                    r.push(alt);
                }
                proof {
                    assert(byte_views(r@) =~= self.variants_spec());
                }
                r
            },
        }
    }
}

impl Config {
    /// Builds the configuration from the raw settings, exactly as the
    /// process reads them: `port` and `disable_warning` parsed leniently
    /// with their defaults, `base_url` kept verbatim, `mode` resolved.
    pub fn from_values(
        port: Option<&Vec<u8>>,
        base_url: Option<Vec<u8>>,
        disable_warning: Option<&Vec<u8>>,
        mode: Option<&Vec<u8>>,
    ) -> (c: Config)
        ensures
            c.port == port_spec(
                match port {
                    Some(v) => Some(v@),
                    None => None,
                },
            ),
            match base_url {
                Some(v) => c.base_url matches Some(b) && b@ == v@,
                None => c.base_url is None,
            },
            c.disable_warning == disable_warning_spec(
                match disable_warning {
                    Some(v) => Some(v@),
                    None => None,
                },
            ),
            mode_matches_value(
                c.mode,
                match mode {
                    Some(v) => Some(v@),
                    None => None,
                },
            ),
    {
        let port_value: u16 = match port {
            None => 3000,
            Some(v) => match parse_u16(v) {
                Some(x) => x,
                None => 3000,
            },
        };
        let disable = match disable_warning {
            None => false,
            Some(v) => bytes_eq(v, &"true".as_bytes_vec()) || bytes_eq(v, &"1".as_bytes_vec()),
        };
        Config {
            port: port_value,
            base_url,
            disable_warning: disable,
            mode: Mode::from_value(mode),
        }
    }
}

} // verus!
