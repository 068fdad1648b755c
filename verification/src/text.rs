//! Byte-string primitives: case folding, substring search, literal
//! replacement, trimming and joining, each with an exact specification.

use vstd::prelude::*;

verus! {

/// The ASCII whitespace bytes that trimming removes.
pub open spec fn is_ws_byte(b: u8) -> bool {
    b == 32 || (9 <= b && b <= 13)
}

/// ASCII lower-casing of one byte.
pub open spec fn lower_byte(b: u8) -> u8 {
    if 65 <= b && b <= 90 {
        (b + 32) as u8
    } else {
        b
    }
}

/// ASCII lower-casing of a byte string.
pub open spec fn lower_seq(s: Seq<u8>) -> Seq<u8> {
    s.map_values(|b: u8| lower_byte(b))
}

/// `pat` occurs in `s` starting at index `i`.
pub open spec fn matches_at(s: Seq<u8>, pat: Seq<u8>, i: int) -> bool {
    0 <= i && i + pat.len() <= s.len() && s.subrange(i, i + pat.len() as int) == pat
}

/// `pat` occurs somewhere in `s`.
pub open spec fn contains_seq(s: Seq<u8>, pat: Seq<u8>) -> bool {
    exists|i: int| matches_at(s, pat, i)
}

/// `s` begins with `pat`.
pub open spec fn starts_with_seq(s: Seq<u8>, pat: Seq<u8>) -> bool {
    matches_at(s, pat, 0)
}

/// One left-to-right pass replacing every occurrence of `pat` by `repl`,
/// never re-scanning substituted text. An empty pattern leaves the input
/// unchanged.
pub open spec fn replace_all(s: Seq<u8>, pat: Seq<u8>, repl: Seq<u8>) -> Seq<u8>
    decreases s.len(),
{
    if pat.len() == 0 || s.len() < pat.len() {
        s
    } else if s.subrange(0, pat.len() as int) == pat {
        repl + replace_all(s.skip(pat.len() as int), pat, repl)
    } else {
        seq![s[0]] + replace_all(s.skip(1), pat, repl)
    }
}

/// The byte strings that a list of byte vectors holds.
pub open spec fn byte_views(v: Seq<Vec<u8>>) -> Seq<Seq<u8>> {
    Seq::new(v.len(), |i: int| v[i]@)
}

/// Lower-cases a byte string.
pub fn lower_bytes(s: &Vec<u8>) -> (r: Vec<u8>)
    ensures
        r@ == lower_seq(s@),
{
    let mut r: Vec<u8> = Vec::new();
    let mut i: usize = 0;
    while i < s.len()
        invariant
            i <= s.len(),
            r@ == lower_seq(s@.take(i as int)),
        decreases s.len() - i,
    {
        let b = s[i];
        if 65 <= b && b <= 90 {
            r.push(b + 32);
        } else {
            r.push(b);
        }
        proof {
            assert(s@.take(i + 1).drop_last() =~= s@.take(i as int));
            assert(lower_seq(s@.take(i + 1)) =~= lower_seq(s@.take(i as int)).push(
                lower_byte(s@[i as int]),
            ));
        }
        i = i + 1;
    }
    proof {
        assert(s@.take(s@.len() as int) =~= s@);
    }
    r
}

/// Whether the bytes of `a` and `b` are equal.
pub fn bytes_eq(a: &Vec<u8>, b: &Vec<u8>) -> (r: bool)
    ensures
        r == (a@ == b@),
{
    if a.len() != b.len() {
        return false;
    }
    let mut i: usize = 0;
    while i < a.len()
        invariant
            i <= a.len(),
            a@.len() == b@.len(),
            forall|j: int| 0 <= j < i ==> a@[j] == b@[j],
        decreases a.len() - i,
    {
        if a[i] != b[i] {
            return false;
        }
        i = i + 1;
    }
    proof {
        assert(a@ =~= b@);
    }
    true
}

/// Whether `pat` occurs in `s` at index `i`.
pub fn match_at(s: &Vec<u8>, pat: &Vec<u8>, i: usize) -> (r: bool)
    requires
        i <= s@.len(),
    ensures
        r == matches_at(s@, pat@, i as int),
{
    if pat.len() > s.len() - i {
        return false;
    }
    let mut j: usize = 0;
    while j < pat.len()
        invariant
            j <= pat.len(),
            i + pat.len() <= s.len(),
            forall|k: int| 0 <= k < j ==> s@[i + k] == pat@[k],
        decreases pat.len() - j,
    {
        if s[i + j] != pat[j] {
            return false;
        }
        j = j + 1;
    }
    proof {
        assert(s@.subrange(i as int, i + pat@.len() as int) =~= pat@);
    }
    true
}

/// Whether `pat` occurs anywhere in `s`.
pub fn bytes_contains(s: &Vec<u8>, pat: &Vec<u8>) -> (r: bool)
    ensures
        r == contains_seq(s@, pat@),
{
    if pat.len() > s.len() {
        return false;
    }
    if pat.len() == 0 {
        proof {
            assert(s@.subrange(0, 0) =~= pat@);
            assert(matches_at(s@, pat@, 0));
        }
        return true;
    }
    let end = s.len() - pat.len();
    let mut i: usize = 0;
    while i <= end
        invariant
            0 < pat@.len() <= s@.len(),
            s@.len() <= usize::MAX,
            end == s@.len() - pat@.len(),
            i <= end + 1,
            forall|j: int| 0 <= j < i ==> !matches_at(s@, pat@, j),
        decreases end + 1 - i,
    {
        if match_at(s, pat, i) {
            return true;
        }
        i = i + 1;
    }
    proof {
        assert forall|j: int| !matches_at(s@, pat@, j) by {
            if j > end {
                assert(j + pat@.len() > s@.len());
            }
        }
    }
    false
}

/// Whether `s` begins with `pat`.
pub fn bytes_starts_with(s: &Vec<u8>, pat: &Vec<u8>) -> (r: bool)
    ensures
        r == starts_with_seq(s@, pat@),
{
    match_at(s, pat, 0)
}

/// The copy of `s@` between `from` and `to`.
pub fn subvec(s: &Vec<u8>, from: usize, to: usize) -> (r: Vec<u8>)
    requires
        from <= to <= s@.len(),
    ensures
        r@ == s@.subrange(from as int, to as int),
{
    let mut r: Vec<u8> = Vec::new();
    let mut i: usize = from;
    while i < to
        invariant
            from <= i <= to <= s@.len(),
            r@ == s@.subrange(from as int, i as int),
        decreases to - i,
    {
        r.push(s[i]);
        proof {
            assert(s@.subrange(from as int, i + 1) =~= s@.subrange(from as int, i as int).push(
                s@[i as int],
            ));
        }
        i = i + 1;
    }
    r
}

/// Appends a copy of `src` to `dst`.
pub fn push_all(dst: &mut Vec<u8>, src: &Vec<u8>)
    ensures
        final(dst)@ == old(dst)@ + src@,
{
    let mut i: usize = 0;
    while i < src.len()
        invariant
            i <= src@.len(),
            dst@ == old(dst)@ + src@.take(i as int),
        decreases src.len() - i,
    {
        dst.push(src[i]);
        proof {
            assert(old(dst)@ + src@.take(i + 1) =~= (old(dst)@ + src@.take(i as int)).push(
                src@[i as int],
            ));
        }
        i = i + 1;
    }
    proof {
        assert(src@.take(src@.len() as int) =~= src@);
    }
}

/// Replaces every occurrence of `pat` in `s` by `repl` in one pass over `s`.
pub fn replace_all_bytes(s: &Vec<u8>, pat: &Vec<u8>, repl: &Vec<u8>) -> (r: Vec<u8>)
    ensures
        r@ == replace_all(s@, pat@, repl@),
{
    let mut out: Vec<u8> = Vec::new();
    if pat.len() == 0 {
        push_all(&mut out, s);
        return out;
    }
    let mut i: usize = 0;
    proof {
        assert(s@.skip(0) =~= s@);
        assert(Seq::<u8>::empty() + replace_all(s@, pat@, repl@) =~= replace_all(s@, pat@, repl@));
    }
    while i < s.len()
        invariant
            i <= s@.len(),
            pat@.len() > 0,
            replace_all(s@, pat@, repl@) == out@ + replace_all(s@.skip(i as int), pat@, repl@),
        decreases s.len() - i,
    {
        if match_at(s, pat, i) {
            proof {
                lemma_replace_all_step_match(s@, pat@, repl@, i as int);
            }
            push_all(&mut out, repl);
            i = i + pat.len();
        } else {
            proof {
                lemma_replace_all_step_byte(s@, pat@, repl@, i as int);
                assert(out@ + (seq![s@[i as int]] + replace_all(
                    s@.skip(i + 1),
                    pat@,
                    repl@,
                )) =~= out@.push(s@[i as int]) + replace_all(s@.skip(i + 1), pat@, repl@));
            }
            out.push(s[i]);
            i = i + 1;
        }
    }
    proof {
        assert(s@.skip(s@.len() as int) =~= Seq::<u8>::empty());
        assert(out@ + Seq::<u8>::empty() =~= out@);
    }
    out
}

/// At a match, one scan step of `replace_all` emits `repl` and skips the
/// pattern's length.
proof fn lemma_replace_all_step_match(s: Seq<u8>, pat: Seq<u8>, repl: Seq<u8>, i: int)
    requires
        pat.len() > 0,
        0 <= i <= s.len(),
        matches_at(s, pat, i),
    ensures
        replace_all(s.skip(i), pat, repl) == repl + replace_all(s.skip(i + pat.len()), pat, repl),
{
    let t = s.skip(i);
    assert(t.subrange(0, pat.len() as int) =~= s.subrange(i, i + pat.len() as int));
    assert(t.skip(pat.len() as int) =~= s.skip(i + pat.len()));
}

/// At a mismatch, one scan step of `replace_all` emits the current byte.
proof fn lemma_replace_all_step_byte(s: Seq<u8>, pat: Seq<u8>, repl: Seq<u8>, i: int)
    requires
        pat.len() > 0,
        0 <= i < s.len(),
        !matches_at(s, pat, i),
    ensures
        replace_all(s.skip(i), pat, repl) == seq![s[i]] + replace_all(s.skip(i + 1), pat, repl),
{
    let t = s.skip(i);
    if t.len() >= pat.len() {
        assert(t.subrange(0, pat.len() as int) =~= s.subrange(i, i + pat.len() as int));
        assert(t.subrange(0, pat.len() as int) != pat);
        assert(t.skip(1) =~= s.skip(i + 1));
        assert(t[0] == s[i]);
    } else {
        assert(t =~= seq![s[i]] + s.skip(i + 1));
        assert(s.skip(i + 1).len() < pat.len());
    }
}

/// Splitting at a separator byte: the list of segments between separators,
/// in order. An empty string yields one empty segment, as `str::split` does.
pub open spec fn split_bytes_spec(s: Seq<u8>, sep: u8) -> Seq<Seq<u8>>
    decreases s.len(),
{
    if s.len() == 0 {
        seq![Seq::<u8>::empty()]
    } else if s[0] == sep {
        seq![Seq::<u8>::empty()] + split_bytes_spec(s.skip(1), sep)
    } else {
        let rest = split_bytes_spec(s.skip(1), sep);
        seq![seq![s[0]] + rest[0]] + rest.skip(1)
    }
}

/// A split has at least one segment.
pub proof fn lemma_split_nonempty(s: Seq<u8>, sep: u8)
    ensures
        split_bytes_spec(s, sep).len() > 0,
    decreases s.len(),
{
    if s.len() == 0 {
    } else if s[0] == sep {
    } else {
        lemma_split_nonempty(s.skip(1), sep);
    }
}

/// When the separator does not occur, the split is the whole string.
pub proof fn lemma_split_no_sep(s: Seq<u8>, sep: u8)
    requires
        forall|j: int| 0 <= j < s.len() ==> s[j] != sep,
    ensures
        split_bytes_spec(s, sep) =~= seq![s],
    decreases s.len(),
{
    if s.len() == 0 {
        assert(s =~= Seq::<u8>::empty());
    } else {
        lemma_split_no_sep(s.skip(1), sep);
        assert(seq![s[0]] + s.skip(1) =~= s);
    }
}

/// With the first separator at `i`, the split is the prefix before it
/// followed by the split of what comes after it.
pub proof fn lemma_split_first_sep(s: Seq<u8>, sep: u8, i: int)
    requires
        0 <= i < s.len(),
        s[i] == sep,
        forall|j: int| 0 <= j < i ==> s[j] != sep,
    ensures
        split_bytes_spec(s, sep) =~= seq![s.take(i)] + split_bytes_spec(s.skip(i + 1), sep),
    decreases i,
{
    if i == 0 {
        assert(s.take(0) =~= Seq::<u8>::empty());
    } else {
        assert(s.skip(1)[i - 1] == sep);
        lemma_split_first_sep(s.skip(1), sep, i - 1);
        assert(s.skip(1).skip(i) =~= s.skip(i + 1));
        let rest = split_bytes_spec(s.skip(1), sep);
        assert(rest[0] =~= s.skip(1).take(i - 1));
        assert(seq![s[0]] + s.skip(1).take(i - 1) =~= s.take(i));
    }
}

/// Joining segments with a separator string between them.
pub open spec fn join_parts(parts: Seq<Seq<u8>>, sep: Seq<u8>) -> Seq<u8>
    decreases parts.len(),
{
    if parts.len() == 0 {
        Seq::<u8>::empty()
    } else if parts.len() == 1 {
        parts[0]
    } else {
        join_parts(parts.drop_last(), sep) + sep + parts.last()
    }
}

/// Appending a segment appends it after a separator, unless it is the
/// first segment.
pub proof fn lemma_join_push(ps: Seq<Seq<u8>>, sep: Seq<u8>, p: Seq<u8>)
    ensures
        join_parts(ps.push(p), sep) == (if ps.len() == 0 {
            p
        } else {
            join_parts(ps, sep) + sep + p
        }),
{
    assert(ps.push(p).drop_last() =~= ps);
    assert(ps.push(p).last() == p);
    if ps.len() == 0 {
        assert(join_parts(ps.push(p), sep) == ps.push(p)[0]);
    }
}

/// What remains after removing leading ASCII whitespace.
pub open spec fn trim_start_spec(s: Seq<u8>) -> Seq<u8>
    decreases s.len(),
{
    if s.len() > 0 && is_ws_byte(s[0]) {
        trim_start_spec(s.skip(1))
    } else {
        s
    }
}

/// What remains after removing trailing ASCII whitespace.
pub open spec fn trim_end_spec(s: Seq<u8>) -> Seq<u8>
    decreases s.len(),
{
    if s.len() > 0 && is_ws_byte(s.last()) {
        trim_end_spec(s.drop_last())
    } else {
        s
    }
}

/// What remains after removing ASCII whitespace at both ends.
pub open spec fn trim_spec(s: Seq<u8>) -> Seq<u8> {
    trim_end_spec(trim_start_spec(s))
}

/// Leading whitespace up to a first non-whitespace byte is all that
/// start-trimming removes.
proof fn lemma_trim_start_at(s: Seq<u8>, lo: int)
    requires
        0 <= lo <= s.len(),
        forall|j: int| 0 <= j < lo ==> is_ws_byte(s[j]),
        lo < s.len() ==> !is_ws_byte(s[lo]),
    ensures
        trim_start_spec(s) == s.skip(lo),
    decreases lo,
{
    if lo == 0 {
        assert(s.skip(0) =~= s);
    } else {
        lemma_trim_start_at(s.skip(1), lo - 1);
        assert(s.skip(1).skip(lo - 1) =~= s.skip(lo));
    }
}

/// Trailing whitespace after a last non-whitespace byte is all that
/// end-trimming removes.
proof fn lemma_trim_end_at(s: Seq<u8>, hi: int)
    requires
        0 <= hi <= s.len(),
        forall|j: int| hi <= j < s.len() ==> is_ws_byte(s[j]),
        hi > 0 ==> !is_ws_byte(s[hi - 1]),
    ensures
        trim_end_spec(s) == s.take(hi),
    decreases s.len() - hi,
{
    if hi == s.len() {
        assert(s.take(hi) =~= s);
    } else {
        lemma_trim_end_at(s.drop_last(), hi);
        assert(s.drop_last().take(hi) =~= s.take(hi));
    }
}

/// Trims ASCII whitespace from both ends of `s`.
pub fn trim_bytes(s: &Vec<u8>) -> (r: Vec<u8>)
    ensures
        r@ == trim_spec(s@),
{
    let mut lo: usize = 0;
    while lo < s.len() && is_ws(s[lo])
        invariant
            lo <= s@.len(),
            forall|j: int| 0 <= j < lo ==> is_ws_byte(s@[j]),
        decreases s.len() - lo,
    {
        lo = lo + 1;
    }
    let mut hi: usize = s.len();
    while hi > lo && is_ws(s[hi - 1])
        invariant
            lo <= hi <= s@.len(),
            forall|j: int| hi <= j < s@.len() ==> is_ws_byte(s@[j]),
        decreases hi,
    {
        hi = hi - 1;
    }
    proof {
        lemma_trim_start_at(s@, lo as int);
        if hi == lo {
            lemma_trim_end_at(s@.skip(lo as int), 0);
        } else {
            lemma_trim_end_at(s@.skip(lo as int), hi - lo);
        }
        assert(s@.skip(lo as int).take(hi - lo) =~= s@.subrange(lo as int, hi as int));
    }
    subvec(s, lo, hi)
}

/// Whether a byte is ASCII whitespace.
pub fn is_ws(b: u8) -> (r: bool)
    ensures
        r == is_ws_byte(b),
{
    b == 32 || (9 <= b && b <= 13)
}

/// The first occurrence of `b` in `s` at or after `from`, if any.
pub fn find_byte_from(s: &Vec<u8>, b: u8, from: usize) -> (r: Option<usize>)
    requires
        from <= s@.len(),
    ensures
        match r {
            Some(j) => from <= j < s@.len() && s@[j as int] == b && forall|k: int|
                from <= k < j ==> s@[k] != b,
            None => forall|k: int| from <= k < s@.len() ==> s@[k] != b,
        },
{
    let mut i: usize = from;
    while i < s.len()
        invariant
            from <= i <= s@.len(),
            forall|k: int| from <= k < i ==> s@[k] != b,
        decreases s.len() - i,
    {
        if s[i] == b {
            return Some(i);
        }
        i = i + 1;
    }
    None
}

/// Replacement leaves a string without an occurrence of the pattern unchanged.
pub proof fn lemma_replace_all_absent(s: Seq<u8>, pat: Seq<u8>, repl: Seq<u8>)
    requires
        !contains_seq(s, pat) || pat.len() == 0,
    ensures
        replace_all(s, pat, repl) == s,
    decreases s.len(),
{
    if pat.len() == 0 || s.len() < pat.len() {
    } else {
        assert(!matches_at(s, pat, 0));
        assert(s.subrange(0, pat.len() as int) != pat);
        assert forall|j: int| !matches_at(s.skip(1), pat, j) by {
            if matches_at(s.skip(1), pat, j) {
                assert(s.subrange(j + 1, j + 1 + pat.len() as int) =~= s.skip(1).subrange(
                    j,
                    j + pat.len() as int,
                ));
                assert(matches_at(s, pat, j + 1));
            }
        }
        lemma_replace_all_absent(s.skip(1), pat, repl);
        assert(seq![s[0]] + s.skip(1) =~= s);
    }
}

} // verus!
