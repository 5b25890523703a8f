//! Byte-string utilities that the normalizer and comparator are built on.
//!
//! All captured output and all paths are handled as byte strings; every
//! function here has an exact specification over `Seq<u8>`.

use vstd::prelude::*;

verus! {

/// The bytes of an ASCII string, one byte per character.
pub open spec fn bytes_of(s: Seq<char>) -> Seq<u8> {
    Seq::new(s.len(), |i: int| s[i] as u8)
}

/// `pat` occurs in `s` starting at position `i`.
pub open spec fn is_at(s: Seq<u8>, pat: Seq<u8>, i: int) -> bool {
    0 <= i && i + pat.len() <= s.len() && s.subrange(i, i + pat.len()) == pat
}

pub open spec fn contains_seq(s: Seq<u8>, pat: Seq<u8>) -> bool {
    exists|i: int| is_at(s, pat, i)
}

pub open spec fn starts_with_seq(s: Seq<u8>, pat: Seq<u8>) -> bool {
    is_at(s, pat, 0)
}

/// Left-to-right, non-overlapping replacement of `pat` by `to`.
/// An empty pattern replaces nothing.
pub open spec fn replace_seq(s: Seq<u8>, pat: Seq<u8>, to: Seq<u8>) -> Seq<u8>
    decreases s.len(),
{
    if pat.len() == 0 || s.len() < pat.len() {
        s
    } else if is_at(s, pat, 0) {
        to + replace_seq(s.skip(pat.len() as int), pat, to)
    } else {
        seq![s[0]] + replace_seq(s.skip(1), pat, to)
    }
}

/// ASCII whitespace, the bytes that `trim` strips from the end of output.
pub open spec fn is_ws(b: u8) -> bool {
    b == 32 || b == 9 || b == 10 || b == 13 || b == 11 || b == 12
}

pub open spec fn trim_end_seq(s: Seq<u8>) -> Seq<u8>
    decreases s.len(),
{
    if s.len() == 0 {
        s
    } else if is_ws(s.last()) {
        trim_end_seq(s.drop_last())
    } else {
        s
    }
}

pub open spec fn trim_start_seq(s: Seq<u8>) -> Seq<u8>
    decreases s.len(),
{
    if s.len() == 0 {
        s
    } else if is_ws(s[0]) {
        trim_start_seq(s.skip(1))
    } else {
        s
    }
}

/// Index of the first occurrence of byte `c` in `s`.
pub open spec fn find_byte_seq(s: Seq<u8>, c: u8) -> Option<int>
    decreases s.len(),
{
    if s.len() == 0 {
        None
    } else if s[0] == c {
        Some(0int)
    } else {
        match find_byte_seq(s.skip(1), c) {
            None => None,
            Some(i) => Some(i + 1),
        }
    }
}

/// Index of the last occurrence in `s` of a byte that `sep` holds.
pub open spec fn rfind_any_seq(s: Seq<u8>, sep: Seq<u8>) -> Option<int>
    decreases s.len(),
{
    if s.len() == 0 {
        None
    } else if sep.contains(s.last()) {
        Some(s.len() - 1)
    } else {
        rfind_any_seq(s.drop_last(), sep)
    }
}

/// `s` split at every newline byte; a final newline closes the last line
/// rather than opening an empty one, and one carriage return is stripped
/// from the end of every newline-terminated line.
pub open spec fn lines_seq(s: Seq<u8>) -> Seq<Seq<u8>> {
    let raw = lines_raw(s);
    Seq::new(
        raw.len(),
        |i: int|
            if i < raw.len() - 1 || (s.len() > 0 && s.last() == 10) {
                strip_final_cr(raw[i])
            } else {
                raw[i]
            },
    )
}

pub open spec fn lines_raw(s: Seq<u8>) -> Seq<Seq<u8>>
    decreases s.len(),
{
    if s.len() == 0 {
        Seq::empty()
    } else if s[0] == 10 {
        seq![Seq::<u8>::empty()] + lines_raw(s.skip(1))
    } else {
        let r = lines_raw(s.skip(1));
        if r.len() == 0 {
            seq![seq![s[0]]]
        } else {
            seq![seq![s[0]] + r[0]] + r.skip(1)
        }
    }
}

pub open spec fn strip_final_cr(l: Seq<u8>) -> Seq<u8> {
    if l.len() > 0 && l.last() == 13 {
        l.drop_last()
    } else {
        l
    }
}

pub proof fn lemma_find_byte_props(s: Seq<u8>, c: u8)
    ensures
        match find_byte_seq(s, c) {
            Some(i) => 0 <= i < s.len() && s[i] == c && forall|j: int| 0 <= j < i ==> s[j] != c,
            None => forall|j: int| 0 <= j < s.len() ==> s[j] != c,
        },
    decreases s.len(),
{
    if s.len() > 0 && s[0] != c {
        lemma_find_byte_props(s.skip(1), c);
        assert(forall|j: int| 1 <= j < s.len() ==> s[j] == s.skip(1)[j - 1]);
    }
}

/// Replacement is the identity on a text that does not hold the pattern.
pub proof fn lemma_replace_id(s: Seq<u8>, pat: Seq<u8>, to: Seq<u8>)
    requires
        !contains_seq(s, pat) || pat.len() == 0,
    ensures
        replace_seq(s, pat, to) == s,
    decreases s.len(),
{
    if pat.len() == 0 || s.len() < pat.len() {
    } else {
        assert(!is_at(s, pat, 0));
        assert forall|i: int| !is_at(s.skip(1), pat, i) by {
            if is_at(s.skip(1), pat, i) {
                assert(s.subrange(i + 1, i + 1 + pat.len()) =~= s.skip(1).subrange(
                    i,
                    i + pat.len(),
                ));
                assert(is_at(s, pat, i + 1));
            }
        }
        lemma_replace_id(s.skip(1), pat, to);
        assert(seq![s[0]] + s.skip(1) =~= s);
    }
}

/// No split line holds a newline byte.
pub proof fn lemma_lines_raw_free(s: Seq<u8>)
    ensures
        forall|i: int| #![all_triggers] 0 <= i < lines_raw(s).len() ==> !lines_raw(s)[i].contains(
            10u8,
        ),
    decreases s.len(),
{
    if s.len() == 0 {
    } else if s[0] == 10 {
        lemma_lines_raw_free(s.skip(1));
        assert forall|i: int| 0 <= i < lines_raw(s).len() implies !lines_raw(s)[i].contains(10u8) by {
            if i > 0 {
                assert(lines_raw(s)[i] == lines_raw(s.skip(1))[i - 1]);
            } else {
                assert(lines_raw(s)[0] =~= Seq::<u8>::empty());
                if lines_raw(s)[0].contains(10u8) {
                    assert(false);
                }
            }
        }
    } else {
        lemma_lines_raw_free(s.skip(1));
        let r = lines_raw(s.skip(1));
        assert forall|i: int| 0 <= i < lines_raw(s).len() implies !lines_raw(s)[i].contains(10u8) by {
            if r.len() == 0 {
                assert(lines_raw(s)[0] =~= seq![s[0]]);
                if lines_raw(s)[0].contains(10u8) {
                    let j = choose|j: int| 0 <= j < 1 && lines_raw(s)[0][j] == 10u8;
                    assert(false);
                }
            } else if i == 0 {
                assert(lines_raw(s)[0] == seq![s[0]] + r[0]);
                if lines_raw(s)[0].contains(10u8) {
                    let j = choose|j: int|
                        0 <= j < lines_raw(s)[0].len() && lines_raw(s)[0][j] == 10u8;
                    if j == 0 {
                        assert(false);
                    } else {
                        assert(r[0][j - 1] == 10u8);
                        assert(r[0].contains(10u8));
                        assert(false);
                    }
                }
            } else {
                assert(lines_raw(s)[i] == r[i]);
            }
        }
    }
}

/// Byte-wise lexicographic order.
pub open spec fn lex_le(a: Seq<u8>, b: Seq<u8>) -> bool
    decreases a.len(),
{
    if a.len() == 0 {
        true
    } else if b.len() == 0 {
        false
    } else if a[0] < b[0] {
        true
    } else if a[0] > b[0] {
        false
    } else {
        lex_le(a.skip(1), b.skip(1))
    }
}

pub proof fn lemma_lex_total(a: Seq<u8>, b: Seq<u8>)
    ensures
        lex_le(a, b) || lex_le(b, a),
    decreases a.len(),
{
    if a.len() > 0 && b.len() > 0 && a[0] == b[0] {
        lemma_lex_total(a.skip(1), b.skip(1));
    }
}

pub proof fn lemma_lex_trans(a: Seq<u8>, b: Seq<u8>, c: Seq<u8>)
    requires
        lex_le(a, b),
        lex_le(b, c),
    ensures
        lex_le(a, c),
    decreases a.len(),
{
    if a.len() > 0 && b.len() > 0 && c.len() > 0 && a[0] == b[0] && b[0] == c[0] {
        lemma_lex_trans(a.skip(1), b.skip(1), c.skip(1));
    }
}

pub fn lex_le_bytes(a: &[u8], b: &[u8]) -> (r: bool)
    ensures
        r == lex_le(a@, b@),
{
    let mut i: usize = 0;
    proof {
        assert(a@.skip(0) =~= a@);
        assert(b@.skip(0) =~= b@);
    }
    while i < a.len() && i < b.len()
        invariant
            i <= a@.len(),
            i <= b@.len(),
            lex_le(a@, b@) == lex_le(a@.skip(i as int), b@.skip(i as int)),
        decreases a@.len() - i,
    {
        proof {
            let ra = a@.skip(i as int);
            let rb = b@.skip(i as int);
            assert(ra[0] == a@[i as int]);
            assert(rb[0] == b@[i as int]);
            assert(ra.skip(1) =~= a@.skip(i + 1));
            assert(rb.skip(1) =~= b@.skip(i + 1));
        }
        if a[i] < b[i] {
            return true;
        }
        if a[i] > b[i] {
            return false;
        }
        i = i + 1;
    }
    proof {
        assert(a@.skip(i as int).len() == 0 || b@.skip(i as int).len() == 0);
    }
    i >= a.len()
}

/// What end-trimming leaves never ends in whitespace.
pub proof fn lemma_trim_end_last(s: Seq<u8>)
    ensures
        trim_end_seq(s).len() > 0 ==> !is_ws(trim_end_seq(s).last()),
    decreases s.len(),
{
    if s.len() > 0 && is_ws(s.last()) {
        lemma_trim_end_last(s.drop_last());
    }
}

/// What start-trimming leaves is a suffix, preceded by whitespace alone.
pub proof fn lemma_trim_start_suffix(s: Seq<u8>)
    ensures
        trim_start_seq(s).len() <= s.len(),
        trim_start_seq(s) == s.skip(s.len() - trim_start_seq(s).len()),
        forall|j: int| 0 <= j < s.len() - trim_start_seq(s).len() ==> is_ws(s[j]),
        trim_start_seq(s).len() > 0 ==> !is_ws(trim_start_seq(s)[0]),
    decreases s.len(),
{
    if s.len() > 0 && is_ws(s[0]) {
        lemma_trim_start_suffix(s.skip(1));
        let k = s.len() - trim_start_seq(s).len();
        assert(s.skip(1).skip(k - 1) =~= s.skip(k));
        assert(forall|j: int| 1 <= j < k ==> s[j] == s.skip(1)[j - 1]);
    } else {
        assert(s.skip(0) =~= s);
    }
}

/// Replacement introduces no byte that neither the text nor the
/// replacement held.
pub proof fn lemma_replace_bytes(s: Seq<u8>, pat: Seq<u8>, to: Seq<u8>, b: u8)
    requires
        replace_seq(s, pat, to).contains(b),
    ensures
        s.contains(b) || to.contains(b),
    decreases s.len(),
{
    let r = replace_seq(s, pat, to);
    let j = choose|j: int| 0 <= j < r.len() && r[j] == b;
    if pat.len() == 0 || s.len() < pat.len() {
    } else if is_at(s, pat, 0) {
        let rest = replace_seq(s.skip(pat.len() as int), pat, to);
        if j >= to.len() {
            assert(rest[j - to.len()] == b);
            assert(rest.contains(b));
            lemma_replace_bytes(s.skip(pat.len() as int), pat, to, b);
            if s.skip(pat.len() as int).contains(b) {
                let m = choose|m: int|
                    0 <= m < s.skip(pat.len() as int).len() && s.skip(pat.len() as int)[m] == b;
                assert(s[m + pat.len()] == b);
            }
        }
    } else {
        let rest = replace_seq(s.skip(1), pat, to);
        if j == 0 {
            assert(s[0] == b);
        } else {
            assert(rest[j - 1] == b);
            assert(rest.contains(b));
            lemma_replace_bytes(s.skip(1), pat, to, b);
            if s.skip(1).contains(b) {
                let m = choose|m: int| 0 <= m < s.skip(1).len() && s.skip(1)[m] == b;
                assert(s[m + 1] == b);
            }
        }
    }
}

/// A nonempty replacement result ends in the text's or the replacement's
/// last byte.
pub proof fn lemma_replace_last(s: Seq<u8>, pat: Seq<u8>, to: Seq<u8>)
    requires
        to.len() > 0,
    ensures
        replace_seq(s, pat, to).len() > 0 ==> (replace_seq(s, pat, to).last() == (if s.len() > 0 {
            s.last()
        } else {
            0u8
        }) || replace_seq(s, pat, to).last() == to.last()),
        replace_seq(s, pat, to).len() == 0 <==> s.len() == 0,
    decreases s.len(),
{
    let r = replace_seq(s, pat, to);
    if pat.len() == 0 || s.len() < pat.len() {
    } else if is_at(s, pat, 0) {
        let tail = s.skip(pat.len() as int);
        let rest = replace_seq(tail, pat, to);
        lemma_replace_last(tail, pat, to);
        if rest.len() == 0 {
            assert(r =~= to + rest);
            assert(r.last() == to.last());
        } else {
            assert(r.last() == rest.last());
            assert(tail.last() == s.last());
        }
    } else {
        let tail = s.skip(1);
        let rest = replace_seq(tail, pat, to);
        lemma_replace_last(tail, pat, to);
        if rest.len() == 0 {
            assert(tail.len() == 0);
            assert(r =~= seq![s[0]]);
            assert(r.last() == s.last());
        } else {
            assert(r.last() == rest.last());
            assert(tail.last() == s.last());
        }
    }
}

/// Trimming the end leaves a prefix of the text; only whitespace bytes
/// follow it.
pub proof fn lemma_trim_end_prefix(t: Seq<u8>)
    ensures
        trim_end_seq(t).len() <= t.len(),
        trim_end_seq(t) == t.take(trim_end_seq(t).len() as int),
        forall|j: int| trim_end_seq(t).len() <= j < t.len() ==> is_ws(#[trigger] t[j]),
    decreases t.len(),
{
    if t.len() > 0 && is_ws(t.last()) {
        lemma_trim_end_prefix(t.drop_last());
        assert(t.drop_last().take(trim_end_seq(t).len() as int) =~= t.take(
            trim_end_seq(t).len() as int,
        ));
        assert(forall|j: int|
            trim_end_seq(t).len() <= j < t.len() - 1 ==> is_ws(#[trigger] t.drop_last()[j]));
        assert forall|j: int| trim_end_seq(t).len() <= j < t.len() implies is_ws(
            #[trigger] t[j],
        ) by {
            if j < t.len() - 1 {
                assert(t[j] == t.drop_last()[j]);
            }
        }
    } else {
        assert(t.take(t.len() as int) =~= t);
    }
}

/// The pattern cannot straddle a replacement boundary: its first byte
/// occurs nowhere in the replacement, and the replacement's first byte
/// occurs nowhere in the pattern.  Any absolute directory path against
/// the `$DIR` placeholder satisfies this, since such a path neither
/// starts with a placeholder byte nor holds a dollar sign.
pub open spec fn no_boundary_overlap(pat: Seq<u8>, to: Seq<u8>) -> bool {
    &&& forall|j: int| 0 <= j < to.len() ==> pat[0] != #[trigger] to[j]
    &&& forall|j: int| 0 <= j < pat.len() ==> #[trigger] pat[j] != to[0]
}

proof fn lemma_replace_free_helper(s: Seq<u8>, pat: Seq<u8>, to: Seq<u8>)
    requires
        pat.len() > 0,
        to.len() > 0,
        no_boundary_overlap(pat, to),
    ensures
        !contains_seq(replace_seq(s, pat, to), pat),
        forall|k: int|
            1 <= k < pat.len() && starts_with_seq(replace_seq(s, pat, to), pat.skip(k))
                ==> starts_with_seq(s, pat.skip(k)),
    decreases s.len(),
{
    let r = replace_seq(s, pat, to);
    let plen = pat.len() as int;
    if s.len() < plen {
        assert(r == s);
        if contains_seq(r, pat) {
            let i = choose|i: int| is_at(r, pat, i);
            assert(false);
        }
    } else if is_at(s, pat, 0) {
        let rest = replace_seq(s.skip(plen), pat, to);
        assert(r == to + rest);
        lemma_replace_free_helper(s.skip(plen), pat, to);
        if contains_seq(r, pat) {
            let i = choose|i: int| is_at(r, pat, i);
            if i < to.len() {
                assert(r.subrange(i, i + plen)[0] == pat[0]);
                assert(r[i] == pat[0]);
                assert(r[i] == to[i]);
                assert(false);
            } else {
                assert(r.subrange(i, i + plen) =~= rest.subrange(
                    i - to.len(),
                    i - to.len() + plen,
                ));
                assert(is_at(rest, pat, i - to.len()));
                assert(false);
            }
        }
        assert forall|k: int|
            1 <= k < plen && starts_with_seq(r, pat.skip(k)) implies starts_with_seq(
            s,
            pat.skip(k),
        ) by {
            assert(r.subrange(0, plen - k)[0] == pat.skip(k)[0]);
            assert(r[0] == pat[k]);
            assert(r[0] == to[0]);
            assert(false);
        }
    } else {
        let rest = replace_seq(s.skip(1), pat, to);
        assert(r == seq![s[0]] + rest);
        lemma_replace_free_helper(s.skip(1), pat, to);
        if contains_seq(r, pat) {
            let i = choose|i: int| is_at(r, pat, i);
            {
                if i == 0 {
                    assert(r.subrange(0, plen)[0] == pat[0]);
                    assert(s[0] == pat[0]);
                    if plen == 1 {
                        assert(s.subrange(0, 1) =~= pat);
                        assert(is_at(s, pat, 0));
                        assert(false);
                    } else {
                        assert(rest.subrange(0, plen - 1) =~= r.subrange(1, plen));
                        assert(r.subrange(1, plen) =~= pat.skip(1)) by {
                            assert forall|m: int| 0 <= m < plen - 1 implies #[trigger] (r.subrange(
                                1,
                                plen,
                            )[m]) == pat.skip(1)[m] by {
                                assert(r.subrange(0, plen)[m + 1] == pat[m + 1]);
                            }
                        }
                        assert(starts_with_seq(rest, pat.skip(1)));
                        assert(starts_with_seq(s.skip(1), pat.skip(1)));
                        assert(s.subrange(0, plen) =~= pat) by {
                            assert forall|m: int| 0 <= m < plen implies #[trigger] (s.subrange(
                                0,
                                plen,
                            )[m]) == pat[m] by {
                                if m > 0 {
                                    assert(s.skip(1).subrange(0, plen - 1)[m - 1] == pat.skip(
                                        1,
                                    )[m - 1]);
                                }
                            }
                        }
                        assert(is_at(s, pat, 0));
                        assert(false);
                    }
                } else {
                    assert(r.subrange(i, i + plen) =~= rest.subrange(i - 1, i - 1 + plen));
                    assert(is_at(rest, pat, i - 1));
                    assert(false);
                }
            }
        }
        assert forall|k: int|
            1 <= k < plen && starts_with_seq(r, pat.skip(k)) implies starts_with_seq(
            s,
            pat.skip(k),
        ) by {
            assert(r.subrange(0, plen - k)[0] == pat.skip(k)[0]);
            assert(s[0] == pat[k]);
            if k + 1 == plen {
                assert(s.subrange(0, 1) =~= pat.skip(k));
            } else {
                assert(rest.subrange(0, plen - k - 1) =~= r.subrange(1, plen - k));
                assert(r.subrange(1, plen - k) =~= pat.skip(k + 1)) by {
                    assert forall|m: int| 0 <= m < plen - k - 1 implies #[trigger] (r.subrange(
                        1,
                        plen - k,
                    )[m]) == pat.skip(k + 1)[m] by {
                        assert(r.subrange(0, plen - k)[m + 1] == pat.skip(k)[m + 1]);
                    }
                }
                assert(starts_with_seq(rest, pat.skip(k + 1)));
                assert(starts_with_seq(s.skip(1), pat.skip(k + 1)));
                assert(s.subrange(0, plen - k) =~= pat.skip(k)) by {
                    assert forall|m: int| 0 <= m < plen - k implies #[trigger] (s.subrange(
                        0,
                        plen - k,
                    )[m]) == pat.skip(k)[m] by {
                        if m > 0 {
                            assert(s.skip(1).subrange(0, plen - k - 1)[m - 1] == pat.skip(
                                k + 1,
                            )[m - 1]);
                        }
                    }
                }
            }
        }
    }
}

/// After replacing `pat` by a nonempty `to` that it cannot straddle, no
/// occurrence of `pat` remains.
pub proof fn lemma_replace_removes(s: Seq<u8>, pat: Seq<u8>, to: Seq<u8>)
    requires
        pat.len() > 0,
        to.len() > 0,
        no_boundary_overlap(pat, to),
    ensures
        !contains_seq(replace_seq(s, pat, to), pat),
{
    lemma_replace_free_helper(s, pat, to);
}

pub proof fn lemma_rfind_any_props(s: Seq<u8>, sep: Seq<u8>)
    ensures
        match rfind_any_seq(s, sep) {
            Some(i) => 0 <= i < s.len() && sep.contains(s[i]) && forall|j: int|
                i < j < s.len() ==> !sep.contains(s[j]),
            None => forall|j: int| 0 <= j < s.len() ==> !sep.contains(s[j]),
        },
    decreases s.len(),
{
    if s.len() > 0 && !sep.contains(s.last()) {
        lemma_rfind_any_props(s.drop_last(), sep);
        assert(forall|j: int| 0 <= j < s.len() - 1 ==> s[j] == s.drop_last()[j]);
    }
}

/// Splitting at the first newline: the head line and the rest.
pub proof fn lemma_lines_raw_first_line(s: Seq<u8>, q: int)
    requires
        0 <= q < s.len(),
        s[q] == 10,
        forall|j: int| 0 <= j < q ==> s[j] != 10,
    ensures
        lines_raw(s) == seq![s.subrange(0, q)] + lines_raw(s.skip(q + 1)),
    decreases q,
{
    if q == 0 {
        assert(s.subrange(0, 0) =~= Seq::<u8>::empty());
        assert(lines_raw(s) =~= seq![s.subrange(0, 0)] + lines_raw(s.skip(1)));
    } else {
        let t = s.skip(1);
        assert(t[q - 1] == 10);
        assert(forall|j: int| 0 <= j < q - 1 ==> t[j] == s[j + 1] && t[j] != 10);
        lemma_lines_raw_first_line(t, q - 1);
        let r = lines_raw(t);
        assert(r == seq![t.subrange(0, q - 1)] + lines_raw(t.skip(q)));
        assert(r.len() > 0);
        assert(lines_raw(s) == seq![seq![s[0]] + r[0]] + r.skip(1));
        assert(seq![s[0]] + t.subrange(0, q - 1) =~= s.subrange(0, q));
        assert(t.skip(q) =~= s.skip(q + 1));
        assert(r.skip(1) =~= lines_raw(s.skip(q + 1)));
        assert(lines_raw(s) =~= seq![s.subrange(0, q)] + lines_raw(s.skip(q + 1)));
    }
}

/// A nonempty text without a newline is one line.
pub proof fn lemma_lines_raw_no_newline(s: Seq<u8>)
    requires
        s.len() > 0,
        forall|j: int| 0 <= j < s.len() ==> s[j] != 10,
    ensures
        lines_raw(s) == seq![s],
    decreases s.len(),
{
    let t = s.skip(1);
    assert(s[0] != 10);
    if t.len() == 0 {
        assert(lines_raw(t).len() == 0);
        assert(lines_raw(s) == seq![seq![s[0]]]);
        assert(seq![s[0]] =~= s);
    } else {
        assert(forall|j: int| 0 <= j < t.len() ==> t[j] == s[j + 1] && t[j] != 10);
        lemma_lines_raw_no_newline(t);
        let r = lines_raw(t);
        assert(r == seq![t]);
        assert(lines_raw(s) == seq![seq![s[0]] + t] + r.skip(1));
        assert(seq![s[0]] + t =~= s);
        assert(r.skip(1) =~= Seq::<Seq<u8>>::empty());
        assert(lines_raw(s) =~= seq![s]);
    }
}

/// Copies `s[a..b]` into a fresh vector.
pub fn copy_range(s: &[u8], a: usize, b: usize) -> (r: Vec<u8>)
    requires
        a <= b <= s@.len(),
    ensures
        r@ == s@.subrange(a as int, b as int),
{
    let mut r: Vec<u8> = Vec::new();
    let mut i: usize = a;
    while i < b
        invariant
            a <= i <= b <= s@.len(),
            r@ =~= s@.subrange(a as int, i as int),
        decreases b - i,
    {
        r.push(s[i]);
        i = i + 1;
    }
    proof {
        assert(r@ =~= s@.subrange(a as int, b as int));
    }
    r
}

/// Copies a byte string.
pub fn dup_bytes(s: &[u8]) -> (r: Vec<u8>)
    ensures
        r@ == s@,
{
    let r = copy_range(s, 0, s.len());
    proof {
        assert(s@.subrange(0, s@.len() as int) =~= s@);
    }
    r
}

/// Turns an ASCII string literal into its bytes.
pub fn str_bytes(s: &str) -> (r: Vec<u8>)
    requires
        vstd::string::is_ascii(s),
    ensures
        r@ == bytes_of(s@),
{
    proof {
        vstd::string::is_ascii_spec_bytes(s);
    }
    let b: &[u8] = s.as_bytes();
    assert(b@ =~= bytes_of(s@));
    let mut r: Vec<u8> = Vec::new();
    let mut i: usize = 0;
    while i < b.len()
        invariant
            i <= b.len(),
            r@ =~= b@.subrange(0, i as int),
        decreases b.len() - i,
    {
        r.push(b[i]);
        i = i + 1;
    }
    assert(r@ =~= b@);
    r
}

pub fn eq_bytes(a: &[u8], b: &[u8]) -> (r: bool)
    ensures
        r == (a@ == b@),
{
    if a.len() != b.len() {
        return false;
    }
    let mut i: usize = 0;
    while i < a.len()
        invariant
            i <= a.len(),
            a.len() == b.len(),
            forall|j: int| 0 <= j < i ==> a@[j] == b@[j],
        decreases a.len() - i,
    {
        if a[i] != b[i] {
            return false;
        }
        i = i + 1;
    }
    proof {
        assert(a@ =~= b@);
    }
    true
}

pub fn match_at(s: &[u8], pat: &[u8], i: usize) -> (r: bool)
    requires
        i <= s@.len(),
    ensures
        r == is_at(s@, pat@, i as int),
{
    if s.len() - i < pat.len() {
        return false;
    }
    let mut j: usize = 0;
    while j < pat.len()
        invariant
            j <= pat.len(),
            i + pat.len() <= s.len(),
            forall|k: int| 0 <= k < j ==> s@[i + k] == pat@[k],
        decreases pat.len() - j,
    {
        if s[i + j] != pat[j] {
            assert(s@.subrange(i as int, i + pat@.len()) != pat@) by {
                assert(s@.subrange(i as int, i + pat@.len())[j as int] != pat@[j as int]);
            }
            return false;
        }
        j = j + 1;
    }
    proof {
        assert(s@.subrange(i as int, i + pat@.len()) =~= pat@);
    }
    true
}

pub fn starts_with(s: &[u8], pat: &[u8]) -> (r: bool)
    ensures
        r == starts_with_seq(s@, pat@),
{
    match_at(s, pat, 0)
}

pub fn contains(s: &[u8], pat: &[u8]) -> (r: bool)
    ensures
        r == contains_seq(s@, pat@),
{
    if pat.len() > s.len() {
        proof {
            assert(forall|i: int| !is_at(s@, pat@, i));
        }
        return false;
    }
    if pat.len() == 0 {
        proof {
            assert(s@.subrange(0, 0) =~= pat@);
            assert(is_at(s@, pat@, 0));
        }
        return true;
    }
    let mut i: usize = 0;
    while i <= s.len() - pat.len()
        invariant
            1 <= pat.len() <= s.len(),
            i <= s.len() - pat.len() + 1,
            forall|j: int| 0 <= j < i ==> !is_at(s@, pat@, j),
        decreases s.len() - pat.len() - i + 1,
    {
        if match_at(s, pat, i) {
            return true;
        }
        i = i + 1;
    }
    proof {
        assert(forall|j: int| is_at(s@, pat@, j) ==> 0 <= j <= s@.len() - pat@.len());
    }
    false
}

pub fn append_bytes(dst: &mut Vec<u8>, src: &[u8])
    ensures
        final(dst)@ == old(dst)@ + src@,
{
    let mut i: usize = 0;
    while i < src.len()
        invariant
            i <= src.len(),
            dst@ =~= old(dst)@ + src@.subrange(0, i as int),
        decreases src.len() - i,
    {
        dst.push(src[i]);
        i = i + 1;
    }
    proof {
        assert(dst@ =~= old(dst)@ + src@);
    }
}

pub fn replace(s: &[u8], pat: &[u8], to: &[u8]) -> (r: Vec<u8>)
    ensures
        r@ == replace_seq(s@, pat@, to@),
{
    let mut out: Vec<u8> = Vec::new();
    if pat.len() == 0 {
        append_bytes(&mut out, s);
        return out;
    }
    let mut i: usize = 0;
    proof {
        assert(s@.skip(0) =~= s@);
    }
    while i < s.len()
        invariant
            pat@.len() > 0,
            i <= s.len(),
            replace_seq(s@, pat@, to@) == out@ + replace_seq(s@.skip(i as int), pat@, to@),
        decreases s.len() - i,
    {
        let ghost pre = out@;
        let ghost rest = s@.skip(i as int);
        if match_at(s, pat, i) {
            proof {
                assert(rest.subrange(0, pat@.len() as int) =~= s@.subrange(
                    i as int,
                    i + pat@.len(),
                ));
                assert(is_at(rest, pat@, 0));
                assert(rest.skip(pat@.len() as int) =~= s@.skip(i + pat@.len()));
                assert(replace_seq(rest, pat@, to@) == to@ + replace_seq(
                    s@.skip(i + pat@.len()),
                    pat@,
                    to@,
                ));
            }
            append_bytes(&mut out, to);
            i = i + pat.len();
            proof {
                assert(out@ + replace_seq(s@.skip(i as int), pat@, to@) =~= pre + (to@
                    + replace_seq(s@.skip(i as int), pat@, to@)));
            }
        } else {
            proof {
                if rest.len() >= pat@.len() {
                    assert(rest.subrange(0, pat@.len() as int) =~= s@.subrange(
                        i as int,
                        i + pat@.len(),
                    ));
                    assert(!is_at(rest, pat@, 0));
                    assert(replace_seq(rest, pat@, to@) == seq![rest[0]] + replace_seq(
                        rest.skip(1),
                        pat@,
                        to@,
                    ));
                } else {
                    assert(replace_seq(rest, pat@, to@) == rest);
                    assert(rest =~= seq![rest[0]] + rest.skip(1));
                    assert(rest.skip(1).len() < pat@.len());
                    assert(replace_seq(rest.skip(1), pat@, to@) == rest.skip(1));
                }
                assert(rest[0] == s@[i as int]);
                assert(rest.skip(1) =~= s@.skip(i + 1));
            }
            out.push(s[i]);
            i = i + 1;
            proof {
                assert(out@ + replace_seq(s@.skip(i as int), pat@, to@) =~= pre + (seq![
                    s@[i - 1],
                ] + replace_seq(s@.skip(i as int), pat@, to@)));
            }
        }
    }
    proof {
        assert(s@.skip(i as int) =~= Seq::<u8>::empty());
        assert(replace_seq(Seq::<u8>::empty(), pat@, to@) == Seq::<u8>::empty());
        assert(out@ + Seq::<u8>::empty() =~= out@);
    }
    out
}

pub fn is_ws_byte(b: u8) -> (r: bool)
    ensures
        r == is_ws(b),
{
    b == 32 || b == 9 || b == 10 || b == 13 || b == 11 || b == 12
}

pub fn trim_end_ws(s: &[u8]) -> (r: Vec<u8>)
    ensures
        r@ == trim_end_seq(s@),
{
    let mut n: usize = s.len();
    proof {
        assert(s@.subrange(0, s@.len() as int) =~= s@);
    }
    while n > 0 && is_ws_byte(s[n - 1])
        invariant
            n <= s.len(),
            trim_end_seq(s@) == trim_end_seq(s@.subrange(0, n as int)),
        decreases n,
    {
        proof {
            let cur = s@.subrange(0, n as int);
            assert(cur.last() == s@[n - 1]);
            assert(is_ws(cur.last()));
            assert(cur.drop_last() =~= s@.subrange(0, n - 1));
        }
        n = n - 1;
    }
    let mut r: Vec<u8> = Vec::new();
    let mut i: usize = 0;
    while i < n
        invariant
            n <= s.len(),
            i <= n,
            r@ =~= s@.subrange(0, i as int),
        decreases n - i,
    {
        r.push(s[i]);
        i = i + 1;
    }
    proof {
        let cur = s@.subrange(0, n as int);
        if n > 0 {
            assert(!is_ws(cur.last()));
        }
        assert(trim_end_seq(cur) == cur);
        assert(r@ =~= cur);
    }
    r
}

/// How many whitespace bytes `s` begins with.
pub fn ws_prefix_len(s: &[u8]) -> (r: usize)
    ensures
        r <= s@.len(),
        trim_start_seq(s@) == s@.skip(r as int),
        forall|j: int| 0 <= j < r ==> is_ws(s@[j]),
{
    let mut i: usize = 0;
    proof {
        assert(s@.skip(0) =~= s@);
    }
    while i < s.len() && is_ws_byte(s[i])
        invariant
            i <= s.len(),
            trim_start_seq(s@) == trim_start_seq(s@.skip(i as int)),
            forall|j: int| 0 <= j < i ==> is_ws(s@[j]),
        decreases s.len() - i,
    {
        proof {
            let cur = s@.skip(i as int);
            assert(cur[0] == s@[i as int]);
            assert(cur.skip(1) =~= s@.skip(i + 1));
        }
        i = i + 1;
    }
    proof {
        let cur = s@.skip(i as int);
        if cur.len() > 0 {
            assert(cur[0] == s@[i as int]);
            assert(!is_ws(cur[0]));
        }
        assert(trim_start_seq(cur) == cur);
    }
    i
}

pub fn find_byte(s: &[u8], c: u8) -> (r: Option<usize>)
    ensures
        match r {
            Some(i) => find_byte_seq(s@, c) == Some(i as int),
            None => find_byte_seq(s@, c) == None::<int>,
        },
{
    let mut i: usize = 0;
    proof {
        assert(s@.skip(0) =~= s@);
    }
    while i < s.len()
        invariant
            i <= s.len(),
            forall|j: int| 0 <= j < i ==> s@[j] != c,
            find_byte_seq(s@, c) == match find_byte_seq(s@.skip(i as int), c) {
                None => None::<int>,
                Some(k) => Some(k + i),
            },
        decreases s.len() - i,
    {
        proof {
            let cur = s@.skip(i as int);
            assert(cur[0] == s@[i as int]);
            assert(cur.skip(1) =~= s@.skip(i + 1));
        }
        if s[i] == c {
            return Some(i);
        }
        i = i + 1;
    }
    proof {
        assert(s@.skip(i as int) =~= Seq::<u8>::empty());
    }
    None
}

pub fn split_lines(s: &[u8]) -> (r: Vec<Vec<u8>>)
    ensures
        r.deep_view() == lines_seq(s@),
{
    let mut out: Vec<Vec<u8>> = Vec::new();
    let mut p: usize = 0;
    proof {
        assert(s@.skip(0) =~= s@);
        assert(out.deep_view() + lines_seq(s@.skip(0)) =~~= lines_seq(s@));
    }
    while p < s.len()
        invariant
            p <= s@.len(),
            lines_seq(s@) == out.deep_view() + lines_seq(s@.skip(p as int)),
        decreases s@.len() - p,
    {
        let ghost rest = s@.skip(p as int);
        let ghost pre = out.deep_view();
        let rest_slice = &s[p..s.len()];
        assert(rest_slice@ == rest);
        match find_byte(rest_slice, 10) {
            Some(q) => {
                proof {
                    lemma_find_byte_props(rest, 10);
                    lemma_lines_raw_first_line(rest, q as int);
                }
                let line = copy_range(s, p, p + q);
                assert(line@ =~= rest.subrange(0, q as int));
                let stripped = strip_cr_vec(line);
                proof {
                    let raw = lines_raw(rest);
                    let tail = rest.skip(q + 1);
                    assert(raw == seq![rest.subrange(0, q as int)] + lines_raw(tail));
                    assert(raw.len() >= 1);
                    // the head line is newline-terminated, so it is stripped
                    if raw.len() == 1 {
                        assert(lines_raw(tail) =~= Seq::<Seq<u8>>::empty());
                        assert(tail.len() == 0) by {
                            if tail.len() > 0 {
                                lines_raw_nonempty(tail);
                            }
                        }
                        assert(rest.last() == 10);
                    }
                    assert(lines_seq(rest)[0] == strip_final_cr(rest.subrange(0, q as int)));
                }
                out.push(stripped);
                p = p + q + 1;
                proof {
                    let tail = s@.skip(p as int);
                    assert(tail =~= rest.skip(q + 1));
                    let raw = lines_raw(rest);
                    let raw_tail = lines_raw(tail);
                    assert(lines_seq(rest).skip(1) =~~= lines_seq(tail)) by {
                        assert(raw.skip(1) =~= raw_tail);
                        if tail.len() > 0 {
                            assert(rest.last() == tail.last());
                        } else {
                            assert(rest.last() == 10);
                        }
                        assert forall|i: int| 0 <= i < raw_tail.len() implies lines_seq(rest).skip(
                            1,
                        )[i] == lines_seq(tail)[i] by {
                            assert(lines_seq(rest).skip(1)[i] == lines_seq(rest)[i + 1]);
                            assert(raw[i + 1] == raw_tail[i]);
                        }
                    }
                    assert(lines_seq(rest) =~~= seq![
                        strip_final_cr(rest.subrange(0, q as int)),
                    ] + lines_seq(tail));
                    assert(out.deep_view() =~~= pre + seq![strip_final_cr(rest.subrange(0, q as int))]);
                    assert(out.deep_view() + lines_seq(tail) =~~= lines_seq(s@));
                }
            },
            None => {
                proof {
                    lemma_find_byte_props(rest, 10);
                    lemma_lines_raw_no_newline(rest);
                }
                let line = copy_range(s, p, s.len());
                assert(line@ =~= rest);
                out.push(line);
                p = s.len();
                proof {
                    assert(lines_raw(rest) == seq![rest]);
                    assert(rest.last() != 10);
                    assert(lines_seq(rest) =~~= seq![rest]);
                    assert(s@.skip(s@.len() as int) =~= Seq::<u8>::empty());
                    assert(lines_seq(Seq::<u8>::empty()) =~~= Seq::<Seq<u8>>::empty());
                    assert(out.deep_view() =~~= pre + seq![rest]);
                    assert(out.deep_view() + lines_seq(s@.skip(p as int)) =~~= lines_seq(s@));
                }
            },
        }
    }
    proof {
        assert(s@.skip(p as int) =~= Seq::<u8>::empty());
        assert(lines_seq(Seq::<u8>::empty()) =~~= Seq::<Seq<u8>>::empty());
        assert(out.deep_view() =~~= lines_seq(s@));
    }
    out
}

/// A nonempty text has at least one line.
pub proof fn lines_raw_nonempty(s: Seq<u8>)
    requires
        s.len() > 0,
    ensures
        lines_raw(s).len() > 0,
    decreases s.len(),
{
}

/// Drops one final carriage return, as the line splitter does.
pub fn strip_cr_vec(line: Vec<u8>) -> (r: Vec<u8>)
    ensures
        r@ == strip_final_cr(line@),
{
    let mut line = line;
    if line.len() > 0 && line[line.len() - 1] == 13 {
        let ghost before = line@;
        line.truncate(line.len() - 1);
        proof {
            assert(line@ =~= before.drop_last());
        }
    }
    line
}

pub fn rfind_any(s: &[u8], sep: &[u8]) -> (r: Option<usize>)
    ensures
        match r {
            Some(i) => rfind_any_seq(s@, sep@) == Some(i as int),
            None => rfind_any_seq(s@, sep@) == None::<int>,
        },
{
    let mut n: usize = s.len();
    proof {
        assert(s@.subrange(0, s@.len() as int) =~= s@);
    }
    while n > 0
        invariant
            n <= s.len(),
            rfind_any_seq(s@, sep@) == rfind_any_seq(s@.subrange(0, n as int), sep@),
        decreases n,
    {
        let ghost cur = s@.subrange(0, n as int);
        proof {
            assert(cur.last() == s@[n - 1]);
            assert(cur.drop_last() =~= s@.subrange(0, n - 1));
        }
        let mut hit = false;
        let mut j: usize = 0;
        while j < sep.len()
            invariant
                n >= 1,
                n <= s.len(),
                j <= sep.len(),
                hit == exists|k: int| 0 <= k < j && sep@[k] == s@[n - 1],
            decreases sep.len() - j,
        {
            if sep[j] == s[n - 1] {
                hit = true;
            }
            j = j + 1;
        }
        if hit {
            proof {
                assert(sep@.contains(cur.last()));
            }
            return Some(n - 1);
        }
        proof {
            assert(!sep@.contains(cur.last()));
        }
        n = n - 1;
    }
    proof {
        assert(s@.subrange(0, 0) =~= Seq::<u8>::empty());
    }
    None
}

} // verus!
