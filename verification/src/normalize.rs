//! Turns raw captured output into a small ordered set of canonical text
//! variations, least- to most-aggressively filtered.
//!
//! The last variation is the "preferred" one: it is what gets written to
//! disk or shown to a developer, while a stored expectation may match any
//! variation (the tolerant-match rule of the comparator).

use vstd::prelude::*;

use crate::cargo::Project;
use crate::text::{
    append_bytes, bytes_of, contains, contains_seq, copy_range, dup_bytes, eq_bytes, find_byte,
    find_byte_seq, is_at, is_ws, lemma_find_byte_props, lemma_lines_raw_first_line, lines_raw,
    lines_raw_nonempty, lines_seq, replace, replace_seq, rfind_any, rfind_any_seq, split_lines,
    starts_with, starts_with_seq, str_bytes, strip_final_cr, trim_end_seq, trim_end_ws,
    trim_start_seq, ws_prefix_len,
};
use crate::Test;

verus! {

/// What `String::from_utf8_lossy` decodes the given bytes to, as bytes
/// again.  Purely ASCII input decodes to itself.
pub uninterp spec fn lossy_of(b: Seq<u8>) -> Seq<u8>;

/// Relies on String::from_utf8_lossy: invalid UTF-8 sequences are replaced
/// with the replacement character, so decoding never fails, and bytes that
/// are valid UTF-8 - in particular pure ASCII - pass through unchanged.
/// The result is always valid UTF-8, so it decodes to itself; and since
/// bytes below 128 are single-byte characters, it still does after being
/// cut where only such bytes follow and extended by such bytes.
#[verifier::external_body]
fn lossy_decode(b: &[u8]) -> (r: Vec<u8>)
    ensures
        r@ == lossy_of(b@),
        (forall|i: int| 0 <= i < b@.len() ==> b@[i] < 128) ==> r@ == b@,
        lossy_of(r@) == r@,
        forall|k: int, t: Seq<u8>|
            0 <= k <= r@.len() && (forall|j: int| k <= j < r@.len() ==> r@[j] < 128) && (forall|
                j: int,
            | 0 <= j < t.len() ==> t[j] < 128) ==> #[trigger] lossy_of(r@.take(k) + t) == r@.take(
                k,
            ) + t,
{
    String::from_utf8_lossy(b).into_owned().into_bytes()
}

/// The filtering passes, in order of aggressiveness.
#[derive(Clone, Copy, PartialEq, Eq, Structural, Debug)]
pub enum Normalization {
    Basic,
    StripCouldNotCompile,
}

/// Whether this pass also drops the build tool's own
/// "could not compile" trailer line.
pub open spec fn strips_could_not_compile(n: Normalization) -> bool {
    match n {
        Normalization::Basic => false,
        Normalization::StripCouldNotCompile => true,
    }
}

/// The placeholder that stands in for the project source directory.
pub open spec fn dir_token() -> Seq<u8> {
    bytes_of("$DIR"@)
}

/// The placeholder that stands in for the generated test binary name.
pub open spec fn crate_token() -> Seq<u8> {
    bytes_of("$CRATE"@)
}

pub open spec fn arrow_marker() -> Seq<u8> {
    bytes_of("--> "@)
}

pub open spec fn aborting_prefix() -> Seq<u8> {
    bytes_of("error: aborting due to "@)
}

pub open spec fn verbose_hint() -> Seq<u8> {
    bytes_of("To learn more, run the command again with --verbose."@)
}

pub open spec fn could_not_compile_prefix() -> Seq<u8> {
    bytes_of("error: Could not compile `"@)
}

/// Path separators: slash and backslash.
pub open spec fn separators() -> Seq<u8> {
    seq![47u8, 92u8]
}

/// One line through the drop-or-rewrite pass: a diagnostic source-location
/// line keeps only the arrow, the placeholder and the final path
/// component; environment-dependent trailer lines are dropped; everything
/// else is kept as it is.
pub open spec fn filter_line_seq(line: Seq<u8>, n: Normalization) -> Option<Seq<u8>> {
    if starts_with_seq(trim_start_seq(line), arrow_marker()) && rfind_any_seq(line, separators())
        is Some {
        let cut_end = rfind_any_seq(line, separators())->0;
        let cut_start = find_byte_seq(line, 62)->0 + 2;
        Some(line.take(cut_start) + bytes_of("$DIR/"@) + line.skip(cut_end + 1))
    } else if starts_with_seq(line, aborting_prefix()) {
        None
    } else if line == verbose_hint() {
        None
    } else if strips_could_not_compile(n) && starts_with_seq(line, could_not_compile_prefix()) {
        None
    } else {
        Some(line)
    }
}

/// A filtered line, trimmed, with the source directory replaced by its
/// placeholder.
pub open spec fn process_line_seq(line: Seq<u8>, n: Normalization, sd: Seq<u8>) -> Option<Seq<u8>> {
    match filter_line_seq(line, n) {
        None => None,
        Some(l) => {
            let t = trim_end_seq(l);
            if contains_seq(t, sd) {
                Some(replace_seq(t, sd, dir_token()))
            } else {
                Some(t)
            }
        },
    }
}

/// Appends one processed line to the accumulated output; a newline is
/// added unless the text already ends in a blank line, which collapses
/// runs of blank lines.
pub open spec fn emit_seq(acc: Seq<u8>, pl: Option<Seq<u8>>) -> Seq<u8> {
    match pl {
        None => acc,
        Some(l) => {
            let a = acc + l;
            if a.len() >= 2 && a[a.len() - 1] == 10 && a[a.len() - 2] == 10 {
                a
            } else {
                a.push(10u8)
            }
        },
    }
}

pub open spec fn assemble_seq(lines: Seq<Seq<u8>>, n: Normalization, sd: Seq<u8>) -> Seq<u8>
    decreases lines.len(),
{
    if lines.len() == 0 {
        Seq::empty()
    } else {
        emit_seq(assemble_seq(lines.drop_last(), n, sd), process_line_seq(lines.last(), n, sd))
    }
}

/// Trailing whitespace dropped; nonempty text ends in exactly one newline.
pub open spec fn finish_seq(t: Seq<u8>) -> Seq<u8> {
    let u = trim_end_seq(t);
    if u.len() == 0 {
        u
    } else {
        u.push(10u8)
    }
}

/// One full normalization pass over a text.
pub open spec fn apply_seq(s: Seq<u8>, n: Normalization, sd: Seq<u8>) -> Seq<u8> {
    finish_seq(assemble_seq(lines_seq(s), n, sd))
}

/// All variations of one raw capture, basic first, preferred last.
pub open spec fn diagnostics_seq(out: Seq<u8>, name: Seq<u8>, sd: Seq<u8>) -> Seq<Seq<u8>> {
    let t = replace_seq(
        replace_seq(lossy_of(out), seq![13u8, 10u8], seq![10u8]),
        name,
        crate_token(),
    );
    seq![
        apply_seq(t, Normalization::Basic, sd),
        apply_seq(t, Normalization::StripCouldNotCompile, sd),
    ]
}

/// The drop-or-rewrite pass on one line.
pub fn filter(line: &[u8], normalization: Normalization) -> (r: Option<Vec<u8>>)
    ensures
        (r is Some) == (filter_line_seq(line@, normalization) is Some),
        r is Some ==> (r->0)@ == filter_line_seq(line@, normalization)->0,
{
    proof {
        reveal_strlit("--> ");
        reveal_strlit("$DIR/");
        reveal_strlit("error: aborting due to ");
        reveal_strlit("To learn more, run the command again with --verbose.");
        reveal_strlit("error: Could not compile `");
    }
    let arrow = str_bytes("--> ");
    let k = ws_prefix_len(line);
    let trimmed = &line[k..line.len()];
    proof {
        assert(trimmed@ =~= line@.skip(k as int));
    }
    if starts_with(trimmed, arrow.as_slice()) {
        let mut seps: Vec<u8> = Vec::new();
        seps.push(47u8);
        seps.push(92u8);
        proof {
            assert(seps@ =~= separators());
        }
        match rfind_any(line, seps.as_slice()) {
            Some(cut_end) => {
                proof {
                    crate::text::lemma_rfind_any_props(line@, separators());
                    // the first '>' stands just after the leading whitespace
                    assert(is_at(trimmed@, arrow_marker(), 0));
                    assert(trimmed@[2] == arrow_marker()[2]) by {
                        assert(trimmed@.subrange(0, 4)[2] == trimmed@[2]);
                    }
                    assert(arrow_marker()[2] == 62);
                    assert(line@[k + 2] == 62);
                    assert(forall|j: int| 0 <= j < k ==> is_ws(line@[j]) && line@[j] != 62);
                    assert(trimmed@[0] == arrow_marker()[0] && trimmed@[1] == arrow_marker()[1])
                        by {
                        assert(trimmed@.subrange(0, 4)[0] == trimmed@[0]);
                        assert(trimmed@.subrange(0, 4)[1] == trimmed@[1]);
                    }
                    assert(line@[k as int] == 45 && line@[k + 1] == 45);
                    lemma_find_byte_props(line@, 62);
                    assert(line@.len() >= k + 4) by {
                        assert(trimmed@.len() >= 4);
                    }
                    if find_byte_seq(line@, 62) is None {
                        assert(false);
                    }
                }
                match find_byte(line, 62) {
                    Some(gt) => {
                        proof {
                            assert(gt == k + 2) by {
                                assert(line@[gt as int] == 62);
                                assert(forall|j: int| 0 <= j < gt ==> line@[j] != 62);
                                if gt < k + 2 {
                                    assert(is_ws(line@[gt as int]) || line@[gt as int] == 45);
                                }
                            }
                        }
                        let cut_start = gt + 2;
                        let mut out = copy_range(line, 0, cut_start);
                        let marker = str_bytes("$DIR/");
                        append_bytes(&mut out, marker.as_slice());
                        let tail = copy_range(line, cut_end + 1, line.len());
                        append_bytes(&mut out, tail.as_slice());
                        proof {
                            assert(line@.take(cut_start as int) =~= line@.subrange(
                                0,
                                cut_start as int,
                            ));
                            assert(line@.skip(cut_end + 1) =~= line@.subrange(
                                cut_end + 1,
                                line@.len() as int,
                            ));
                            assert(out@ == filter_line_seq(line@, normalization)->0);
                        }
                        return Some(out);
                    },
                    None => {
                        proof {
                            assert(false);
                        }
                        return None;
                    },
                }
            },
            None => {
            },
        }
    }
    let aborting = str_bytes("error: aborting due to ");
    if starts_with(line, aborting.as_slice()) {
        return None;
    }
    let hint = str_bytes("To learn more, run the command again with --verbose.");
    if eq_bytes(line, hint.as_slice()) {
        return None;
    }
    let strips = match normalization {
        Normalization::Basic => false,
        Normalization::StripCouldNotCompile => true,
    };
    if strips {
        let cnc = str_bytes("error: Could not compile `");
        if starts_with(line, cnc.as_slice()) {
            return None;
        }
    }
    Some(dup_bytes(line))
}

/// One filtered, trimmed, placeholder-substituted line.
fn process_line(line: &[u8], normalization: Normalization, sd: &[u8]) -> (r: Option<Vec<u8>>)
    ensures
        (r is Some) == (process_line_seq(line@, normalization, sd@) is Some),
        r is Some ==> (r->0)@ == process_line_seq(line@, normalization, sd@)->0,
{
    match filter(line, normalization) {
        None => None,
        Some(l) => {
            let t = trim_end_ws(l.as_slice());
            if contains(t.as_slice(), sd) {
                proof {
                    reveal_strlit("$DIR");
                }
                let token = str_bytes("$DIR");
                let replaced = replace(t.as_slice(), sd, token.as_slice());
                Some(replaced)
            } else {
                Some(t)
            }
        },
    }
}

/// One full normalization pass: line ending collapse, per-line filtering,
/// blank-line collapse, and the final trim.
pub fn apply(original: &[u8], normalization: Normalization, source_dir: &[u8]) -> (r: Vec<u8>)
    ensures
        r@ == apply_seq(original@, normalization, source_dir@),
{
    let lines = split_lines(original);
    let ghost lv = lines.deep_view();
    let mut acc: Vec<u8> = Vec::new();
    let mut i: usize = 0;
    proof {
        assert(lv.take(0) =~= Seq::<Seq<u8>>::empty());
    }
    while i < lines.len()
        invariant
            i <= lines@.len(),
            lv == lines.deep_view(),
            acc@ == assemble_seq(lv.take(i as int), normalization, source_dir@),
        decreases lines@.len() - i,
    {
        let ghost before = acc@;
        match process_line(lines[i].as_slice(), normalization, source_dir) {
            None => {
                proof {
                    assert(lines@[i as int].deep_view() =~= lines@[i as int]@);
                }
            },
            Some(l) => {
                proof {
                    assert(lines@[i as int].deep_view() =~= lines@[i as int]@);
                }
                append_bytes(&mut acc, l.as_slice());
                let n = acc.len();
                if !(n >= 2 && acc[n - 1] == 10 && acc[n - 2] == 10) {
                    acc.push(10u8);
                }
                proof {
                    let a = before + l@;
                    if a.len() >= 2 && a[a.len() - 1] == 10 && a[a.len() - 2] == 10 {
                        assert(acc@ =~= a);
                    } else {
                        assert(acc@ =~= a.push(10u8));
                    }
                }
            },
        }
        i = i + 1;
        proof {
            let now = lv.take(i as int);
            assert(now.drop_last() =~= lv.take(i - 1));
            assert(now.last() == lv[i - 1]);
            assert(acc@ == emit_seq(
                assemble_seq(lv.take(i - 1), normalization, source_dir@),
                process_line_seq(lv[i - 1], normalization, source_dir@),
            ));
        }
    }
    proof {
        assert(lv.take(lines@.len() as int) =~= lv);
    }
    let trimmed = trim_end_ws(acc.as_slice());
    let mut r = trimmed;
    if r.len() > 0 {
        r.push(10u8);
    }
    proof {
        assert(r@ =~= apply_seq(original@, normalization, source_dir@));
    }
    r
}

/// Raw captured bytes decoded leniently, trailing whitespace dropped, and
/// a single final newline kept on nonempty output.  Trimming is
/// idempotent: trimming the result again changes nothing.
pub fn trim(output: &[u8]) -> (r: Vec<u8>)
    ensures
        r@ == finish_seq(lossy_of(output@)),
        finish_seq(lossy_of(r@)) == r@,
{
    let decoded = lossy_decode(output);
    let trimmed = trim_end_ws(decoded.as_slice());
    let mut r = trimmed;
    if r.len() > 0 {
        r.push(10u8);
    }
    proof {
        let y = decoded@;
        let u = trim_end_seq(y);
        crate::text::lemma_trim_end_prefix(y);
        crate::text::lemma_trim_end_last(y);
        assert(forall|j: int| u.len() <= j < y.len() ==> #[trigger] y[j] < 128);
        if u.len() == 0 {
            assert(r@ =~= y.take(0) + Seq::<u8>::empty());
            assert(lossy_of(r@) == r@);
            assert(trim_end_seq(r@) == r@);
        } else {
            assert(r@ =~= y.take(u.len() as int) + seq![10u8]);
            assert(forall|j: int| 0 <= j < seq![10u8].len() ==> seq![10u8][j] < 128);
            assert(lossy_of(r@) == r@);
            // re-trimming only removes the final newline it re-adds
            assert(trim_end_seq(r@) == trim_end_seq(u)) by {
                assert(r@.last() == 10);
                assert(r@.drop_last() =~= u);
            }
            assert(trim_end_seq(u) == u);
            assert(finish_seq(lossy_of(r@)) =~= r@);
        }
    }
    r
}

/// The ordered variations of one capture; the last is the preferred one.
pub struct Variations {
    variations: Vec<Vec<u8>>,
}

impl View for Variations {
    type V = Seq<Seq<u8>>;

    closed spec fn view(&self) -> Seq<Seq<u8>> {
        self.variations.deep_view()
    }
}

impl Variations {
    /// There is always at least one variation.
    pub open spec fn wf(&self) -> bool {
        self@.len() >= 1
    }

    /// The most aggressively normalized variation: the only text that is
    /// ever persisted or shown.
    pub fn preferred(&self) -> (r: &Vec<u8>)
        requires
            self.wf(),
        ensures
            r@ == self@.last(),
    {
        let r = &self.variations[self.variations.len() - 1];
        proof {
            assert(r@ =~= self@.last());
        }
        r
    }

    /// Whether some variation equals the given text.
    pub fn any(&self, stderr: &[u8]) -> (r: bool)
        ensures
            r == self@.contains(stderr@),
    {
        let mut i: usize = 0;
        while i < self.variations.len()
            invariant
                i <= self.variations@.len(),
                forall|j: int| 0 <= j < i ==> self@[j] != stderr@,
            decreases self.variations@.len() - i,
        {
            if eq_bytes(self.variations[i].as_slice(), stderr) {
                proof {
                    assert(self@[i as int] =~= stderr@);
                }
                return true;
            }
            proof {
                assert(self@[i as int] =~= self.variations@[i as int]@);
            }
            i = i + 1;
        }
        proof {
            if self@.contains(stderr@) {
                let j = choose|j: int| 0 <= j < self@.len() && self@[j] == stderr@;
                assert(self@[j] != stderr@);
            }
        }
        false
    }
}

/// Path scrubbing, per line: a kept line that held the source directory
/// holds, after processing, the placeholder in each such place - the
/// processed line is exactly the trimmed line with every occurrence
/// replaced - and no occurrence of the directory remains, provided the
/// directory cannot straddle a placeholder boundary (true of any
/// absolute path: it starts with a separator and holds no dollar sign).
pub proof fn lemma_line_scrubbed(line: Seq<u8>, n: Normalization, sd: Seq<u8>)
    requires
        sd.len() > 0,
        crate::text::no_boundary_overlap(sd, dir_token()),
        process_line_seq(line, n, sd) is Some,
    ensures
        contains_seq(trim_end_seq(filter_line_seq(line, n)->0), sd) ==> process_line_seq(
            line,
            n,
            sd,
        )->0 == replace_seq(trim_end_seq(filter_line_seq(line, n)->0), sd, dir_token()),
        !contains_seq(process_line_seq(line, n, sd)->0, sd),
{
    reveal_strlit("$DIR");
    assert(dir_token().len() == 4);
    let l = filter_line_seq(line, n)->0;
    let t = trim_end_seq(l);
    if contains_seq(t, sd) {
        crate::text::lemma_replace_removes(t, sd, dir_token());
    }
}

proof fn lemma_assemble_scrubbed(lines: Seq<Seq<u8>>, n: Normalization, sd: Seq<u8>)
    requires
        sd.len() > 0,
        crate::text::no_boundary_overlap(sd, dir_token()),
        !sd.contains(10u8),
    ensures
        !contains_seq(assemble_seq(lines, n, sd), sd),
        assemble_seq(lines, n, sd).len() == 0 || assemble_seq(lines, n, sd).last() == 10,
    decreases lines.len(),
{
    if lines.len() > 0 {
        lemma_assemble_scrubbed(lines.drop_last(), n, sd);
        let acc = assemble_seq(lines.drop_last(), n, sd);
        let r = assemble_seq(lines, n, sd);
        match process_line_seq(lines.last(), n, sd) {
            None => {},
            Some(l) => {
                lemma_line_scrubbed(lines.last(), n, sd);
                let a = acc + l;
                assert(!contains_seq(a, sd)) by {
                    if contains_seq(a, sd) {
                        let i = choose|i: int| crate::text::is_at(a, sd, i);
                        if i + sd.len() <= acc.len() {
                            assert(acc.subrange(i, i + sd.len()) =~= a.subrange(i, i + sd.len()));
                            assert(crate::text::is_at(acc, sd, i));
                            assert(false);
                        } else if i >= acc.len() {
                            assert(l.subrange(i - acc.len(), i - acc.len() + sd.len()) =~= a.subrange(
                                i,
                                i + sd.len(),
                            ));
                            assert(crate::text::is_at(l, sd, i - acc.len()));
                            assert(false);
                        } else {
                            // the match spans the boundary, so it holds the
                            // newline that closes the accumulated text
                            assert(acc.len() > 0);
                            assert(a[acc.len() - 1] == acc.last());
                            assert(a.subrange(i, i + sd.len())[acc.len() - 1 - i] == a[acc.len()
                                - 1]);
                            assert(sd[acc.len() - 1 - i] == 10);
                            assert(sd.contains(10u8));
                            assert(false);
                        }
                    }
                }
                if a.len() >= 2 && a[a.len() - 1] == 10 && a[a.len() - 2] == 10 {
                    assert(r == a);
                } else {
                    assert(r == a.push(10u8));
                    assert(r.last() == 10);
                    if contains_seq(r, sd) {
                        let i = choose|i: int| crate::text::is_at(r, sd, i);
                        if i + sd.len() <= a.len() {
                            assert(a.subrange(i, i + sd.len()) =~= r.subrange(i, i + sd.len()));
                            assert(crate::text::is_at(a, sd, i));
                            assert(false);
                        } else {
                            assert(r.subrange(i, i + sd.len())[a.len() - i] == r[a.len() as int]);
                            assert(sd[a.len() - i] == 10);
                            assert(sd.contains(10u8));
                            assert(false);
                        }
                    }
                }
            },
        }
    }
}

/// Path scrubbing, whole text: after normalization against a source
/// directory that cannot straddle a placeholder boundary and holds no
/// newline, no occurrence of the directory remains anywhere in the
/// output.
pub proof fn lemma_apply_scrubbed(s: Seq<u8>, n: Normalization, sd: Seq<u8>)
    requires
        sd.len() > 0,
        crate::text::no_boundary_overlap(sd, dir_token()),
        !sd.contains(10u8),
    ensures
        !contains_seq(apply_seq(s, n, sd), sd),
{
    let t = assemble_seq(lines_seq(s), n, sd);
    lemma_assemble_scrubbed(lines_seq(s), n, sd);
    let u = trim_end_seq(t);
    crate::text::lemma_trim_end_prefix(t);
    assert(!contains_seq(u, sd)) by {
        if contains_seq(u, sd) {
            let i = choose|i: int| crate::text::is_at(u, sd, i);
            assert(t.subrange(i, i + sd.len()) =~= u.subrange(i, i + sd.len()));
            assert(crate::text::is_at(t, sd, i));
            assert(false);
        }
    }
    if u.len() > 0 {
        let r = u.push(10u8);
        if contains_seq(r, sd) {
            let i = choose|i: int| crate::text::is_at(r, sd, i);
            if i + sd.len() <= u.len() {
                assert(u.subrange(i, i + sd.len()) =~= r.subrange(i, i + sd.len()));
                assert(crate::text::is_at(u, sd, i));
                assert(false);
            } else {
                assert(r.subrange(i, i + sd.len())[u.len() - i] == r[u.len() as int]);
                assert(sd[u.len() - i] == 10);
                assert(sd.contains(10u8));
                assert(false);
            }
        }
    }
}

/// The lines joined back into one text, each closed by a newline.
pub open spec fn join_nl(ls: Seq<Seq<u8>>) -> Seq<u8>
    decreases ls.len(),
{
    if ls.len() == 0 {
        Seq::empty()
    } else {
        join_nl(ls.drop_last()) + ls.last() + seq![10u8]
    }
}

proof fn lemma_join_head(ls: Seq<Seq<u8>>)
    requires
        ls.len() > 0,
    ensures
        join_nl(ls) == ls[0] + seq![10u8] + join_nl(ls.skip(1)),
    decreases ls.len(),
{
    if ls.len() == 1 {
        assert(ls.drop_last() =~= Seq::<Seq<u8>>::empty());
        assert(ls.skip(1) =~= Seq::<Seq<u8>>::empty());
        assert(join_nl(ls) =~= ls[0] + seq![10u8] + join_nl(ls.skip(1)));
    } else {
        let d = ls.drop_last();
        lemma_join_head(d);
        assert(d[0] == ls[0]);
        assert(d.skip(1) =~~= ls.skip(1).drop_last());
        assert(ls.skip(1).last() == ls.last());
        assert(join_nl(ls.skip(1)) == join_nl(ls.skip(1).drop_last()) + ls.last() + seq![10u8]);
        assert(join_nl(ls) =~= ls[0] + seq![10u8] + join_nl(ls.skip(1)));
    }
}

/// A text whose every line ends in a newline and that holds no CRLF pair
/// is the join of its own lines.
proof fn lemma_reconstruct(y: Seq<u8>)
    requires
        y.len() > 0 ==> y.last() == 10,
        !contains_seq(y, seq![13u8, 10u8]),
    ensures
        join_nl(lines_seq(y)) == y,
    decreases y.len(),
{
    if y.len() == 0 {
        assert(lines_raw(y).len() == 0);
        assert(lines_seq(y) =~~= Seq::<Seq<u8>>::empty());
    } else {
        lemma_find_byte_props(y, 10);
        let found = find_byte_seq(y, 10);
        if found is None {
            assert(y[y.len() - 1] == 10);
            assert(false);
        }
        let q = found->0;
        lemma_lines_raw_first_line(y, q);
        let rest = y.skip(q + 1);
        let head = y.take(q);
        assert(lines_raw(y) == seq![head] + lines_raw(rest));
        // the head line does not end in a carriage return
        if q > 0 && y[q - 1] == 13 {
            assert(y.subrange(q - 1, q + 1) =~= seq![13u8, 10u8]);
            assert(is_at(y, seq![13u8, 10u8], q - 1));
            assert(false);
        }
        assert(strip_final_cr(head) == head) by {
            if q > 0 {
                assert(head.last() == y[q - 1]);
            }
        }
        if rest.len() > 0 {
            assert(rest.last() == y.last());
        }
        assert(!contains_seq(rest, seq![13u8, 10u8])) by {
            if contains_seq(rest, seq![13u8, 10u8]) {
                let i = choose|i: int| is_at(rest, seq![13u8, 10u8], i);
                assert(y.subrange(q + 1 + i, q + 3 + i) =~= rest.subrange(i, i + 2));
                assert(is_at(y, seq![13u8, 10u8], q + 1 + i));
                assert(false);
            }
        }
        lemma_reconstruct(rest);
        // line views line up: the head is stripped, the rest as in the tail
        assert(lines_seq(y) =~~= seq![head] + lines_seq(rest)) by {
            let raw = lines_raw(y);
            let raw_rest = lines_raw(rest);
            assert(raw.len() == 1 + raw_rest.len());
            assert(lines_seq(y).len() == raw.len());
            assert(lines_seq(y)[0] == strip_final_cr(head)) by {
                if raw.len() == 1 {
                    assert(y.last() == 10);
                }
            }
            assert forall|i: int| 1 <= i < raw.len() implies lines_seq(y)[i] == (seq![head]
                + lines_seq(rest))[i] by {
                assert(raw[i] == raw_rest[i - 1]);
                if rest.len() > 0 {
                    assert(rest.last() == y.last());
                } else {
                    assert(raw_rest.len() == 0);
                }
            }
        }
        lemma_join_head(seq![head] + lines_seq(rest));
        assert((seq![head] + lines_seq(rest)).skip(1) =~~= lines_seq(rest));
        assert(join_nl(lines_seq(y)) =~= head + seq![10u8] + rest);
        assert(head + seq![10u8] + rest =~= y) by {
            assert(y[q as int] == 10);
        }
    }
}

/// Reassembling already-normalized lines: every line is a fixed point of
/// line processing, holds no newline, and no two empty lines stand next
/// to each other, so the assembled text is exactly the lines joined.
proof fn lemma_assemble_join(ls: Seq<Seq<u8>>, n: Normalization, sd: Seq<u8>)
    requires
        forall|i: int| #![all_triggers] 0 <= i < ls.len() ==> process_line_seq(ls[i], n, sd)
            == Some(ls[i]),
        forall|i: int| 0 <= i < ls.len() ==> !(#[trigger] ls[i]).contains(10u8),
        forall|i: int| 1 <= i < ls.len() - 1 ==> ((#[trigger] ls[i]).len() > 0 || ls[i
            + 1].len() > 0),
    ensures
        assemble_seq(ls, n, sd) == join_nl(ls),
        ls.len() > 0 ==> join_nl(ls).len() >= 1 && join_nl(ls).last() == 10,
        ls.len() > 0 && ls.last().len() > 0 ==> join_nl(ls).len() >= 2 && join_nl(ls)[join_nl(
            ls,
        ).len() - 2] != 10,
    decreases ls.len(),
{
    if ls.len() == 0 {
    } else {
        let d = ls.drop_last();
        let l = ls.last();
        assert(forall|i: int| #![all_triggers] 0 <= i < d.len() ==> d[i] == ls[i]);
        lemma_assemble_join(d, n, sd);
        let acc = assemble_seq(d, n, sd);
        assert(acc == join_nl(d));
        assert(process_line_seq(l, n, sd) == Some(l));
        let a = acc + l;
        let r = assemble_seq(ls, n, sd);
        assert(r == emit_seq(acc, Some(l)));
        if l.len() > 0 {
            assert(a.len() >= 1);
            assert(a.last() == l.last());
            assert(l.last() != 10) by {
                if l.last() == 10 {
                    assert(l.contains(10u8));
                }
            }
            assert(r == a.push(10u8));
            assert(r =~= join_nl(d) + l + seq![10u8]);
            assert(r.len() >= 2 && r[r.len() - 2] == l.last());
        } else {
            assert(a =~= acc);
            if d.len() == 0 {
                assert(acc.len() == 0);
                assert(r == a.push(10u8));
                assert(r =~= join_nl(d) + l + seq![10u8]);
            } else if d.last().len() == 0 {
                // only a single leading blank line can precede this one
                assert(d.len() == 1) by {
                    if d.len() >= 2 {
                        assert(ls[ls.len() - 2].len() > 0 || ls[ls.len() - 1].len() > 0);
                        assert(d.last() == ls[ls.len() - 2]);
                        assert(false);
                    }
                }
                assert(d.drop_last() =~~= Seq::<Seq<u8>>::empty());
                assert(join_nl(d.drop_last()) == Seq::<u8>::empty());
                assert(join_nl(d) == join_nl(d.drop_last()) + d.last() + seq![10u8]);
                assert(join_nl(d) =~= seq![10u8]);
                assert(!(a.len() >= 2 && a[a.len() - 1] == 10 && a[a.len() - 2] == 10));
                assert(r == a.push(10u8));
                assert(r =~= join_nl(d) + l + seq![10u8]);
            } else {
                assert(acc.len() >= 2 && acc[acc.len() - 2] != 10);
                assert(!(a.len() >= 2 && a[a.len() - 1] == 10 && a[a.len() - 2] == 10));
                assert(r == a.push(10u8));
                assert(r =~= join_nl(d) + l + seq![10u8]);
            }
        }
        assert(r == join_nl(ls));
        assert(join_nl(ls).last() == 10);
        if l.len() > 0 {
            assert(join_nl(ls)[join_nl(ls).len() - 2] == l.last());
            assert(l.last() != 10) by {
                if l.last() == 10 {
                    assert(l.contains(10u8));
                }
            }
        }
    }
}

proof fn lemma_join_last(ms: Seq<Seq<u8>>)
    requires
        ms.len() > 0,
    ensures
        join_nl(ms).len() >= 1,
        join_nl(ms).last() == 10,
{
    assert(join_nl(ms) == join_nl(ms.drop_last()) + ms.last() + seq![10u8]);
}

proof fn lemma_join_split(ls: Seq<Seq<u8>>, k: int)
    requires
        0 <= k <= ls.len(),
    ensures
        join_nl(ls) == join_nl(ls.take(k)) + join_nl(ls.skip(k)),
    decreases k,
{
    if k == 0 {
        assert(ls.take(0) =~~= Seq::<Seq<u8>>::empty());
        assert(ls.skip(0) =~~= ls);
        assert(join_nl(ls) =~= Seq::<u8>::empty() + join_nl(ls));
    } else {
        lemma_join_head(ls);
        lemma_join_split(ls.skip(1), k - 1);
        lemma_join_head(ls.take(k));
        assert(ls.skip(1).take(k - 1) =~~= ls.take(k).skip(1));
        assert(ls.skip(1).skip(k - 1) =~~= ls.skip(k));
        assert(ls.take(k)[0] == ls[0]);
        assert(join_nl(ls) =~= join_nl(ls.take(k)) + join_nl(ls.skip(k)));
    }
}

/// Assembled output never holds three newlines in a row: blank lines
/// collapse.
proof fn lemma_assemble_triple_free(ls: Seq<Seq<u8>>, n: Normalization, sd: Seq<u8>)
    requires
        forall|i: int| 0 <= i < ls.len() ==> !(#[trigger] ls[i]).contains(10u8),
    ensures
        !contains_seq(assemble_seq(ls, n, sd), seq![10u8, 10u8, 10u8]),
    decreases ls.len(),
{
    let triple = seq![10u8, 10u8, 10u8];
    if ls.len() > 0 {
        lemma_assemble_triple_free(ls.drop_last(), n, sd);
        let acc = assemble_seq(ls.drop_last(), n, sd);
        let r = assemble_seq(ls, n, sd);
        match process_line_seq(ls.last(), n, sd) {
            None => {},
            Some(l) => {
                lemma_process_line_clean(ls.last(), n, sd);
                let a = acc + l;
                assert(!contains_seq(a, triple)) by {
                    if contains_seq(a, triple) {
                        let i = choose|i: int| is_at(a, triple, i);
                        assert(a.subrange(i, i + 3)[0] == 10 && a.subrange(i, i + 3)[1] == 10
                            && a.subrange(i, i + 3)[2] == 10);
                        assert(a[i] == 10 && a[i + 1] == 10 && a[i + 2] == 10);
                        if i + 3 <= acc.len() {
                            assert(acc.subrange(i, i + 3) =~= a.subrange(i, i + 3));
                            assert(is_at(acc, triple, i));
                            assert(false);
                        } else {
                            assert(l[i + 2 - acc.len()] == 10);
                            assert(l.contains(10u8));
                            assert(false);
                        }
                    }
                }
                if a.len() >= 2 && a[a.len() - 1] == 10 && a[a.len() - 2] == 10 {
                    assert(r == a);
                } else {
                    assert(r == a.push(10u8));
                    if contains_seq(r, triple) {
                        let i = choose|i: int| is_at(r, triple, i);
                        assert(r.subrange(i, i + 3)[0] == 10 && r.subrange(i, i + 3)[1] == 10
                            && r.subrange(i, i + 3)[2] == 10);
                        assert(r[i] == 10 && r[i + 1] == 10 && r[i + 2] == 10);
                        if i + 3 <= a.len() {
                            assert(a.subrange(i, i + 3) =~= r.subrange(i, i + 3));
                            assert(is_at(a, triple, i));
                            assert(false);
                        } else {
                            assert(i + 2 == a.len());
                            assert(a[i] == 10 && a[i + 1] == 10);
                            assert(a.len() >= 2 && a[a.len() - 1] == 10 && a[a.len() - 2] == 10);
                            assert(false);
                        }
                    }
                }
            },
        }
    }
}

/// Idempotence: one pass normalizes, and a second pass over its output
/// changes nothing, whenever each line of that output is a fixed point
/// of line processing - as untouched lines and rewritten source-location
/// lines are shown to be by the lemmas above.
pub proof fn lemma_normalize_idempotent(x: Seq<u8>, n: Normalization, sd: Seq<u8>)
    requires
        forall|i: int| #![all_triggers] 0 <= i < lines_seq(apply_seq(x, n, sd)).len()
            ==> process_line_seq(lines_seq(apply_seq(x, n, sd))[i], n, sd) == Some(
            lines_seq(apply_seq(x, n, sd))[i],
        ),
    ensures
        apply_seq(apply_seq(x, n, sd), n, sd) == apply_seq(x, n, sd),
{
    let y = apply_seq(x, n, sd);
    let ls = lines_seq(y);
    let triple = seq![10u8, 10u8, 10u8];
    lemma_apply_no_crlf(x, n, sd);
    let t0 = assemble_seq(lines_seq(x), n, sd);
    let u = trim_end_seq(t0);
    crate::text::lemma_trim_end_prefix(t0);
    crate::text::lemma_trim_end_last(t0);
    if y.len() == 0 {
        assert(lines_raw(y).len() == 0);
        assert(ls.len() == 0);
        assert(assemble_seq(ls, n, sd) == Seq::<u8>::empty());
        assert(trim_end_seq(Seq::<u8>::empty()) =~= Seq::<u8>::empty());
        assert(apply_seq(y, n, sd) =~= y);
    } else {
        assert(u.len() > 0 && y == u.push(10u8));
        assert(y.last() == 10);
        assert(y[y.len() - 2] == u.last());
        assert(!is_ws(u.last()));
        // the output holds no three newlines in a row
        assert(forall|i: int| 0 <= i < lines_seq(x).len() ==> !(#[trigger] lines_seq(
            x,
        )[i]).contains(10u8)) by {
            crate::text::lemma_lines_raw_free(x);
            assert forall|i: int| 0 <= i < lines_seq(x).len() implies !lines_seq(x)[i].contains(
                10u8,
            ) by {
                let raw = lines_raw(x)[i];
                if lines_seq(x)[i].contains(10u8) {
                    let j = choose|j: int|
                        0 <= j < lines_seq(x)[i].len() && lines_seq(x)[i][j] == 10u8;
                    assert(raw[j] == 10u8);
                    assert(raw.contains(10u8));
                    assert(false);
                }
            }
        }
        lemma_assemble_triple_free(lines_seq(x), n, sd);
        assert(!contains_seq(y, triple)) by {
            if contains_seq(y, triple) {
                let i = choose|i: int| is_at(y, triple, i);
                assert(y.subrange(i, i + 3)[0] == 10 && y.subrange(i, i + 3)[1] == 10
                    && y.subrange(i, i + 3)[2] == 10);
                assert(y[i] == 10 && y[i + 1] == 10 && y[i + 2] == 10);
                if i + 3 <= u.len() {
                    assert(u.subrange(i, i + 3) =~= y.subrange(i, i + 3));
                    assert(t0.subrange(i, i + 3) =~= u.subrange(i, i + 3));
                    assert(is_at(t0, triple, i));
                    assert(false);
                } else {
                    assert(i + 3 == y.len());
                    assert(y[i + 1] == y[y.len() - 2]);
                    assert(u.last() == 10);
                    assert(false);
                }
            }
        }
        lemma_reconstruct(y);
        assert(join_nl(ls) == y);
        // no two blank lines stand next to each other past the first
        assert(forall|i: int| 1 <= i < ls.len() - 1 ==> ((#[trigger] ls[i]).len() > 0 || ls[i
            + 1].len() > 0)) by {
            assert forall|i: int| #![trigger ls[i]]
                1 <= i < ls.len() - 1 && ls[i].len() == 0 && ls[i + 1].len() == 0 implies false by {
                lemma_join_split(ls, i);
                let head = join_nl(ls.take(i));
                let tail = join_nl(ls.skip(i));
                assert(ls.take(i).len() == i >= 1);
                lemma_join_last(ls.take(i));
                lemma_join_head(ls.skip(i));
                assert(ls.skip(i).skip(1) =~~= ls.skip(i + 1));
                lemma_join_head(ls.skip(i + 1));
                assert(ls.skip(i)[0] == ls[i]);
                assert(ls.skip(i + 1)[0] == ls[i + 1]);
                assert(tail[0] == 10 && tail[1] == 10) by {
                    assert(tail == ls[i] + seq![10u8] + join_nl(ls.skip(i + 1)));
                    assert(join_nl(ls.skip(i + 1)) == ls[i + 1] + seq![10u8] + join_nl(
                        ls.skip(i + 1).skip(1),
                    ));
                }
                let h = head.len() as int;
                assert(y[h - 1] == head.last());
                assert(y[h] == tail[0]);
                assert(y[h + 1] == tail[1]);
                assert(tail.len() >= 2);
                assert(is_at(y, triple, h - 1)) by {
                    assert(y.subrange(h - 1, h + 2) =~= triple);
                }
                assert(contains_seq(y, triple));
            }
        }
        // the last line is nonempty and ends in a non-whitespace byte
        lines_raw_nonempty(y);
        assert(ls.len() > 0);
        assert(join_nl(ls) == join_nl(ls.drop_last()) + ls.last() + seq![10u8]);
        assert(ls.last().len() > 0) by {
            if ls.last().len() == 0 {
                if ls.len() >= 2 {
                    lemma_join_last(ls.drop_last());
                    assert(y[y.len() - 2] == join_nl(ls.drop_last()).last());
                    assert(u.last() == 10);
                    assert(false);
                } else {
                    assert(ls.drop_last() =~~= Seq::<Seq<u8>>::empty());
                    assert(join_nl(ls.drop_last()) == Seq::<u8>::empty());
                    assert(y =~= seq![10u8]);
                    assert(y.len() >= 2);
                    assert(false);
                }
            }
        }
        assert(ls.last().last() == y[y.len() - 2]);
        assert(!is_ws(ls.last().last()));
        lemma_apply_idempotent(y, n, sd);
    }
}

/// Idempotence one call up: a preferred variation is a fixed point of the
/// whole normalization, and re-normalizing it yields it as the preferred
/// variation again - under the per-line hypothesis of the idempotence
/// theorem, and provided the text decodes to itself and does not hold
/// the substituted binary name.
pub proof fn lemma_diagnostics_preferred_fixed_point(x: Seq<u8>, name: Seq<u8>, sd: Seq<u8>)
    requires
        forall|i: int|
            #![all_triggers]
            0 <= i < lines_seq(apply_seq(x, Normalization::StripCouldNotCompile, sd)).len()
                ==> process_line_seq(
                lines_seq(apply_seq(x, Normalization::StripCouldNotCompile, sd))[i],
                Normalization::StripCouldNotCompile,
                sd,
            ) == Some(lines_seq(apply_seq(x, Normalization::StripCouldNotCompile, sd))[i]),
        lossy_of(apply_seq(x, Normalization::StripCouldNotCompile, sd)) == apply_seq(
            x,
            Normalization::StripCouldNotCompile,
            sd,
        ),
        !contains_seq(apply_seq(x, Normalization::StripCouldNotCompile, sd), name) || name.len()
            == 0,
    ensures
        diagnostics_seq(apply_seq(x, Normalization::StripCouldNotCompile, sd), name, sd).last()
            == apply_seq(x, Normalization::StripCouldNotCompile, sd),
{
    let n = Normalization::StripCouldNotCompile;
    let y = apply_seq(x, n, sd);
    lemma_apply_no_crlf(x, n, sd);
    crate::text::lemma_replace_id(y, seq![13u8, 10u8], seq![10u8]);
    crate::text::lemma_replace_id(y, name, crate_token());
    lemma_normalize_idempotent(x, n, sd);
    assert(diagnostics_seq(y, name, sd).last() == apply_seq(y, n, sd));
}

/// A line that the per-line pass keeps word for word: it is not a
/// source-location line, matches no dropped trailer, carries no trailing
/// whitespace, and holds no occurrence of the source directory.
pub proof fn lemma_line_passthrough_fixed(l: Seq<u8>, n: Normalization, sd: Seq<u8>)
    requires
        !(starts_with_seq(trim_start_seq(l), arrow_marker()) && rfind_any_seq(l, separators())
            is Some),
        !starts_with_seq(l, aborting_prefix()),
        l != verbose_hint(),
        !(strips_could_not_compile(n) && starts_with_seq(l, could_not_compile_prefix())),
        trim_end_seq(l) == l,
        !contains_seq(l, sd) || sd.len() == 0,
    ensures
        process_line_seq(l, n, sd) == Some(l),
{
    assert(filter_line_seq(l, n) == Some(l));
    if contains_seq(trim_end_seq(l), sd) {
        crate::text::lemma_replace_id(l, sd, dir_token());
    }
}

/// A rewritten source-location line is itself a fixed point of the
/// per-line pass: leading whitespace, the arrow, the placeholder with
/// its slash, and a final path component free of separators rewrite to
/// themselves.
pub proof fn lemma_arrow_line_fixed(l: Seq<u8>, k: int, n: Normalization, sd: Seq<u8>)
    requires
        0 <= k,
        k + 9 <= l.len(),
        forall|j: int| 0 <= j < k ==> is_ws(l[j]),
        l.subrange(k, k + 4) == arrow_marker(),
        l.subrange(k + 4, k + 9) == bytes_of("$DIR/"@),
        forall|j: int| k + 9 <= j < l.len() ==> l[j] != 47 && l[j] != 92,
        trim_end_seq(l) == l,
        !contains_seq(l, sd) || sd.len() == 0,
    ensures
        process_line_seq(l, n, sd) == Some(l),
{
    reveal_strlit("--> ");
    reveal_strlit("$DIR/");
    let marker = bytes_of("$DIR/"@);
    assert(l[k] == 45 && l[k + 1] == 45 && l[k + 2] == 62 && l[k + 3] == 32) by {
        assert(l.subrange(k, k + 4)[0] == l[k]);
        assert(l.subrange(k, k + 4)[1] == l[k + 1]);
        assert(l.subrange(k, k + 4)[2] == l[k + 2]);
        assert(l.subrange(k, k + 4)[3] == l[k + 3]);
    }
    assert(l[k + 8] == 47) by {
        assert(l.subrange(k + 4, k + 9)[4] == l[k + 8]);
        assert(marker[4] == 47);
    }
    assert(l[k + 4] == 36 && l[k + 5] == 68 && l[k + 6] == 73 && l[k + 7] == 82) by {
        assert(l.subrange(k + 4, k + 9)[0] == l[k + 4]);
        assert(l.subrange(k + 4, k + 9)[1] == l[k + 5]);
        assert(l.subrange(k + 4, k + 9)[2] == l[k + 6]);
        assert(l.subrange(k + 4, k + 9)[3] == l[k + 7]);
    }
    crate::text::lemma_trim_start_suffix(l);
    let kk = l.len() - trim_start_seq(l).len();
    assert(kk == k) by {
        if kk > k {
            assert(is_ws(l[k as int]));
            assert(false);
        }
        if kk < k {
            assert(is_ws(l[kk as int]));
            assert(trim_start_seq(l)[0] == l.skip(kk)[0]);
            assert(!is_ws(l[kk as int]));
            assert(false);
        }
    }
    assert(starts_with_seq(trim_start_seq(l), arrow_marker())) by {
        assert(trim_start_seq(l).subrange(0, 4) =~= l.subrange(k, k + 4));
    }
    crate::text::lemma_rfind_any_props(l, separators());
    assert(separators().contains(l[k + 8]));
    let found = rfind_any_seq(l, separators());
    if found is None {
        assert(false);
    }
    let cut_end = found->0;
    assert(cut_end == k + 8) by {
        if cut_end < k + 8 {
            assert(!separators().contains(l[k + 8]));
            assert(false);
        }
        if cut_end > k + 8 {
            assert(l[cut_end] != 47 && l[cut_end] != 92);
            assert(separators().contains(l[cut_end]));
            assert(false);
        }
    }
    crate::text::lemma_find_byte_props(l, 62);
    let g = find_byte_seq(l, 62);
    if g is None {
        assert(false);
    }
    assert(g->0 == k + 2) by {
        if g->0 < k + 2 {
            assert(is_ws(l[g->0]) || l[g->0] == 45);
        }
        if g->0 > k + 2 {
            assert(l[k + 2] == 62);
        }
    }
    let rewritten = l.take(k + 4) + marker + l.skip(k + 9);
    assert(filter_line_seq(l, n) == Some(rewritten));
    assert(rewritten =~= l);
    if contains_seq(trim_end_seq(l), sd) {
        crate::text::lemma_replace_id(l, sd, dir_token());
    }
}

/// Idempotence: a text in normalized shape - every line closed by a
/// newline, every line a fixed point of line processing, no CRLF pair,
/// no two adjacent blank lines, no trailing blank line - normalizes to
/// itself.  The output of one normalization pass has this shape
/// whenever its lines are such fixed points.
pub proof fn lemma_apply_idempotent(y: Seq<u8>, n: Normalization, sd: Seq<u8>)
    requires
        y.len() > 0 ==> y.last() == 10,
        !contains_seq(y, seq![13u8, 10u8]),
        forall|i: int| #![all_triggers] 0 <= i < lines_seq(y).len() ==> process_line_seq(
            lines_seq(y)[i],
            n,
            sd,
        ) == Some(lines_seq(y)[i]),
        forall|i: int| 1 <= i < lines_seq(y).len() - 1 ==> ((#[trigger] lines_seq(y)[i]).len()
            > 0 || lines_seq(y)[i + 1].len() > 0),
        lines_seq(y).len() > 0 ==> lines_seq(y).last().len() > 0 && !is_ws(
            lines_seq(y).last().last(),
        ),
    ensures
        apply_seq(y, n, sd) == y,
{
    let ls = lines_seq(y);
    if y.len() == 0 {
        assert(lines_raw(y).len() == 0);
        assert(ls.len() == 0);
        assert(assemble_seq(ls, n, sd) == Seq::<u8>::empty());
        assert(trim_end_seq(Seq::<u8>::empty()) =~= Seq::<u8>::empty());
        assert(apply_seq(y, n, sd) =~= y);
    } else {
        lines_raw_nonempty(y);
        assert(ls.len() > 0);
        assert(forall|i: int| 0 <= i < ls.len() ==> !(#[trigger] ls[i]).contains(10u8)) by {
            crate::text::lemma_lines_raw_free(y);
            assert forall|i: int| 0 <= i < ls.len() implies !ls[i].contains(10u8) by {
                let raw = lines_raw(y)[i];
                if ls[i].contains(10u8) {
                    let j = choose|j: int| 0 <= j < ls[i].len() && ls[i][j] == 10u8;
                    assert(raw[j] == 10u8);
                    assert(raw.contains(10u8));
                    assert(false);
                }
            }
        }
        lemma_assemble_join(ls, n, sd);
        lemma_reconstruct(y);
        assert(assemble_seq(ls, n, sd) == y);
        // the final trim only removes the closing newline it re-adds
        let w = y.drop_last();
        assert(trim_end_seq(y) == trim_end_seq(w));
        assert(y == join_nl(ls));
        assert(y[y.len() - 2] == ls.last().last()) by {
            assert(join_nl(ls) == join_nl(ls.drop_last()) + ls.last() + seq![10u8]);
        }
        assert(w.len() > 0 && w.last() == y[y.len() - 2]);
        assert(!is_ws(w.last()));
        assert(trim_end_seq(w) == w);
        assert(apply_seq(y, n, sd) == w.push(10u8));
        assert(w.push(10u8) =~= y);
    }
}

/// A processed line holds no newline byte - given a line that holds
/// none - and never ends in a carriage return.
proof fn lemma_process_line_clean(line: Seq<u8>, n: Normalization, sd: Seq<u8>)
    requires
        !line.contains(10u8),
        process_line_seq(line, n, sd) is Some,
    ensures
        !(process_line_seq(line, n, sd)->0).contains(10u8),
        (process_line_seq(line, n, sd)->0).len() > 0 ==> (process_line_seq(line, n, sd)->0).last()
            != 13,
{
    reveal_strlit("$DIR/");
    reveal_strlit("$DIR");
    reveal_strlit("--> ");
    let f = filter_line_seq(line, n)->0;
    assert(!f.contains(10u8)) by {
        if starts_with_seq(trim_start_seq(line), arrow_marker()) && rfind_any_seq(
            line,
            separators(),
        ) is Some {
            let marker = bytes_of("$DIR/"@);
            assert(forall|j: int| 0 <= j < marker.len() ==> marker[j] != 10);
            crate::text::lemma_trim_start_suffix(line);
            crate::text::lemma_rfind_any_props(line, separators());
            lemma_find_byte_props(line, 62);
            let k = line.len() - trim_start_seq(line).len();
            let trimmed = trim_start_seq(line);
            assert(trimmed.len() >= 4);
            assert(trimmed[2] == arrow_marker()[2] && trimmed[0] == arrow_marker()[0]
                && trimmed[1] == arrow_marker()[1]) by {
                assert(trimmed.subrange(0, 4) == arrow_marker());
                assert(trimmed.subrange(0, 4)[0] == trimmed[0]);
                assert(trimmed.subrange(0, 4)[1] == trimmed[1]);
                assert(trimmed.subrange(0, 4)[2] == trimmed[2]);
            }
            assert(line[k + 2] == 62 && line[k] == 45 && line[k + 1] == 45);
            assert(forall|j: int| 0 <= j < k ==> is_ws(line[j]) && line[j] != 62);
            if find_byte_seq(line, 62) is None {
                assert(false);
            }
            let g = find_byte_seq(line, 62)->0;
            assert(g == k + 2) by {
                if g < k + 2 {
                    assert(is_ws(line[g]) || line[g] == 45);
                }
            }
            let cut_start = g + 2;
            assert(cut_start <= line.len());
            let cut_end = rfind_any_seq(line, separators())->0;
            assert(0 <= cut_end < line.len());
            let head = line.take(cut_start);
            let tail = line.skip(cut_end + 1);
            if f.contains(10u8) {
                let j = choose|j: int| 0 <= j < f.len() && f[j] == 10u8;
                if j < head.len() {
                    assert(head[j] == line[j]);
                    assert(line.contains(10u8));
                    assert(false);
                } else if j < head.len() + marker.len() {
                    assert(marker[j - head.len()] == 10);
                    assert(false);
                } else {
                    assert(tail[j - head.len() - marker.len()] == 10);
                    assert(line[j - head.len() - marker.len() + cut_end + 1] == 10);
                    assert(line.contains(10u8));
                    assert(false);
                }
            }
        } else {
            assert(f == line);
        }
    }
    let t = trim_end_seq(f);
    assert(!t.contains(10u8)) by {
        crate::text::lemma_trim_end_prefix(f);
        if t.contains(10u8) {
            let j = choose|j: int| 0 <= j < t.len() && t[j] == 10u8;
            assert(f.take(t.len() as int)[j] == 10);
            assert(f[j] == 10);
            assert(f.contains(10u8));
            assert(false);
        }
    }
    crate::text::lemma_trim_end_last(f);
    assert(t.len() > 0 ==> !is_ws(t.last()));
    if contains_seq(t, sd) {
        let out = replace_seq(t, sd, dir_token());
        assert(!out.contains(10u8)) by {
            if out.contains(10u8) {
                crate::text::lemma_replace_bytes(t, sd, dir_token(), 10u8);
                assert(forall|j: int| 0 <= j < dir_token().len() ==> dir_token()[j] != 10);
                if dir_token().contains(10u8) {
                    let j = choose|j: int|
                        0 <= j < dir_token().len() && dir_token()[j] == 10u8;
                    assert(false);
                }
            }
        }
        if out.len() > 0 {
            crate::text::lemma_replace_last(t, sd, dir_token());
            assert(dir_token().last() == 82);
            assert(out.last() != 13);
        }
    }
}

proof fn lemma_assemble_no_crlf(ls: Seq<Seq<u8>>, n: Normalization, sd: Seq<u8>)
    requires
        forall|i: int| 0 <= i < ls.len() ==> !(#[trigger] ls[i]).contains(10u8),
    ensures
        !contains_seq(assemble_seq(ls, n, sd), seq![13u8, 10u8]),
        assemble_seq(ls, n, sd).len() == 0 || assemble_seq(ls, n, sd).last() == 10,
    decreases ls.len(),
{
    let crlf = seq![13u8, 10u8];
    if ls.len() > 0 {
        lemma_assemble_no_crlf(ls.drop_last(), n, sd);
        let acc = assemble_seq(ls.drop_last(), n, sd);
        let r = assemble_seq(ls, n, sd);
        match process_line_seq(ls.last(), n, sd) {
            None => {},
            Some(l) => {
                lemma_process_line_clean(ls.last(), n, sd);
                let a = acc + l;
                assert(!contains_seq(a, crlf)) by {
                    if contains_seq(a, crlf) {
                        let i = choose|i: int| is_at(a, crlf, i);
                        assert(a.subrange(i, i + 2)[0] == 13 && a.subrange(i, i + 2)[1] == 10);
                        assert(a[i] == 13 && a[i + 1] == 10);
                        if i + 2 <= acc.len() {
                            assert(acc.subrange(i, i + 2) =~= a.subrange(i, i + 2));
                            assert(is_at(acc, crlf, i));
                            assert(false);
                        } else if i >= acc.len() {
                            assert(l[i + 1 - acc.len()] == 10);
                            assert(l.contains(10u8));
                            assert(false);
                        } else {
                            assert(i == acc.len() - 1);
                            assert(a[i] == acc.last());
                            assert(acc.last() == 10);
                            assert(false);
                        }
                    }
                }
                if a.len() >= 2 && a[a.len() - 1] == 10 && a[a.len() - 2] == 10 {
                    assert(r == a);
                } else {
                    assert(r == a.push(10u8));
                    if contains_seq(r, crlf) {
                        let i = choose|i: int| is_at(r, crlf, i);
                        assert(r.subrange(i, i + 2)[0] == 13 && r.subrange(i, i + 2)[1] == 10);
                        assert(r[i] == 13 && r[i + 1] == 10);
                        if i + 2 <= a.len() {
                            assert(a.subrange(i, i + 2) =~= r.subrange(i, i + 2));
                            assert(is_at(a, crlf, i));
                            assert(false);
                        } else {
                            assert(i == a.len() - 1);
                            assert(r[i] == a.last());
                            if l.len() > 0 {
                                assert(a.last() == l.last());
                                assert(l.last() != 13);
                            } else {
                                assert(a =~= acc);
                                assert(acc.last() == 10);
                            }
                            assert(false);
                        }
                    }
                }
            },
        }
    }
}

/// Normalized output never holds a CRLF pair, so it always matches its
/// own re-read, whatever line-ending collapse the comparator applies to
/// stored text.
pub proof fn lemma_apply_no_crlf(s: Seq<u8>, n: Normalization, sd: Seq<u8>)
    ensures
        !contains_seq(apply_seq(s, n, sd), seq![13u8, 10u8]),
{
    let crlf = seq![13u8, 10u8];
    let ls = lines_seq(s);
    assert(forall|i: int| 0 <= i < ls.len() ==> !(#[trigger] ls[i]).contains(10u8)) by {
        crate::text::lemma_lines_raw_free(s);
        assert forall|i: int| 0 <= i < ls.len() implies !ls[i].contains(10u8) by {
            let raw = lines_raw(s)[i];
            if ls[i].contains(10u8) {
                let j = choose|j: int| 0 <= j < ls[i].len() && ls[i][j] == 10u8;
                assert(raw[j] == 10u8);
                assert(raw.contains(10u8));
                assert(false);
            }
        }
    }
    lemma_assemble_no_crlf(ls, n, sd);
    let t = assemble_seq(ls, n, sd);
    let u = trim_end_seq(t);
    crate::text::lemma_trim_end_prefix(t);
    assert(!contains_seq(u, crlf)) by {
        if contains_seq(u, crlf) {
            let i = choose|i: int| is_at(u, crlf, i);
            assert(t.subrange(i, i + 2) =~= u.subrange(i, i + 2));
            assert(is_at(t, crlf, i));
            assert(false);
        }
    }
    if u.len() > 0 {
        let r = u.push(10u8);
        if contains_seq(r, crlf) {
            let i = choose|i: int| is_at(r, crlf, i);
            assert(r.subrange(i, i + 2)[0] == 13 && r.subrange(i, i + 2)[1] == 10);
            assert(r[i] == 13 && r[i + 1] == 10);
            if i + 2 <= u.len() {
                assert(u.subrange(i, i + 2) =~= r.subrange(i, i + 2));
                assert(is_at(u, crlf, i));
                assert(false);
            } else {
                assert(i == u.len() - 1);
                assert(r[i] == u.last());
                crate::text::lemma_trim_end_last(t);
                assert(!is_ws(u.last()));
                assert(false);
            }
        }
    }
}

/// Normalizes one raw capture into its variations: line endings collapsed,
/// the generated binary name and the source directory replaced by fixed
/// placeholders, noisy lines dropped, per pass.
pub fn diagnostics(output: &[u8], test: &Test, project: &Project) -> (v: Variations)
    ensures
        v.wf(),
        v@ == diagnostics_seq(output@, test.name@, project.source_dir@),
{
    let decoded = lossy_decode(output);
    let mut crlf: Vec<u8> = Vec::new();
    crlf.push(13u8);
    crlf.push(10u8);
    let mut nl: Vec<u8> = Vec::new();
    nl.push(10u8);
    proof {
        assert(crlf@ =~= seq![13u8, 10u8]);
        assert(nl@ =~= seq![10u8]);
        reveal_strlit("$CRATE");
    }
    let t1 = replace(decoded.as_slice(), crlf.as_slice(), nl.as_slice());
    let token = str_bytes("$CRATE");
    let t2 = replace(t1.as_slice(), test.name.as_slice(), token.as_slice());
    let basic = apply(t2.as_slice(), Normalization::Basic, project.source_dir.as_slice());
    let preferred = apply(
        t2.as_slice(),
        Normalization::StripCouldNotCompile,
        project.source_dir.as_slice(),
    );
    let mut variations: Vec<Vec<u8>> = Vec::new();
    variations.push(basic);
    variations.push(preferred);
    let v = Variations { variations };
    proof {
        assert(v@ =~~= diagnostics_seq(output@, test.name@, project.source_dir@));
    }
    v
}

} // verus!
