//! The orchestrator's decisions: glob expansion and naming of test cases,
//! the command-line name filter, classification of one built (and
//! possibly run) case by its declared expectation, and the run-level
//! verdict.
//!
//! Everything that touches the outside - building, running, reading and
//! writing expectation files, reporting - is driven by the surrounding
//! program, which feeds captured values in and carries decisions out.

use vstd::multiset::Multiset;
use vstd::prelude::*;

use crate::cargo::Project;
use crate::compare::{
    resolve, resolve_seq, stored_view, verdict_of, verdict_of_model, Resolution,
};
use crate::normalize::{diagnostics, diagnostics_seq};
use crate::text::{bytes_of, contains, contains_seq, dup_bytes, eq_bytes, find_byte, str_bytes};
use crate::{CapturedOutput, Failure, Test, TestKind, TestModel, Verdict};

verus! {

/// Relies on glob::glob: expands a Unix-shell-style pattern against the
/// file system.  Which paths come back depends on the directory contents,
/// so nothing is stated of them; each is handed back as its operating
/// system bytes, so it names the file faithfully even when that name is
/// not text.  A malformed pattern, an unreadable directory, or a pattern
/// that is not text is reported as an error message.
#[verifier::external_body]
fn glob_paths(pattern: &[u8]) -> (r: Result<Vec<Vec<u8>>, Vec<u8>>) {
    let p = core::str::from_utf8(pattern).map_err(|e| format!("{}", e).into_bytes())?;
    let entries = glob::glob(p).map_err(|e| format!("{}", e).into_bytes())?;
    let mut out = Vec::new();
    for entry in entries {
        let path = entry.map_err(|e| format!("{}", e).into_bytes())?;
        out.push(path.into_os_string().into_encoded_bytes());
    }
    Ok(out)
}

impl Test {
    /// A copy of this test entry.
    pub fn duplicate(&self) -> (r: Test)
        ensures
            r.name@ == self.name@,
            r.path@ == self.path@,
            r.kind == self.kind,
    {
        Test {
            name: dup_bytes(self.name.as_slice()),
            path: dup_bytes(self.path.as_slice()),
            kind: self.kind,
        }
    }
}

/// The decimal digits of `n`.
pub open spec fn dec_rep(n: nat) -> Seq<u8>
    decreases n,
{
    if n < 10 {
        seq![(48 + n) as u8]
    } else {
        dec_rep(n / 10) + seq![(48 + n % 10) as u8]
    }
}

/// The decimal digits of `n`, zero-padded to at least three.
pub open spec fn pad3(n: nat) -> Seq<u8> {
    if n < 10 {
        seq![48u8, 48u8] + dec_rep(n)
    } else if n < 100 {
        seq![48u8] + dec_rep(n)
    } else {
        dec_rep(n)
    }
}

/// The name a glob-expanded case gets: the declared name, a dash, and the
/// zero-padded position index, stable across runs over the same
/// directory contents.
pub open spec fn expanded_name(base: Seq<u8>, idx: nat) -> Seq<u8> {
    base + seq![45u8] + pad3(idx)
}

fn dec_digits(n: usize) -> (r: Vec<u8>)
    ensures
        r@ == dec_rep(n as nat),
    decreases n,
{
    if n < 10 {
        let mut r: Vec<u8> = Vec::new();
        r.push(48 + (n as u8));
        proof {
            assert(r@ =~= dec_rep(n as nat));
        }
        r
    } else {
        let mut r = dec_digits(n / 10);
        r.push(48 + ((n % 10) as u8));
        proof {
            assert(r@ =~= dec_rep(n as nat));
        }
        r
    }
}

/// The `-NNN` suffixed name of one glob-expanded case.
pub fn gen_expanded_name(base: &[u8], idx: usize) -> (r: Vec<u8>)
    ensures
        r@ == expanded_name(base@, idx as nat),
{
    let mut r = dup_bytes(base);
    r.push(45u8);
    if idx < 10 {
        r.push(48u8);
        r.push(48u8);
    } else if idx < 100 {
        r.push(48u8);
    }
    let digits = dec_digits(idx);
    crate::text::append_bytes(&mut r, digits.as_slice());
    proof {
        assert(r@ =~= expanded_name(base@, idx as nat));
    }
    r
}

proof fn lemma_dec_rep_len(n: nat)
    ensures
        dec_rep(n).len() >= 1,
        n < 10 ==> dec_rep(n).len() == 1,
        10 <= n < 100 ==> dec_rep(n).len() == 2,
        100 <= n < 1000 ==> dec_rep(n).len() == 3,
        n >= 1000 ==> dec_rep(n).len() >= 4,
        dec_rep(n)[0] != 48 || n < 10,
    decreases n,
{
    if n >= 10 {
        lemma_dec_rep_len(n / 10);
    }
}

proof fn lemma_dec_rep_injective(a: nat, b: nat)
    requires
        dec_rep(a) == dec_rep(b),
    ensures
        a == b,
    decreases a,
{
    lemma_dec_rep_len(a);
    lemma_dec_rep_len(b);
    if a < 10 && b < 10 {
        assert(dec_rep(a)[0] == (48 + a) as u8);
        assert(dec_rep(b)[0] == (48 + b) as u8);
    } else if a >= 10 && b >= 10 {
        assert(dec_rep(a).last() == (48 + a % 10) as u8);
        assert(dec_rep(b).last() == (48 + b % 10) as u8);
        assert(a % 10 == b % 10);
        assert(dec_rep(a).drop_last() =~= dec_rep(a / 10));
        assert(dec_rep(b).drop_last() =~= dec_rep(b / 10));
        lemma_dec_rep_injective(a / 10, b / 10);
    } else {
        assert(dec_rep(a).len() == dec_rep(b).len());
        assert(false);
    }
}

proof fn lemma_pad3_injective(a: nat, b: nat)
    requires
        pad3(a) == pad3(b),
    ensures
        a == b,
{
    lemma_dec_rep_len(a);
    lemma_dec_rep_len(b);
    if a < 10 && b < 10 {
        assert(pad3(a)[2] == dec_rep(a)[0]);
        assert(pad3(b)[2] == dec_rep(b)[0]);
        lemma_dec_rep_injective(a, b);
    } else if 10 <= a < 100 && 10 <= b < 100 {
        assert(pad3(a).skip(1) =~= dec_rep(a));
        assert(pad3(b).skip(1) =~= dec_rep(b));
        lemma_dec_rep_injective(a, b);
    } else if a >= 100 && b >= 100 {
        lemma_dec_rep_injective(a, b);
    } else {
        // mixed ranges: the lengths or the leading digit differ
        assert(pad3(a).len() == pad3(b).len());
        if a < 10 && 10 <= b < 100 {
            assert(pad3(a)[1] == 48);
            assert(pad3(b)[1] == dec_rep(b)[0]);
            assert(false);
        } else if a < 10 && b >= 100 {
            assert(pad3(a)[0] == 48);
            assert(pad3(b)[0] == dec_rep(b)[0]);
            assert(false);
        } else if 10 <= a < 100 && b < 10 {
            assert(pad3(b)[1] == 48);
            assert(pad3(a)[1] == dec_rep(a)[0]);
            assert(false);
        } else if 10 <= a < 100 && b >= 100 {
            assert(pad3(a)[0] == 48);
            assert(pad3(b)[0] == dec_rep(b)[0]);
            assert(false);
        } else if a >= 100 && b < 10 {
            assert(pad3(b)[0] == 48);
            assert(pad3(a)[0] == dec_rep(a)[0]);
            assert(false);
        } else {
            assert(a >= 100 && 10 <= b < 100);
            assert(pad3(b)[0] == 48);
            assert(pad3(a)[0] == dec_rep(a)[0]);
            assert(false);
        }
    }
}

/// Distinct position indices give a glob expansion distinct names: the
/// generated names stay unique within one run.
pub proof fn lemma_expanded_names_unique(base: Seq<u8>, i: nat, j: nat)
    requires
        i != j,
    ensures
        expanded_name(base, i) != expanded_name(base, j),
{
    if expanded_name(base, i) == expanded_name(base, j) {
        let a = expanded_name(base, i);
        let b = expanded_name(base, j);
        assert(a.len() == b.len());
        assert(pad3(i).len() == pad3(j).len());
        assert forall|k: int| 0 <= k < pad3(i).len() implies pad3(i)[k] == pad3(j)[k] by {
            assert(a[base.len() + 1 + k] == pad3(i)[k]);
            assert(b[base.len() + 1 + k] == pad3(j)[k]);
        }
        assert(pad3(i) =~= pad3(j));
        lemma_pad3_injective(i, j);
        assert(false);
    }
}

/// The concrete entries one glob pattern expands to, numbered from
/// `start`: each keeps the declared expectation, takes one matched path,
/// and is named after its position.
pub fn number_glob_expansion(base: &Test, paths: &Vec<Vec<u8>>, start: usize) -> (r: Vec<Test>)
    requires
        start + paths@.len() <= usize::MAX,
    ensures
        r@.len() == paths@.len(),
        forall|i: int| #![all_triggers] 0 <= i < r@.len() ==> r@[i].path@ == paths@[i]@
            && r@[i].kind == base.kind && r@[i].name@ == expanded_name(
            base.name@,
            (start + i) as nat,
        ),
{
    let mut r: Vec<Test> = Vec::new();
    let mut i: usize = 0;
    while i < paths.len()
        invariant
            i <= paths@.len(),
            start + paths@.len() <= usize::MAX,
            r@.len() == i,
            forall|k: int| #![all_triggers] 0 <= k < i ==> r@[k].path@ == paths@[k]@ && r@[k].kind
                == base.kind && r@[k].name@ == expanded_name(base.name@, (start + k) as nat),
        decreases paths@.len() - i,
    {
        let name = gen_expanded_name(base.name.as_slice(), start + i);
        r.push(Test { name, path: dup_bytes(paths[i].as_slice()), kind: base.kind });
        i = i + 1;
    }
    r
}

/// Every element is lexicographically at or before every later one.
pub open spec fn sorted_lex(s: Seq<Seq<u8>>) -> bool {
    forall|i: int, j: int| 0 <= i < j < s.len() ==> crate::text::lex_le(s[i], s[j])
}

/// Sorts the expanded paths of one pattern into byte-wise lexicographic
/// order; the collection keeps exactly the same paths.
pub fn sort_paths(paths: &mut Vec<Vec<u8>>)
    ensures
        final(paths)@.len() == old(paths)@.len(),
        final(paths).deep_view().to_multiset() == old(paths).deep_view().to_multiset(),
        sorted_lex(final(paths).deep_view()),
{
    broadcast use vstd::seq_lib::group_to_multiset_ensures;

    let ghost orig = paths.deep_view();
    let mut out: Vec<Vec<u8>> = Vec::new();
    proof {
        assert(out.deep_view() =~~= Seq::<Seq<u8>>::empty());
        assert(out.deep_view().to_multiset().add(paths.deep_view().to_multiset())
            =~= orig.to_multiset());
    }
    while paths.len() > 0
        invariant
            out.deep_view().to_multiset().add(paths.deep_view().to_multiset())
                == orig.to_multiset(),
            out.deep_view().len() + paths.deep_view().len() == orig.len(),
            sorted_lex(out.deep_view()),
        decreases paths@.len(),
    {
        let ghost rem = paths.deep_view();
        let ghost remv = paths@;
        let ghost sorted_pre = out.deep_view();
        let x = paths.remove(0);
        proof {
            assert(x == remv[0]);
            assert(rem[0] == remv[0].deep_view());
            rem.remove_ensures(0);
            remv.remove_ensures(0);
            assert(paths.deep_view() =~~= rem.remove(0)) by {
                assert forall|m: int| 0 <= m < paths.deep_view().len() implies paths.deep_view()[m]
                    == rem.remove(0)[m] by {
                    assert(paths@[m] == remv.remove(0)[m]);
                    assert(remv.remove(0)[m] == remv[m + 1]);
                    assert(rem.remove(0)[m] == rem[m + 1]);
                    assert(rem[m + 1] == remv[m + 1].deep_view());
                }
            }
            rem.to_multiset_ensures();
            assert(rem.remove(0).to_multiset() =~= rem.to_multiset().remove(rem[0]));
        }
        let mut idx: usize = 0;
        while idx < out.len() && crate::text::lex_le_bytes(out[idx].as_slice(), x.as_slice())
            invariant
                idx <= out.deep_view().len(),
                sorted_pre == out.deep_view(),
                forall|m: int| 0 <= m < idx ==> crate::text::lex_le(
                    #[trigger] out.deep_view()[m],
                    x.deep_view(),
                ),
            decreases out@.len() - idx,
        {
            proof {
                assert(out.deep_view()[idx as int] =~= out@[idx as int]@);
                assert(x.deep_view() =~= x@);
            }
            idx = idx + 1;
        }
        proof {
            assert(x.deep_view() =~= x@);
            if idx < out.deep_view().len() {
                assert(out.deep_view()[idx as int] =~= out@[idx as int]@);
                crate::text::lemma_lex_total(out.deep_view()[idx as int], x.deep_view());
            }
        }
        let ghost inserted = x.deep_view();
        out.insert(idx, x);
        proof {
            let now = out.deep_view();
            let ghost outv = out@;
            assert(now =~~= sorted_pre.insert(idx as int, inserted)) by {
                sorted_pre.insert_ensures(idx as int, inserted);
                assert forall|m: int| 0 <= m < now.len() implies now[m] == sorted_pre.insert(
                    idx as int,
                    inserted,
                )[m] by {
                    assert(now[m] == outv[m].deep_view());
                    if m < idx {
                        assert(sorted_pre.insert(idx as int, inserted)[m] == sorted_pre[m]);
                    } else if m > idx {
                        assert(sorted_pre.insert(idx as int, inserted)[(m - 1) + 1]
                            == sorted_pre[m - 1]);
                    }
                }
            }
            sorted_pre.insert_ensures(idx as int, inserted);
            assert(sorted_lex(now)) by {
                assert forall|i: int, j: int| 0 <= i < j < now.len() implies crate::text::lex_le(
                    now[i],
                    now[j],
                ) by {
                    if j < idx {
                        assert(now[i] == sorted_pre[i]);
                        assert(now[j] == sorted_pre[j]);
                    } else if i < idx && j == idx {
                        assert(now[i] == sorted_pre[i]);
                        assert(now[j] == inserted);
                    } else if i == idx && j > idx {
                        assert(now[i] == inserted);
                        assert(now[j] == sorted_pre.insert(idx as int, inserted)[(j - 1) + 1]);
                        assert(now[j] == sorted_pre[j - 1]);
                        if idx < sorted_pre.len() {
                            if j - 1 > idx {
                                crate::text::lemma_lex_trans(
                                    inserted,
                                    sorted_pre[idx as int],
                                    sorted_pre[j - 1],
                                );
                            }
                        }
                    } else if i < idx && j > idx {
                        assert(now[i] == sorted_pre[i]);
                        assert(now[j] == sorted_pre.insert(idx as int, inserted)[(j - 1) + 1]);
                        assert(now[j] == sorted_pre[j - 1]);
                        if j - 1 > i {
                        } else {
                            assert(i == j - 1);
                            crate::text::lemma_lex_total(sorted_pre[i], sorted_pre[i]);
                        }
                    } else {
                        assert(i > idx && j > idx);
                        assert(now[i] == sorted_pre.insert(idx as int, inserted)[(i - 1) + 1]);
                        assert(now[j] == sorted_pre.insert(idx as int, inserted)[(j - 1) + 1]);
                        assert(now[i] == sorted_pre[i - 1]);
                        assert(now[j] == sorted_pre[j - 1]);
                    }
                }
            }
            assert(now.to_multiset() =~= sorted_pre.to_multiset().insert(inserted)) by {
                assert(now =~~= sorted_pre.take(idx as int) + (seq![inserted] + sorted_pre.skip(
                    idx as int,
                )));
                vstd::seq_lib::lemma_multiset_commutative(
                    sorted_pre.take(idx as int),
                    seq![inserted] + sorted_pre.skip(idx as int),
                );
                vstd::seq_lib::lemma_multiset_commutative(
                    seq![inserted],
                    sorted_pre.skip(idx as int),
                );
                vstd::seq_lib::lemma_multiset_commutative(
                    sorted_pre.take(idx as int),
                    sorted_pre.skip(idx as int),
                );
                assert(idx <= sorted_pre.len());
                assert forall|m: int|
                    0 <= m < sorted_pre.len() implies (sorted_pre.take(idx as int)
                    + sorted_pre.skip(idx as int))[m] == sorted_pre[m] by {
                    if m < idx {
                        assert(sorted_pre.take(idx as int)[m] == sorted_pre[m]);
                    } else {
                        assert(sorted_pre.skip(idx as int)[m - idx] == sorted_pre[m]);
                    }
                }
                assert(sorted_pre.take(idx as int) + sorted_pre.skip(idx as int) =~~= sorted_pre);
                assert(seq![inserted].to_multiset() =~= Multiset::<Seq<u8>>::empty().insert(
                    inserted,
                )) by {
                    assert(seq![inserted] =~~= Seq::<Seq<u8>>::empty().push(inserted));
                    Seq::<Seq<u8>>::empty().to_multiset_ensures();
                    assert(Seq::<Seq<u8>>::empty().push(inserted).to_multiset()
                        =~= Seq::<Seq<u8>>::empty().to_multiset().insert(inserted));
                }
            }
            assert(out.deep_view().to_multiset().add(paths.deep_view().to_multiset())
                =~= orig.to_multiset());
        }
    }
    proof {
        assert(paths.deep_view().to_multiset() =~= Multiset::<Seq<u8>>::empty()) by {
            assert(paths.deep_view() =~~= Seq::<Seq<u8>>::empty());
        }
        assert(out.deep_view().to_multiset() =~= orig.to_multiset());
    }
    *paths = out;
}

/// A test entry's path is a glob pattern when it holds a star.
pub open spec fn is_glob(t: Test) -> bool {
    contains_seq(t.path@, seq![42u8])
}

pub open spec fn test_like(a: Test, b: Test) -> bool {
    a.name@ == b.name@ && a.path@ == b.path@ && a.kind == b.kind
}

/// What one glob call contributed to the run: the matched paths, or the
/// error the pattern drew.
pub enum GlobOutcome {
    Expanded { paths: Seq<Seq<u8>> },
    Bad { message: Seq<u8> },
}

pub open spec fn outcome_sorted(o: GlobOutcome) -> bool {
    match o {
        GlobOutcome::Expanded { paths } => sorted_lex(paths),
        GlobOutcome::Bad { .. } => true,
    }
}

pub open spec fn test_models(ts: Seq<Test>) -> Seq<TestModel> {
    ts.map_values(|t: Test| t@)
}

pub open spec fn bad_models(bs: Seq<(Test, Vec<u8>)>) -> Seq<(TestModel, Seq<u8>)> {
    bs.map_values(|b: (Test, Vec<u8>)| (b.0@, b.1@))
}

/// The cases one starred entry expands to: one per matched path, keeping
/// the entry's declared expectation, named after its position counted
/// from `start`.
pub open spec fn numbered_cases(t: TestModel, paths: Seq<Seq<u8>>, start: nat) -> Seq<TestModel> {
    Seq::new(
        paths.len(),
        |i: int|
            TestModel {
                name: expanded_name(t.name, (start + i) as nat),
                path: paths[i],
                kind: t.kind,
            },
    )
}

/// How glob expansion assembles its output from the declared entries and
/// the per-pattern outcomes, in order: a star-free entry passes through
/// unchanged; a starred entry consumes the next outcome and contributes
/// either its expansion - numbered from the count of entries already
/// expanded - or exactly one pair in the bad list.  `None` when the
/// outcome list does not fit the starred entries one for one.
pub open spec fn assemble_expansion(tests: Seq<TestModel>, results: Seq<GlobOutcome>) -> Option<
    (Seq<TestModel>, Seq<(TestModel, Seq<u8>)>),
>
    decreases tests.len(),
{
    if tests.len() == 0 {
        if results.len() == 0 {
            Some((Seq::empty(), Seq::empty()))
        } else {
            None
        }
    } else {
        let t = tests.last();
        if !contains_seq(t.path, seq![42u8]) {
            match assemble_expansion(tests.drop_last(), results) {
                None => None,
                Some(fb) => Some((fb.0.push(t), fb.1)),
            }
        } else if results.len() == 0 {
            None
        } else {
            match assemble_expansion(tests.drop_last(), results.drop_last()) {
                None => None,
                Some(fb) => match results.last() {
                    GlobOutcome::Expanded { paths } => Some(
                        (fb.0 + numbered_cases(t, paths, fb.0.len()), fb.1),
                    ),
                    GlobOutcome::Bad { message } => Some((fb.0, fb.1.push((t, message)))),
                },
            }
        }
    }
}

/// Expands every starred entry through the file system.  Entries without
/// a star pass through unchanged, in order.  Over whatever the glob call
/// returned, the output is an assembly of the input: each starred entry
/// contributes either its expansion - paths in ascending order, numbered
/// from the count of entries already expanded - or exactly one pair in
/// the bad list, the entry with the error its pattern drew.
pub fn expand_globs(tests: &Vec<Test>) -> (r: (Vec<Test>, Vec<(Test, Vec<u8>)>))
    ensures
        exists|results: Seq<GlobOutcome>|
            {
                &&& #[trigger] assemble_expansion(test_models(tests@), results) == Some(
                    (test_models(r.0@), bad_models(r.1@)),
                )
                &&& forall|k: int| 0 <= k < results.len() ==> outcome_sorted(#[trigger] results[k])
            },
        (forall|i: int| 0 <= i < tests@.len() ==> !is_glob(tests@[i])) ==> (r.0@.len()
            == tests@.len() && r.1@.len() == 0 && forall|i: int|
            0 <= i < tests@.len() ==> test_like(r.0@[i], tests@[i])),
{
    let mut expanded: Vec<Test> = Vec::new();
    let mut bad: Vec<(Test, Vec<u8>)> = Vec::new();
    let mut i: usize = 0;
    let ghost mut gresults: Seq<GlobOutcome> = Seq::empty();
    proof {
        assert(test_models(tests@.take(0)) =~~= Seq::<TestModel>::empty());
        assert(test_models(expanded@) =~~= Seq::<TestModel>::empty());
        assert(bad_models(bad@) =~~= Seq::<(TestModel, Seq<u8>)>::empty());
        assert(assemble_expansion(test_models(tests@.take(0)), gresults) == Some(
            (test_models(expanded@), bad_models(bad@)),
        ));
    }
    while i < tests.len()
        invariant
            i <= tests@.len(),
            assemble_expansion(test_models(tests@.take(i as int)), gresults) == Some(
                (test_models(expanded@), bad_models(bad@)),
            ),
            forall|k: int| 0 <= k < gresults.len() ==> outcome_sorted(#[trigger] gresults[k]),
            (forall|k: int| 0 <= k < i ==> !is_glob(tests@[k])) ==> (expanded@.len() == i
                && bad@.len() == 0 && forall|k: int| 0 <= k < i ==> test_like(
                expanded@[k],
                tests@[k],
            )),
        decreases tests@.len() - i,
    {
        let ghost pre_models = test_models(expanded@);
        let ghost pre_bad = bad_models(bad@);
        let ghost gpre = gresults;
        proof {
            assert(tests@.take(i + 1).drop_last() =~= tests@.take(i as int));
            let now = test_models(tests@.take(i + 1));
            assert(now.drop_last() =~~= test_models(tests@.take(i as int)));
            assert(now.last() == tests@[i as int]@);
        }
        let t = &tests[i];
        let star = find_byte(t.path.as_slice(), 42u8);
        let has_star = star.is_some();
        proof {
            crate::text::lemma_find_byte_props(t.path@, 42u8);
            if has_star {
                let j = (choose|j: int| crate::text::find_byte_seq(t.path@, 42u8) == Some(j));
                assert(is_glob(tests@[i as int])) by {
                    let fj = crate::text::find_byte_seq(t.path@, 42u8)->0;
                    assert(t.path@.subrange(fj, fj + 1) =~= seq![42u8]);
                    assert(crate::text::is_at(t.path@, seq![42u8], fj));
                }
            } else {
                if is_glob(tests@[i as int]) {
                    let j = choose|j: int| crate::text::is_at(t.path@, seq![42u8], j);
                    assert(t.path@[j] == t.path@.subrange(j, j + 1)[0]);
                    assert(t.path@[j] == 42u8);
                    assert(false);
                }
            }
        }
        if has_star {
            match glob_paths(t.path.as_slice()) {
                Ok(mut paths) => {
                    sort_paths(&mut paths);
                    proof {
                        gresults = gresults.push(GlobOutcome::Expanded { paths: paths.deep_view() });
                    }
                    if expanded.len() <= usize::MAX - paths.len() {
                        let start = expanded.len();
                        let mut fresh = number_glob_expansion(t, &paths, start);
                        let ghost fresh_view = fresh@;
                        expanded.append(&mut fresh);
                        proof {
                            assert(test_models(fresh_view) =~~= numbered_cases(
                                tests@[i as int]@,
                                paths.deep_view(),
                                start as nat,
                            )) by {
                                assert forall|m: int|
                                    0 <= m < fresh_view.len() implies test_models(fresh_view)[m]
                                    =~= numbered_cases(
                                    tests@[i as int]@,
                                    paths.deep_view(),
                                    start as nat,
                                )[m] by {
                                    assert(paths.deep_view()[m] =~= paths@[m]@);
                                }
                            }
                            assert(test_models(expanded@) =~~= pre_models + test_models(
                                fresh_view,
                            ));
                            assert(pre_models.len() == start);
                            let now = test_models(tests@.take(i + 1));
                            assert(gresults.drop_last() =~= gpre);
                            assert(test_models(expanded@) =~~= pre_models + numbered_cases(
                                now.last(),
                                paths.deep_view(),
                                pre_models.len() as nat,
                            ));
                        }
                    } else {
                        proof {
                            reveal_strlit("too many test cases");
                        }
                        bad.push((t.duplicate(), str_bytes("too many test cases")));
                        proof {
                            // the library's own error: this pattern's matches
                            // do not fit; it lands in the bad list like a
                            // failing pattern
                            gresults = gpre.push(
                                GlobOutcome::Bad { message: bytes_of("too many test cases"@) },
                            );
                            assert(gresults.drop_last() =~= gpre);
                            assert(bad_models(bad@) =~~= pre_bad.push(
                                (tests@[i as int]@, bytes_of("too many test cases"@)),
                            ));
                            assert(test_models(expanded@) =~~= pre_models);
                        }
                    }
                },
                Err(message) => {
                    let ghost msg = message@;
                    bad.push((t.duplicate(), message));
                    proof {
                        gresults = gresults.push(GlobOutcome::Bad { message: msg });
                        assert(gresults.drop_last() =~= gpre);
                        assert(bad_models(bad@) =~~= pre_bad.push((tests@[i as int]@, msg)));
                        assert(test_models(expanded@) =~~= pre_models);
                    }
                },
            }
        } else {
            expanded.push(t.duplicate());
            proof {
                assert(test_models(expanded@) =~~= pre_models.push(tests@[i as int]@));
                assert(bad_models(bad@) =~~= pre_bad);
            }
        }
        i = i + 1;
        proof {
            let now = test_models(tests@.take(i as int));
            assert(now.drop_last() =~~= test_models(tests@.take(i - 1)));
            assert(now.last() == tests@[i - 1]@);
            assert(assemble_expansion(now, gresults) == Some(
                (test_models(expanded@), bad_models(bad@)),
            ));
        }
    }
    proof {
        assert(test_models(tests@.take(tests@.len() as int)) =~~= test_models(tests@));
    }
    let r = (expanded, bad);
    proof {
        assert(assemble_expansion(test_models(tests@), gresults) == Some(
            (test_models(r.0@), bad_models(r.1@)),
        ));
    }
    r
}

/// One entry of the command-line argument list understood as a name
/// filter: what follows `trybuild=`, if anything does.
pub open spec fn filter_of_arg(arg: Seq<u8>) -> Option<Seq<u8>> {
    if crate::text::starts_with_seq(arg, bytes_of("trybuild="@)) && arg.len() > 9 {
        Some(arg.skip(9))
    } else {
        None
    }
}

pub open spec fn parsed_filters(args: Seq<Seq<u8>>) -> Seq<Seq<u8>>
    decreases args.len(),
{
    if args.len() == 0 {
        Seq::empty()
    } else {
        let r = parsed_filters(args.drop_last());
        match filter_of_arg(args.last()) {
            Some(f) => r.push(f),
            None => r,
        }
    }
}

/// Reads the name filters out of the process arguments: every argument of
/// the form `trybuild=<substring>` contributes its substring.
pub fn parse_filters(args: &Vec<Vec<u8>>) -> (r: Vec<Vec<u8>>)
    ensures
        r.deep_view() == parsed_filters(args.deep_view()),
{
    proof {
        reveal_strlit("trybuild=");
    }
    let prefix = str_bytes("trybuild=");
    let mut r: Vec<Vec<u8>> = Vec::new();
    let mut i: usize = 0;
    proof {
        assert(args.deep_view().take(0) =~= Seq::<Seq<u8>>::empty());
        assert(r.deep_view() =~~= parsed_filters(args.deep_view().take(0)));
    }
    while i < args.len()
        invariant
            i <= args@.len(),
            prefix@ == bytes_of("trybuild="@),
            prefix@.len() == 9,
            r.deep_view() == parsed_filters(args.deep_view().take(i as int)),
        decreases args@.len() - i,
    {
        let ghost pre = r.deep_view();
        let arg = &args[i];
        proof {
            assert(args.deep_view()[i as int] =~= arg@);
        }
        if crate::text::starts_with(arg.as_slice(), prefix.as_slice()) && arg.len() > 9 {
            let tail = crate::text::copy_range(arg.as_slice(), 9, arg.len());
            proof {
                assert(tail@ =~= arg@.skip(9));
            }
            r.push(tail);
            proof {
                assert(r.deep_view() =~~= pre.push(arg@.skip(9)));
            }
        }
        i = i + 1;
        proof {
            reveal_strlit("trybuild=");
            let now = args.deep_view().take(i as int);
            assert(now.drop_last() =~= args.deep_view().take(i - 1));
            assert(now.last() == args.deep_view()[i - 1]);
            assert(r.deep_view() =~~= parsed_filters(now));
        }
    }
    proof {
        assert(args.deep_view().take(args@.len() as int) =~= args.deep_view());
    }
    r
}

/// The test matches some filter: its path holds that substring.
pub open spec fn matches_any_filter(t: Test, fs: Seq<Seq<u8>>) -> bool {
    exists|i: int| 0 <= i < fs.len() && contains_seq(t.path@, fs[i])
}

pub open spec fn filtered_tests(ts: Seq<Test>, fs: Seq<Seq<u8>>) -> Seq<Test>
    decreases ts.len(),
{
    if ts.len() == 0 {
        Seq::empty()
    } else {
        let r = filtered_tests(ts.drop_last(), fs);
        if matches_any_filter(ts.last(), fs) {
            r.push(ts.last())
        } else {
            r
        }
    }
}

/// Applies the command-line name filters: with none given every case
/// runs; otherwise only cases whose path holds one of the given
/// substrings are kept, in their original order.
pub fn filter(tests: &mut Vec<Test>, filters: &Vec<Vec<u8>>)
    ensures
        filters@.len() == 0 ==> final(tests)@ == old(tests)@,
        filters@.len() > 0 ==> final(tests)@ == filtered_tests(
            old(tests)@,
            filters.deep_view(),
        ),
{
    if filters.len() == 0 {
        return ;
    }
    let ghost fs = filters.deep_view();
    let mut kept: Vec<Test> = Vec::new();
    let ghost all = tests@;
    let total = tests.len();
    let mut done: usize = 0;
    proof {
        assert(all.take(0) =~= Seq::<Test>::empty());
    }
    while tests.len() > 0
        invariant
            fs == filters.deep_view(),
            all.len() == total,
            done <= all.len(),
            all.skip(done as int) =~= tests@,
            kept@ == filtered_tests(all.take(done as int), fs),
        decreases tests@.len(),
    {
        let ghost before = kept@;
        let t = tests.remove(0);
        proof {
            assert(t == all[done as int]);
            assert(all.skip(done as int).skip(1) =~= tests@);
            assert(all.skip(done + 1) =~= all.skip(done as int).skip(1));
        }
        let mut hit = false;
        let mut j: usize = 0;
        while j < filters.len()
            invariant
                fs == filters.deep_view(),
                j <= filters@.len(),
                hit == exists|k: int| 0 <= k < j && contains_seq(t.path@, fs[k]),
            decreases filters@.len() - j,
        {
            proof {
                assert(fs[j as int] =~= filters@[j as int]@);
            }
            if contains(t.path.as_slice(), filters[j].as_slice()) {
                hit = true;
            }
            j = j + 1;
        }
        proof {
            assert(hit == matches_any_filter(t, fs));
        }
        if hit {
            kept.push(t);
        }
        done = done + 1;
        proof {
            let now = all.take(done as int);
            assert(now.drop_last() =~= all.take(done - 1));
            assert(now.last() == all[done - 1]);
            assert(kept@ =~= filtered_tests(now, fs));
        }
    }
    proof {
        assert(all.take(done as int) =~= all);
    }
    *tests = kept;
}

/// What classifying one case reports back.
pub struct PassReport {
    pub verdict: Verdict,
    /// The build step's captured stdout with the run's appended: what is
    /// shown as the case's combined output.
    pub combined_stdout: Vec<u8>,
}

pub struct CompileFailReport {
    pub verdict: Verdict,
    /// The comparator's decision on the build diagnostics, when the build
    /// failed as expected.
    pub resolution: Option<Resolution>,
}

pub struct OutputReport {
    pub verdict: Verdict,
    /// The comparator's decisions on the run's two streams; both are
    /// always attempted once the case was run, and neither cuts the
    /// other short.
    pub stderr_resolution: Option<Resolution>,
    pub stdout_resolution: Option<Resolution>,
}

impl Test {
    /// A case expected to pass: it must build, then run successfully; the
    /// build step's stdout is prepended to the run's so both appear as
    /// one stream.
    pub fn check_pass(&self, build: &CapturedOutput, run: Option<&CapturedOutput>) -> (r:
        PassReport)
        requires
            (run is Some) == build.success,
        ensures
            !build.success ==> r.verdict == Verdict::Failed(Failure::BuildFailed)
                && r.combined_stdout@ == Seq::<u8>::empty(),
            build.success ==> r.combined_stdout@ == build.stdout@ + run->0.stdout@,
            build.success ==> r.verdict == (if run->0.success {
                Verdict::Passed
            } else {
                Verdict::Failed(Failure::RunFailed)
            }),
    {
        match run {
            None => PassReport { verdict: Verdict::Failed(Failure::BuildFailed), combined_stdout: Vec::new() },
            Some(run_output) => {
                let mut combined = dup_bytes(build.stdout.as_slice());
                crate::text::append_bytes(&mut combined, run_output.stdout.as_slice());
                let verdict = if run_output.success {
                    Verdict::Passed
                } else {
                    Verdict::Failed(Failure::RunFailed)
                };
                PassReport { verdict, combined_stdout: combined }
            },
        }
    }

    /// A case expected to fail to compile: succeeding at building fails
    /// it outright, whatever the update mode; failing as expected sends
    /// the normalized build diagnostics through the comparator.
    pub fn check_compile_fail(
        &self,
        project: &Project,
        build: &CapturedOutput,
        stored_stderr: Option<&Vec<u8>>,
    ) -> (r: CompileFailReport)
        ensures
            build.success ==> r.verdict == Verdict::Failed(Failure::UnexpectedSuccess)
                && r.resolution is None,
            !build.success ==> {
                let model = resolve_seq(
                    diagnostics_seq(build.stderr@, self.name@, project.source_dir@),
                    stored_view(stored_stderr),
                    project.update,
                );
                &&& r.resolution is Some
                &&& (r.resolution->0)@ == model
                &&& r.verdict == verdict_of_model(model)
            },
    {
        if build.success {
            CompileFailReport {
                verdict: Verdict::Failed(Failure::UnexpectedSuccess),
                resolution: None,
            }
        } else {
            let variations = diagnostics(build.stderr.as_slice(), self, project);
            let resolution = resolve(&variations, stored_stderr, project.update);
            let verdict = verdict_of(&resolution);
            CompileFailReport { verdict, resolution: Some(resolution) }
        }
    }

    /// A case whose output is checked: it must build and run; the run's
    /// stderr and stdout are each compared with their own stored
    /// expectation, both always attempted, and the case passes only if
    /// the run succeeded and both streams match.
    pub fn check_output(
        &self,
        project: &Project,
        build: &CapturedOutput,
        run: Option<&CapturedOutput>,
        stored_stderr: Option<&Vec<u8>>,
        stored_stdout: Option<&Vec<u8>>,
    ) -> (r: OutputReport)
        requires
            (run is Some) == build.success,
        ensures
            !build.success ==> r.verdict == Verdict::Failed(Failure::BuildFailed)
                && r.stderr_resolution is None && r.stdout_resolution is None,
            build.success ==> {
                let e_model = resolve_seq(
                    diagnostics_seq(run->0.stderr@, self.name@, project.source_dir@),
                    stored_view(stored_stderr),
                    project.update,
                );
                let o_model = resolve_seq(
                    diagnostics_seq(run->0.stdout@, self.name@, project.source_dir@),
                    stored_view(stored_stdout),
                    project.update,
                );
                &&& r.stderr_resolution is Some
                &&& (r.stderr_resolution->0)@ == e_model
                &&& r.stdout_resolution is Some
                &&& (r.stdout_resolution->0)@ == o_model
                &&& r.verdict == (if !run->0.success {
                    Verdict::Failed(Failure::RunFailed)
                } else if verdict_of_model(e_model) != Verdict::Passed {
                    verdict_of_model(e_model)
                } else {
                    verdict_of_model(o_model)
                })
            },
    {
        match run {
            None => OutputReport {
                verdict: Verdict::Failed(Failure::BuildFailed),
                stderr_resolution: None,
                stdout_resolution: None,
            },
            Some(run_output) => {
                let e_vars = diagnostics(run_output.stderr.as_slice(), self, project);
                let e_resolution = resolve(&e_vars, stored_stderr, project.update);
                let e_verdict = verdict_of(&e_resolution);
                let o_vars = diagnostics(run_output.stdout.as_slice(), self, project);
                let o_resolution = resolve(&o_vars, stored_stdout, project.update);
                let o_verdict = verdict_of(&o_resolution);
                let verdict = if !run_output.success {
                    Verdict::Failed(Failure::RunFailed)
                } else if e_verdict != Verdict::Passed {
                    e_verdict
                } else {
                    o_verdict
                };
                OutputReport {
                    verdict,
                    stderr_resolution: Some(e_resolution),
                    stdout_resolution: Some(o_resolution),
                }
            },
        }
    }
}

/// Whether each case's expectation kind is shown beside its name: only
/// when the case set mixes kinds.
pub fn show_expected(project: &Project) -> (r: bool)
    ensures
        r == ((if project.has_pass {
            1int
        } else {
            0int
        }) + (if project.has_compile_fail {
            1int
        } else {
            0int
        }) + (if project.has_output {
            1int
        } else {
            0int
        }) > 1),
{
    let mut n: u8 = 0;
    if project.has_pass {
        n = n + 1;
    }
    if project.has_compile_fail {
        n = n + 1;
    }
    if project.has_output {
        n = n + 1;
    }
    n > 1
}

/// Whether the whole run counts as successful: it does when no case
/// failed.  The one exemption is the harness's own inner project, whose
/// failures are tolerated so that exercising the harness cannot abort
/// the process around it.
pub fn run_ok(failures: usize, project_name: &[u8]) -> (r: bool)
    ensures
        r == (failures == 0 || project_name@ == bytes_of("trybuild-tests"@)),
{
    proof {
        reveal_strlit("trybuild-tests");
    }
    let exempt = str_bytes("trybuild-tests");
    failures == 0 || eq_bytes(project_name, exempt.as_slice())
}

} // verus!
