//! The synthetic project that the external build tool works in: its
//! directories, name, and per-run settings, assembled from plain values.
//!
//! Invoking the build tool itself, and generating its manifest files, is
//! left to the surrounding program; everything here is pure data
//! preparation with an exact contract.

use vstd::prelude::*;

use crate::text::{append_bytes, bytes_of, dup_bytes, str_bytes};
use crate::{Test, TestKind, Update};

verus! {

/// The synthetic project a run builds its test cases in.
pub struct Project {
    pub dir: Vec<u8>,
    pub source_dir: Vec<u8>,
    pub target_dir: Vec<u8>,
    pub name: Vec<u8>,
    pub update: Update,
    pub has_pass: bool,
    pub has_compile_fail: bool,
    pub has_output: bool,
    pub features: Option<Vec<Vec<u8>>>,
    pub workspace: Vec<u8>,
}

/// What the build tool reports about the enclosing workspace.
pub struct Metadata {
    pub target_directory: Vec<u8>,
    pub workspace_root: Vec<u8>,
}

/// Some test in the list declares the given expectation.
pub open spec fn has_kind(tests: Seq<Test>, k: TestKind) -> bool {
    exists|i: int| 0 <= i < tests.len() && tests[i].kind == k
}

/// Assembles the project value for one run: the directory the cases are
/// built in, the `<crate>-tests` project name, and which expectation
/// kinds occur among the cases.
pub fn prepare_project(
    crate_name: &[u8],
    metadata: &Metadata,
    source_dir: &[u8],
    update: Update,
    features: Option<Vec<Vec<u8>>>,
    tests: &Vec<Test>,
) -> (p: Project)
    ensures
        p.dir@ == metadata.target_directory@ + bytes_of("/tests/"@) + crate_name@,
        p.source_dir@ == source_dir@,
        p.target_dir@ == metadata.target_directory@,
        p.name@ == crate_name@ + bytes_of("-tests"@),
        p.update == update,
        p.has_pass == has_kind(tests@, TestKind::Pass),
        p.has_compile_fail == has_kind(tests@, TestKind::CompileFail),
        p.has_output == has_kind(tests@, TestKind::Output),
        p.features == features,
        p.workspace@ == metadata.workspace_root@,
{
    let mut has_pass = false;
    let mut has_compile_fail = false;
    let mut has_output = false;
    let mut i: usize = 0;
    while i < tests.len()
        invariant
            i <= tests@.len(),
            has_pass == has_kind(tests@.take(i as int), TestKind::Pass),
            has_compile_fail == has_kind(tests@.take(i as int), TestKind::CompileFail),
            has_output == has_kind(tests@.take(i as int), TestKind::Output),
        decreases tests@.len() - i,
    {
        let ghost before = tests@.take(i as int);
        match tests[i].kind {
            TestKind::Pass => {
                has_pass = true;
            },
            TestKind::CompileFail => {
                has_compile_fail = true;
            },
            TestKind::Output => {
                has_output = true;
            },
        }
        i = i + 1;
        proof {
            let now = tests@.take(i as int);
            assert(now.drop_last() =~= before);
            assert(now.last() == tests@[i - 1]);
            assert forall|k: TestKind| has_kind(now, k) implies has_kind(before, k) || tests@[i
                - 1].kind == k by {
                let j = choose|j: int| 0 <= j < now.len() && now[j].kind == k;
                if j < now.len() - 1 {
                    assert(before[j].kind == k);
                }
            }
            assert forall|k: TestKind|
                has_kind(before, k) || tests@[i - 1].kind == k implies has_kind(now, k) by {
                if has_kind(before, k) {
                    let j = choose|j: int| 0 <= j < before.len() && before[j].kind == k;
                    assert(now[j].kind == k);
                } else {
                    assert(now[i - 1].kind == k);
                }
            }
        }
    }
    proof {
        assert(tests@.take(tests@.len() as int) =~= tests@);
    }
    let mut dir = dup_bytes(metadata.target_directory.as_slice());
    proof {
        reveal_strlit("/tests/");
    }
    let sep = str_bytes("/tests/");
    append_bytes(&mut dir, sep.as_slice());
    append_bytes(&mut dir, crate_name);
    let mut name = dup_bytes(crate_name);
    proof {
        reveal_strlit("-tests");
    }
    let suffix = str_bytes("-tests");
    append_bytes(&mut name, suffix.as_slice());
    Project {
        dir,
        source_dir: dup_bytes(source_dir),
        target_dir: dup_bytes(metadata.target_directory.as_slice()),
        name,
        update,
        has_pass,
        has_compile_fail,
        has_output,
        features,
        workspace: dup_bytes(metadata.workspace_root.as_slice()),
    }
}

/// The feature list narrowed to the declared ones, in order.
pub open spec fn retained_features(fs: Seq<Seq<u8>>, known: Seq<Seq<u8>>) -> Seq<Seq<u8>>
    decreases fs.len(),
{
    if fs.len() == 0 {
        Seq::empty()
    } else {
        let r = retained_features(fs.drop_last(), known);
        if known.contains(fs.last()) {
            r.push(fs.last())
        } else {
            r
        }
    }
}

/// Keeps only the features that the generated manifest declares: anything
/// else would not name a feature of the synthetic project and the build
/// tool would refuse it.
pub fn retain_known_features(features: &mut Vec<Vec<u8>>, known: &Vec<Vec<u8>>)
    ensures
        final(features).deep_view() == retained_features(
            old(features).deep_view(),
            known.deep_view(),
        ),
{
    let ghost all = features.deep_view();
    let total = features.len();
    let mut kept: Vec<Vec<u8>> = Vec::new();
    let mut done: usize = 0;
    proof {
        assert(all.take(0) =~~= Seq::<Seq<u8>>::empty());
        assert(kept.deep_view() =~~= retained_features(all.take(0), known.deep_view()));
    }
    while features.len() > 0
        invariant
            all.len() == total,
            done <= all.len(),
            features.deep_view() =~~= all.skip(done as int),
            kept.deep_view() == retained_features(all.take(done as int), known.deep_view()),
        decreases features@.len(),
    {
        let ghost before = kept.deep_view();
        let ghost remv = features@;
        let ghost rem = features.deep_view();
        let f = features.remove(0);
        proof {
            assert(f == remv[0]);
            rem.remove_ensures(0);
            remv.remove_ensures(0);
            assert(features.deep_view() =~~= rem.remove(0)) by {
                assert forall|m: int|
                    0 <= m < features.deep_view().len() implies features.deep_view()[m]
                    == rem.remove(0)[m] by {
                    assert(features@[m] == remv.remove(0)[m]);
                    assert(remv.remove(0)[m] == remv[m + 1]);
                    assert(rem.remove(0)[m] == rem[m + 1]);
                    assert(rem[m + 1] == remv[m + 1].deep_view());
                }
            }
            assert(rem.remove(0) =~~= all.skip(done + 1)) by {
                assert(rem =~~= all.skip(done as int));
                assert forall|m: int| 0 <= m < rem.remove(0).len() implies rem.remove(0)[m]
                    == all.skip(done + 1)[m] by {
                    assert(rem.remove(0)[m] == rem[m + 1]);
                    assert(all.skip(done + 1)[m] == all[done + 1 + m]);
                    assert(rem[m + 1] == all.skip(done as int)[m + 1]);
                }
            }
        }
        let mut hit = false;
        let mut j: usize = 0;
        while j < known.len()
            invariant
                j <= known@.len(),
                hit == exists|k: int| 0 <= k < j && known.deep_view()[k] == f@,
            decreases known@.len() - j,
        {
            proof {
                assert(known.deep_view()[j as int] =~= known@[j as int]@);
            }
            if crate::text::eq_bytes(known[j].as_slice(), f.as_slice()) {
                hit = true;
            }
            j = j + 1;
        }
        proof {
            assert(f@ =~= all[done as int]) by {
                assert(rem[0] == remv[0].deep_view());
                assert(rem[0] == all.skip(done as int)[0]);
            }
            assert(hit == known.deep_view().contains(all[done as int])) by {
                if hit {
                    let k = choose|k: int| 0 <= k < known@.len() && known.deep_view()[k] == f@;
                    assert(known.deep_view()[k] == all[done as int]);
                }
                let cur = all[done as int];
                if known.deep_view().contains(cur) {
                    let k = choose|k: int|
                        0 <= k < known.deep_view().len() && known.deep_view()[k] == cur;
                    assert(known.deep_view()[k] == f@);
                }
            }
        }
        if hit {
            kept.push(f);
        }
        done = done + 1;
        proof {
            let now = all.take(done as int);
            assert(now.drop_last() =~~= all.take(done - 1));
            assert(now.last() == all[done - 1]);
            if hit {
                assert(kept.deep_view() =~~= before.push(all[done - 1]));
            }
            assert(kept.deep_view() =~~= retained_features(now, known.deep_view()));
        }
    }
    proof {
        assert(all.take(done as int) =~~= all);
    }
    *features = kept;
}

/// The feature list joined with commas, as it is passed to the build tool.
pub open spec fn join_comma(fs: Seq<Seq<u8>>) -> Seq<u8>
    decreases fs.len(),
{
    if fs.len() == 0 {
        Seq::empty()
    } else if fs.len() == 1 {
        fs[0]
    } else {
        join_comma(fs.drop_last()) + seq![44u8] + fs.last()
    }
}

/// The extra command-line arguments that select the project's features:
/// nothing when no explicit feature set was found, otherwise default
/// features off and the found set on.
pub fn features(project: &Project) -> (r: Vec<Vec<u8>>)
    ensures
        match project.features {
            None => r.deep_view() == Seq::<Seq<u8>>::empty(),
            Some(fs) => r.deep_view() == seq![
                bytes_of("--no-default-features"@),
                bytes_of("--features"@),
                join_comma(fs.deep_view()),
            ],
        },
{
    match &project.features {
        None => {
            let r: Vec<Vec<u8>> = Vec::new();
            proof {
                assert(r.deep_view() =~= Seq::<Seq<u8>>::empty());
            }
            r
        },
        Some(fs) => {
            proof {
                reveal_strlit("--no-default-features");
                reveal_strlit("--features");
            }
            let mut joined: Vec<u8> = Vec::new();
            let mut i: usize = 0;
            while i < fs.len()
        invariant
            i <= fs@.len(),
            joined@ == join_comma(fs.deep_view().take(i as int)),
        decreases fs@.len() - i,
            {
                let ghost before = fs.deep_view().take(i as int);
                if i > 0 {
                    joined.push(44u8);
                }
                append_bytes(&mut joined, fs[i].as_slice());
                i = i + 1;
                proof {
                    let now = fs.deep_view().take(i as int);
                    assert(now.drop_last() =~= before);
                    assert(fs.deep_view()[i - 1] =~= fs@[i - 1]@);
                    assert(now.last() == fs.deep_view()[i - 1]);
                    if i == 1 {
                        assert(join_comma(now) == now[0]);
                        assert(joined@ =~= now[0]);
                    } else {
                        assert(join_comma(now) == join_comma(before) + seq![44u8] + now.last());
                        assert(joined@ =~= join_comma(before) + seq![44u8] + now.last());
                    }
                }
            }
            proof {
                assert(fs.deep_view().take(fs@.len() as int) =~= fs.deep_view());
            }
            let mut r: Vec<Vec<u8>> = Vec::new();
            r.push(str_bytes("--no-default-features"));
            r.push(str_bytes("--features"));
            r.push(joined);
            proof {
                assert(r.deep_view() =~~= seq![
                    bytes_of("--no-default-features"@),
                    bytes_of("--features"@),
                    join_comma(fs.deep_view()),
                ]);
            }
            r
        },
    }
}

} // verus!
