use trybuild::cargo::{features, prepare_project, retain_known_features, Metadata, Project};
use trybuild::compare::{resolve, verdict_of, Resolution};
use trybuild::normalize::diagnostics;
use trybuild::run::{expand_globs, filter, gen_expanded_name, parse_filters, run_ok, show_expected};
use trybuild::store::{with_extension, wip_path_for};
use trybuild::{CapturedOutput, Failure, Test, TestKind, Update, Verdict};

fn project(update: Update) -> Project {
    Project {
        dir: b"target/tests/demo".to_vec(),
        source_dir: b"/abs".to_vec(),
        target_dir: b"target".to_vec(),
        name: b"demo-tests".to_vec(),
        update,
        has_pass: true,
        has_compile_fail: true,
        has_output: false,
        features: None,
        workspace: b"/abs".to_vec(),
    }
}

fn case(name: &str, path: &str, kind: TestKind) -> Test {
    Test {
        name: name.as_bytes().to_vec(),
        path: path.as_bytes().to_vec(),
        kind,
    }
}

fn captured(success: bool, stdout: &[u8], stderr: &[u8]) -> CapturedOutput {
    CapturedOutput {
        success,
        stdout: stdout.to_vec(),
        stderr: stderr.to_vec(),
    }
}

#[test]
fn missing_expectation_is_staged_in_wip_mode() {
    let test = case("foo", "tests/ui/foo.rs", TestKind::CompileFail);
    let p = project(Update::Wip);
    let v = diagnostics(b"error: bad\n", &test, &p);
    let r = resolve(&v, None, Update::Wip);
    assert_eq!(verdict_of(&r), Verdict::Failed(Failure::Missing));
    match r {
        Resolution::Staged { content } => assert_eq!(content, b"error: bad\n".to_vec()),
        _ => panic!("expected a staged candidate"),
    }
}

#[test]
fn missing_expectation_is_written_in_overwrite_mode() {
    let test = case("foo", "tests/ui/foo.rs", TestKind::CompileFail);
    let p = project(Update::Overwrite);
    let v = diagnostics(b"error: bad\n", &test, &p);
    let r = resolve(&v, None, Update::Overwrite);
    assert_eq!(verdict_of(&r), Verdict::Passed);
    match r {
        Resolution::Written { content } => assert_eq!(content, b"error: bad\n".to_vec()),
        _ => panic!("expected a written expectation"),
    }
}

#[test]
fn missing_expectation_with_empty_output_passes() {
    let test = case("foo", "tests/ui/foo.rs", TestKind::CompileFail);
    let p = project(Update::Wip);
    let v = diagnostics(b"", &test, &p);
    let r = resolve(&v, None, Update::Wip);
    assert!(matches!(r, Resolution::Matched));
}

#[test]
fn tolerant_match_accepts_basic_variation() {
    let test = case("foo", "tests/ui/foo.rs", TestKind::CompileFail);
    let p = project(Update::Wip);
    let v = diagnostics(b"error: oops\nerror: Could not compile `demo`.\n", &test, &p);
    // the stored file equals the basic (less filtered) variation, not the
    // preferred one, and still matches
    let stored = b"error: oops\nerror: Could not compile `demo`.\n".to_vec();
    assert_ne!(v.preferred(), &stored);
    let r = resolve(&v, Some(&stored), Update::Wip);
    assert!(matches!(r, Resolution::Matched));
}

#[test]
fn stored_crlf_line_endings_still_match() {
    let test = case("foo", "tests/ui/foo.rs", TestKind::CompileFail);
    let p = project(Update::Wip);
    let v = diagnostics(b"error: oops\n", &test, &p);
    let stored = b"error: oops\r\n".to_vec();
    let r = resolve(&v, Some(&stored), Update::Wip);
    assert!(matches!(r, Resolution::Matched));
}

#[test]
fn mismatch_fails_in_wip_mode() {
    let test = case("foo", "tests/ui/foo.rs", TestKind::CompileFail);
    let p = project(Update::Wip);
    let v = diagnostics(b"error: actual\n", &test, &p);
    let stored = b"error: expected\n".to_vec();
    let r = resolve(&v, Some(&stored), Update::Wip);
    assert_eq!(verdict_of(&r), Verdict::Failed(Failure::Mismatch));
    match r {
        Resolution::Mismatched { expected, actual } => {
            assert_eq!(expected, b"error: expected\n".to_vec());
            assert_eq!(actual, b"error: actual\n".to_vec());
        }
        _ => panic!("expected a mismatch"),
    }
}

#[test]
fn mismatch_overwrite_converges_on_second_run() {
    let test = case("foo", "tests/ui/foo.rs", TestKind::CompileFail);
    let p = project(Update::Overwrite);
    let v = diagnostics(b"error: actual\n", &test, &p);
    let stored = b"error: expected\n".to_vec();
    let first = resolve(&v, Some(&stored), Update::Overwrite);
    assert_eq!(verdict_of(&first), Verdict::Passed);
    let written = match first {
        Resolution::Written { content } => content,
        _ => panic!("expected an overwrite"),
    };
    assert_eq!(written, b"error: actual\n".to_vec());
    // the second run finds the stored text matching and writes nothing
    let second = resolve(&v, Some(&written), Update::Overwrite);
    assert!(matches!(second, Resolution::Matched));
}

#[test]
fn scenario_compile_fail_missing_expectation() {
    // case foo.rs expects CompileFail; the build fails with an absolute
    // path in its stderr; no expectation is stored; conservative mode
    let test = case("foo-000", "tests/ui/foo.rs", TestKind::CompileFail);
    let p = project(Update::Wip);
    let build = captured(
        false,
        b"",
        b"error[E0308]: mismatched types\n --> /abs/src/foo.rs:3:5\n...\n",
    );
    let report = test.check_compile_fail(&p, &build, None);
    assert_eq!(report.verdict, Verdict::Failed(Failure::Missing));
    let staged = match report.resolution {
        Some(Resolution::Staged { content }) => content,
        _ => panic!("expected a staged candidate"),
    };
    let prefix = b"error[E0308]: mismatched types\n --> $DIR/foo.rs:3:5";
    assert_eq!(&staged[..prefix.len()], &prefix[..]);
}

#[test]
fn scenario_pass_combines_build_and_run_stdout() {
    // case bar.rs expects Pass; the build succeeds with no stderr; the run
    // succeeds with stdout "ok\n"
    let test = case("bar", "tests/ui/bar.rs", TestKind::Pass);
    let build = captured(true, b"", b"");
    let run = captured(true, b"ok\n", b"");
    let report = test.check_pass(&build, Some(&run));
    assert_eq!(report.verdict, Verdict::Passed);
    assert_eq!(report.combined_stdout, b"ok\n".to_vec());
}

#[test]
fn scenario_unexpected_success_in_both_modes() {
    // case baz.rs expects CompileFail but builds; the verdict does not
    // depend on the update mode
    let test = case("baz", "tests/ui/baz.rs", TestKind::CompileFail);
    let build = captured(true, b"", b"");
    for update in [Update::Wip, Update::Overwrite] {
        let p = project(update);
        let report = test.check_compile_fail(&p, &build, None);
        assert_eq!(report.verdict, Verdict::Failed(Failure::UnexpectedSuccess));
        assert!(report.resolution.is_none());
    }
}

#[test]
fn failed_build_of_pass_case() {
    let test = case("bar", "tests/ui/bar.rs", TestKind::Pass);
    let build = captured(false, b"", b"error: no\n");
    let report = test.check_pass(&build, None);
    assert_eq!(report.verdict, Verdict::Failed(Failure::BuildFailed));
}

#[test]
fn failed_run_of_pass_case() {
    let test = case("bar", "tests/ui/bar.rs", TestKind::Pass);
    let build = captured(true, b"building\n", b"");
    let run = captured(false, b"boom\n", b"");
    let report = test.check_pass(&build, Some(&run));
    assert_eq!(report.verdict, Verdict::Failed(Failure::RunFailed));
    assert_eq!(report.combined_stdout, b"building\nboom\n".to_vec());
}

#[test]
fn output_case_checks_both_streams() {
    let test = case("qux", "tests/ui/qux.rs", TestKind::Output);
    let p = project(Update::Wip);
    let build = captured(true, b"", b"");
    let run = captured(true, b"out\n", b"err\n");
    let stored_err = b"err\n".to_vec();
    let stored_out = b"wrong\n".to_vec();
    let report = test.check_output(&p, &build, Some(&run), Some(&stored_err), Some(&stored_out));
    assert_eq!(report.verdict, Verdict::Failed(Failure::Mismatch));
    assert!(matches!(
        report.stderr_resolution,
        Some(Resolution::Matched)
    ));
    assert!(matches!(
        report.stdout_resolution,
        Some(Resolution::Mismatched { .. })
    ));
}

#[test]
fn expectation_paths_swap_the_extension() {
    assert_eq!(
        with_extension(b"tests/ui/foo.rs", b"stderr"),
        b"tests/ui/foo.stderr".to_vec()
    );
    assert_eq!(
        with_extension(b"tests/ui/noext", b"stderr"),
        b"tests/ui/noext.stderr".to_vec()
    );
    assert_eq!(
        with_extension(b"dir.d/file.tar.gz", b"stdout"),
        b"dir.d/file.tar.stdout".to_vec()
    );
}

#[test]
fn staging_path_keeps_only_the_base_name() {
    assert_eq!(
        wip_path_for(b"tests/ui/foo.stderr"),
        b"wip/foo.stderr".to_vec()
    );
    assert_eq!(
        wip_path_for(b"deep/nested/dir/bar.stdout"),
        b"wip/bar.stdout".to_vec()
    );
}

#[test]
fn glob_expansion_numbers_cases() {
    let tests = vec![case("ui", "src/li*.rs", TestKind::Pass)];
    let (expanded, bad) = expand_globs(&tests);
    assert!(bad.is_empty());
    assert_eq!(expanded.len(), 1);
    assert_eq!(expanded[0].path, b"src/lib.rs".to_vec());
    assert_eq!(expanded[0].name, b"ui-000".to_vec());
    assert_eq!(expanded[0].kind, TestKind::Pass);
}

#[test]
fn glob_expansion_sorts_matches() {
    let tests = vec![case("ui", "src/c*.rs", TestKind::Pass)];
    let (expanded, bad) = expand_globs(&tests);
    assert!(bad.is_empty());
    assert_eq!(expanded.len(), 2);
    assert_eq!(expanded[0].path, b"src/cargo.rs".to_vec());
    assert_eq!(expanded[1].path, b"src/compare.rs".to_vec());
    assert_eq!(expanded[0].name, b"ui-000".to_vec());
    assert_eq!(expanded[1].name, b"ui-001".to_vec());
}

#[test]
fn plain_paths_pass_through_expansion() {
    let tests = vec![
        case("a", "tests/ui/a.rs", TestKind::Pass),
        case("b", "tests/ui/b.rs", TestKind::CompileFail),
    ];
    let (expanded, bad) = expand_globs(&tests);
    assert!(bad.is_empty());
    assert_eq!(expanded.len(), 2);
    assert_eq!(expanded[0].name, b"a".to_vec());
    assert_eq!(expanded[1].name, b"b".to_vec());
}

#[test]
fn generated_names_are_zero_padded_and_unique() {
    assert_eq!(gen_expanded_name(b"ui", 0), b"ui-000".to_vec());
    assert_eq!(gen_expanded_name(b"ui", 7), b"ui-007".to_vec());
    assert_eq!(gen_expanded_name(b"ui", 42), b"ui-042".to_vec());
    assert_eq!(gen_expanded_name(b"ui", 999), b"ui-999".to_vec());
    assert_eq!(gen_expanded_name(b"ui", 1234), b"ui-1234".to_vec());
}

#[test]
fn name_filters_keep_matching_paths() {
    let args = vec![
        b"testbinary".to_vec(),
        b"trybuild=foo".to_vec(),
        b"trybuild=".to_vec(),
        b"other".to_vec(),
    ];
    let filters = parse_filters(&args);
    assert_eq!(filters, vec![b"foo".to_vec()]);

    let mut tests = vec![
        case("a", "tests/ui/foo.rs", TestKind::Pass),
        case("b", "tests/ui/bar.rs", TestKind::Pass),
    ];
    filter(&mut tests, &filters);
    assert_eq!(tests.len(), 1);
    assert_eq!(tests[0].path, b"tests/ui/foo.rs".to_vec());

    let mut tests2 = vec![case("a", "tests/ui/foo.rs", TestKind::Pass)];
    filter(&mut tests2, &Vec::new());
    assert_eq!(tests2.len(), 1);
}

#[test]
fn project_preparation_collects_kinds_and_names() {
    let metadata = Metadata {
        target_directory: b"/abs/target".to_vec(),
        workspace_root: b"/abs".to_vec(),
    };
    let tests = vec![
        case("a", "tests/ui/a.rs", TestKind::Pass),
        case("b", "tests/ui/b.rs", TestKind::CompileFail),
    ];
    let p = prepare_project(b"demo", &metadata, b"/abs", Update::Wip, None, &tests);
    assert_eq!(p.dir, b"/abs/target/tests/demo".to_vec());
    assert_eq!(p.name, b"demo-tests".to_vec());
    assert!(p.has_pass);
    assert!(p.has_compile_fail);
    assert!(!p.has_output);
    assert!(show_expected(&p));
}

#[test]
fn feature_arguments() {
    let mut p = project(Update::Wip);
    assert!(features(&p).is_empty());
    p.features = Some(vec![b"alpha".to_vec(), b"beta".to_vec()]);
    assert_eq!(
        features(&p),
        vec![
            b"--no-default-features".to_vec(),
            b"--features".to_vec(),
            b"alpha,beta".to_vec(),
        ]
    );
}

#[test]
fn mixed_list_keeps_order_and_numbers_across_entries() {
    // a star-free entry, a pattern, then another star-free entry: the
    // relative order is kept and the expansion is numbered from the
    // count of entries already expanded
    let tests = vec![
        case("a", "tests/ui/a.rs", TestKind::Pass),
        case("ui", "src/li*.rs", TestKind::CompileFail),
        case("b", "tests/ui/b.rs", TestKind::Pass),
    ];
    let (expanded, bad) = expand_globs(&tests);
    assert!(bad.is_empty());
    assert_eq!(expanded.len(), 3);
    assert_eq!(expanded[0].name, b"a".to_vec());
    assert_eq!(expanded[0].path, b"tests/ui/a.rs".to_vec());
    assert_eq!(expanded[1].name, b"ui-001".to_vec());
    assert_eq!(expanded[1].path, b"src/lib.rs".to_vec());
    assert_eq!(expanded[1].kind, TestKind::CompileFail);
    assert_eq!(expanded[2].name, b"b".to_vec());
    assert_eq!(expanded[2].path, b"tests/ui/b.rs".to_vec());
}

#[test]
fn malformed_pattern_lands_in_bad_tests() {
    // an unclosed character class cannot be compiled; the entry lands in
    // the bad list with its error, and the remaining entries still run
    let tests = vec![
        case("broken", "src/[*.rs", TestKind::Pass),
        case("a", "tests/ui/a.rs", TestKind::Pass),
    ];
    let (expanded, bad) = expand_globs(&tests);
    assert_eq!(expanded.len(), 1);
    assert_eq!(expanded[0].name, b"a".to_vec());
    assert_eq!(bad.len(), 1);
    assert_eq!(bad[0].0.name, b"broken".to_vec());
    assert!(!bad[0].1.is_empty());
}

#[test]
fn unknown_features_are_dropped() {
    let mut enabled = vec![b"alpha".to_vec(), b"beta".to_vec(), b"gamma".to_vec()];
    let known = vec![b"gamma".to_vec(), b"alpha".to_vec()];
    retain_known_features(&mut enabled, &known);
    assert_eq!(enabled, vec![b"alpha".to_vec(), b"gamma".to_vec()]);

    let mut none_known = vec![b"delta".to_vec()];
    retain_known_features(&mut none_known, &Vec::new());
    assert!(none_known.is_empty());
}

#[test]
fn run_verdict_with_self_test_exemption() {
    assert!(run_ok(0, b"demo-tests"));
    assert!(!run_ok(2, b"demo-tests"));
    assert!(run_ok(2, b"trybuild-tests"));
}
