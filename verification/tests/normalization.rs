use trybuild::normalize::{apply, diagnostics, trim, Normalization};
use trybuild::cargo::Project;
use trybuild::{Test, TestKind, Update};

fn project(source_dir: &str) -> Project {
    Project {
        dir: b"target/tests/demo".to_vec(),
        source_dir: source_dir.as_bytes().to_vec(),
        target_dir: b"target".to_vec(),
        name: b"demo-tests".to_vec(),
        update: Update::Wip,
        has_pass: false,
        has_compile_fail: true,
        has_output: false,
        features: None,
        workspace: b"/abs".to_vec(),
    }
}

fn case(name: &str, path: &str, kind: TestKind) -> Test {
    Test {
        name: name.as_bytes().to_vec(),
        path: path.as_bytes().to_vec(),
        kind,
    }
}

#[test]
fn normalization() {
    let s = apply(
        "C:\\\\foo\\bar".as_bytes(),
        Normalization::StripCouldNotCompile,
        "C:\\\\foo\\bar".as_bytes(),
    );
    assert_eq!(s, b"$DIR\n".to_vec());
}

#[test]
fn trim_adds_single_trailing_newline() {
    assert_eq!(trim(b"hello  \n\n"), b"hello\n".to_vec());
    assert_eq!(trim(b"hello"), b"hello\n".to_vec());
    assert_eq!(trim(b""), Vec::<u8>::new());
    assert_eq!(trim(b"  \n \n"), Vec::<u8>::new());
}

#[test]
fn trim_is_idempotent() {
    for raw in [
        &b"hello  \n\n"[..],
        &b""[..],
        &b"  \t "[..],
        &[0xFF, 0x20, 0x0A][..],
        &b"a\nb\r\n"[..],
    ] {
        let once = trim(raw);
        let twice = trim(&once);
        assert_eq!(once, twice);
    }
}

#[test]
fn trim_decodes_invalid_bytes_leniently() {
    // a lone 0xFF is not UTF-8; it becomes the replacement character
    assert_eq!(trim(&[0xFF]), vec![0xEF, 0xBF, 0xBD, 0x0A]);
}

#[test]
fn apply_rewrites_source_location_lines() {
    let out = apply(
        b"error[E0308]: mismatched types\n  --> /abs/src/foo.rs:3:5\n",
        Normalization::Basic,
        b"/abs",
    );
    assert_eq!(
        out,
        b"error[E0308]: mismatched types\n  --> $DIR/foo.rs:3:5\n".to_vec()
    );
}

#[test]
fn apply_replaces_source_dir_with_placeholder() {
    let out = apply(
        b"reading /abs/input.txt failed\n",
        Normalization::Basic,
        b"/abs",
    );
    assert_eq!(out, b"reading $DIR/input.txt failed\n".to_vec());
}

#[test]
fn apply_drops_aborting_and_verbose_lines() {
    let out = apply(
        b"error: something\nerror: aborting due to 2 previous errors\nTo learn more, run the command again with --verbose.\n",
        Normalization::Basic,
        b"/abs",
    );
    assert_eq!(out, b"error: something\n".to_vec());
}

#[test]
fn apply_strips_could_not_compile_only_in_preferred_pass() {
    let raw = b"error: oops\nerror: Could not compile `demo`.\n";
    let basic = apply(raw, Normalization::Basic, b"/abs");
    let preferred = apply(raw, Normalization::StripCouldNotCompile, b"/abs");
    assert_eq!(
        basic,
        b"error: oops\nerror: Could not compile `demo`.\n".to_vec()
    );
    assert_eq!(preferred, b"error: oops\n".to_vec());
}

#[test]
fn apply_collapses_blank_lines_and_trailing_space() {
    let out = apply(b"a  \n\n\n\nb\n\n\n", Normalization::Basic, b"/abs");
    assert_eq!(out, b"a\n\nb\n".to_vec());
}

#[test]
fn apply_is_idempotent_on_its_own_output() {
    let raw = b"error[E0308]: mismatched types\n  --> /abs/src/foo.rs:3:5\n   |\nerror: aborting due to 1 previous error\n";
    let once = apply(raw, Normalization::StripCouldNotCompile, b"/abs");
    let twice = apply(&once, Normalization::StripCouldNotCompile, b"/abs");
    assert_eq!(once, twice);
}

#[test]
fn diagnostics_replaces_crate_name_and_collapses_crlf() {
    let test = case("demo-000", "tests/ui/demo.rs", TestKind::CompileFail);
    let p = project("/abs");
    let v = diagnostics(
        b"warning: unused variable in demo-000\r\nnote: see /abs/src/x.rs\r\n",
        &test,
        &p,
    );
    let preferred = v.preferred();
    assert_eq!(
        preferred,
        &b"warning: unused variable in $CRATE\nnote: see $DIR/src/x.rs\n".to_vec()
    );
}

#[test]
fn variations_match_any_pass() {
    let test = case("demo-000", "tests/ui/demo.rs", TestKind::CompileFail);
    let p = project("/abs");
    let v = diagnostics(
        b"error: oops\nerror: Could not compile `demo`.\n",
        &test,
        &p,
    );
    // the basic variation still holds the trailer line; the preferred one
    // does not; both match, anything else does not
    assert!(v.any(b"error: oops\nerror: Could not compile `demo`.\n"));
    assert!(v.any(b"error: oops\n"));
    assert!(!v.any(b"error: oops"));
    assert_eq!(v.preferred(), &b"error: oops\n".to_vec());
}
