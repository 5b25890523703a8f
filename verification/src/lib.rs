use vstd::prelude::*;

pub mod cargo;
pub mod compare;
pub mod normalize;
pub mod run;
pub mod store;
pub mod text;

verus! {

/// What a test case is expected to do.
#[derive(Clone, Copy, PartialEq, Eq, Structural, Debug)]
pub enum TestKind {
    Pass,
    CompileFail,
    Output,
}

/// One test case: a unique name, the path of its source file, and the
/// declared expectation.
#[derive(Clone, Debug)]
pub struct Test {
    pub name: Vec<u8>,
    pub path: Vec<u8>,
    pub kind: TestKind,
}

/// One test entry as the contracts see it.
#[verifier::ext_equal]
pub struct TestModel {
    pub name: Seq<u8>,
    pub path: Seq<u8>,
    pub kind: TestKind,
}

impl View for Test {
    type V = TestModel;

    open spec fn view(&self) -> TestModel {
        TestModel { name: self.name@, path: self.path@, kind: self.kind }
    }
}

/// Run-wide policy for resolving a missing or mismatched expectation:
/// stage candidates for review, or write them straight to the
/// expectation file.
#[derive(Clone, Copy, PartialEq, Eq, Structural, Debug)]
pub enum Update {
    Wip,
    Overwrite,
}

/// What one build or run invocation produced: its success flag and the
/// captured streams.
#[derive(Clone, Debug)]
pub struct CapturedOutput {
    pub success: bool,
    pub stdout: Vec<u8>,
    pub stderr: Vec<u8>,
}

/// Why a test case failed.
#[derive(Clone, Copy, PartialEq, Eq, Structural, Debug)]
pub enum Failure {
    /// A case that was expected to build did not.
    BuildFailed,
    /// A case built but exited unsuccessfully.
    RunFailed,
    /// A case that was expected to fail to compile compiled.
    UnexpectedSuccess,
    /// No expectation file existed; a candidate was staged.
    Missing,
    /// The stored expectation matches none of the normalized variations.
    Mismatch,
}

/// The outcome of one test case.
#[derive(Clone, Copy, PartialEq, Eq, Structural, Debug)]
pub enum Verdict {
    Passed,
    Failed(Failure),
}

} // verus!
