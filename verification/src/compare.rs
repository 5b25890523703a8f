//! The golden comparator: given the normalized variations of one capture
//! and the stored expectation (or its absence), decide whether the case
//! matches, and which write - if any - the update policy calls for.
//!
//! The comparator is pure: it decides; the surrounding program reads and
//! writes the expectation files it names.

use vstd::prelude::*;

use crate::normalize::{diagnostics_seq, Variations};
use crate::text::{contains_seq, dup_bytes, lemma_replace_id, replace, replace_seq};
use crate::{Failure, Update, Verdict};

verus! {

/// What the comparator decided, and what must be done about it.
pub enum Resolution {
    /// Some variation equals the stored text (or there was nothing to
    /// check): nothing is written.
    Matched,
    /// No expectation existed: the preferred text goes to the staging
    /// directory for review, and the case fails as missing.
    Staged { content: Vec<u8> },
    /// The expectation file is (over)written with the preferred text, and
    /// the case passes.
    Written { content: Vec<u8> },
    /// The stored expectation differs from every variation: the case
    /// fails, showing expected against actual.
    Mismatched { expected: Vec<u8>, actual: Vec<u8> },
}

/// The comparator's decision over mathematical text.
pub enum ResolutionModel {
    Matched,
    Staged { content: Seq<u8> },
    Written { content: Seq<u8> },
    Mismatched { expected: Seq<u8>, actual: Seq<u8> },
}

impl View for Resolution {
    type V = ResolutionModel;

    open spec fn view(&self) -> ResolutionModel {
        match self {
            Resolution::Matched => ResolutionModel::Matched,
            Resolution::Staged { content } => ResolutionModel::Staged { content: content@ },
            Resolution::Written { content } => ResolutionModel::Written { content: content@ },
            Resolution::Mismatched { expected, actual } => ResolutionModel::Mismatched {
                expected: expected@,
                actual: actual@,
            },
        }
    }
}

/// The stored expectation as text, if a file existed.
pub open spec fn stored_view(stored: Option<&Vec<u8>>) -> Option<Seq<u8>> {
    match stored {
        None => None,
        Some(v) => Some(v@),
    }
}

/// The decision table.  With no stored file: empty preferred output means
/// nothing to check; otherwise the preferred text is staged (conservative
/// mode, case fails) or written (overwrite mode, case passes).  With a
/// stored file: a match against any variation passes; otherwise the
/// mismatch fails (conservative mode) or the file is overwritten
/// (overwrite mode).  Stored text is compared with its line endings
/// collapsed.
pub open spec fn resolve_seq(
    vars: Seq<Seq<u8>>,
    stored: Option<Seq<u8>>,
    mode: Update,
) -> ResolutionModel
    recommends
        vars.len() >= 1,
{
    match stored {
        None => {
            if vars.last().len() == 0 {
                ResolutionModel::Matched
            } else if mode == Update::Wip {
                ResolutionModel::Staged { content: vars.last() }
            } else {
                ResolutionModel::Written { content: vars.last() }
            }
        },
        Some(raw) => {
            let expected = replace_seq(raw, seq![13u8, 10u8], seq![10u8]);
            if vars.contains(expected) {
                ResolutionModel::Matched
            } else if mode == Update::Wip {
                ResolutionModel::Mismatched { expected, actual: vars.last() }
            } else {
                ResolutionModel::Written { content: vars.last() }
            }
        },
    }
}

/// How a decision counts: a match or a write passes; staging fails the
/// case as missing; a mismatch fails it as such.
pub open spec fn verdict_of_model(r: ResolutionModel) -> Verdict {
    match r {
        ResolutionModel::Matched => Verdict::Passed,
        ResolutionModel::Staged { .. } => Verdict::Failed(Failure::Missing),
        ResolutionModel::Written { .. } => Verdict::Passed,
        ResolutionModel::Mismatched { .. } => Verdict::Failed(Failure::Mismatch),
    }
}

/// Decides one stream of one case against its stored expectation.
pub fn resolve(variations: &Variations, stored: Option<&Vec<u8>>, mode: Update) -> (r: Resolution)
    requires
        variations.wf(),
    ensures
        r@ == resolve_seq(variations@, stored_view(stored), mode),
{
    match stored {
        None => {
            let preferred = variations.preferred();
            if preferred.len() == 0 {
                Resolution::Matched
            } else if mode == Update::Wip {
                Resolution::Staged { content: dup_bytes(preferred.as_slice()) }
            } else {
                Resolution::Written { content: dup_bytes(preferred.as_slice()) }
            }
        },
        Some(raw) => {
            let mut crlf: Vec<u8> = Vec::new();
            crlf.push(13u8);
            crlf.push(10u8);
            let mut nl: Vec<u8> = Vec::new();
            nl.push(10u8);
            proof {
                assert(crlf@ =~= seq![13u8, 10u8]);
                assert(nl@ =~= seq![10u8]);
            }
            let expected = replace(raw.as_slice(), crlf.as_slice(), nl.as_slice());
            if variations.any(expected.as_slice()) {
                Resolution::Matched
            } else if mode == Update::Wip {
                let preferred = variations.preferred();
                Resolution::Mismatched {
                    expected,
                    actual: dup_bytes(preferred.as_slice()),
                }
            } else {
                let preferred = variations.preferred();
                Resolution::Written { content: dup_bytes(preferred.as_slice()) }
            }
        },
    }
}

pub fn verdict_of(r: &Resolution) -> (v: Verdict)
    ensures
        v == verdict_of_model(r@),
{
    match r {
        Resolution::Matched => Verdict::Passed,
        Resolution::Staged { .. } => Verdict::Failed(Failure::Missing),
        Resolution::Written { .. } => Verdict::Passed,
        Resolution::Mismatched { .. } => Verdict::Failed(Failure::Mismatch),
    }
}

/// Tolerant match: a stored expectation equal to any one variation - in
/// particular a less aggressively filtered one than the preferred - makes
/// the comparator report a match, under either update mode.
pub proof fn lemma_tolerant_match(vars: Seq<Seq<u8>>, stored: Seq<u8>, i: int, mode: Update)
    requires
        vars.len() >= 1,
        0 <= i < vars.len(),
        stored == vars[i],
        !contains_seq(stored, seq![13u8, 10u8]),
    ensures
        resolve_seq(vars, Some(stored), mode) == ResolutionModel::Matched,
{
    lemma_replace_id(stored, seq![13u8, 10u8], seq![10u8]);
    assert(vars.contains(stored));
}

/// Missing expectation under the conservative mode: nonempty preferred
/// output is staged, word for word, and the case fails as missing.
pub proof fn lemma_missing_staged(vars: Seq<Seq<u8>>)
    requires
        vars.len() >= 1,
        vars.last().len() > 0,
    ensures
        resolve_seq(vars, None, Update::Wip) == (ResolutionModel::Staged {
            content: vars.last(),
        }),
        verdict_of_model(resolve_seq(vars, None, Update::Wip)) == Verdict::Failed(Failure::Missing),
{
}

/// Missing expectation under the overwrite mode: the preferred text is
/// written to the expectation file itself, word for word, and the case
/// passes.
pub proof fn lemma_missing_overwritten(vars: Seq<Seq<u8>>)
    requires
        vars.len() >= 1,
        vars.last().len() > 0,
    ensures
        resolve_seq(vars, None, Update::Overwrite) == (ResolutionModel::Written {
            content: vars.last(),
        }),
        verdict_of_model(resolve_seq(vars, None, Update::Overwrite)) == Verdict::Passed,
{
}

/// The decision wrote a file.
pub open spec fn wrote(r: ResolutionModel) -> bool {
    match r {
        ResolutionModel::Written { .. } => true,
        _ => false,
    }
}

/// The text a writing decision put in the file.
pub open spec fn written_content(r: ResolutionModel) -> Seq<u8> {
    match r {
        ResolutionModel::Written { content } => content,
        _ => Seq::empty(),
    }
}

/// Overwrite mode converges: whatever the first run decided, it passed;
/// and if it wrote the preferred text, a second run over the same output
/// finds the stored file matching and writes nothing further.
pub proof fn lemma_overwrite_converges(vars: Seq<Seq<u8>>, stored: Option<Seq<u8>>)
    requires
        vars.len() >= 1,
        !contains_seq(vars.last(), seq![13u8, 10u8]),
    ensures
        verdict_of_model(resolve_seq(vars, stored, Update::Overwrite)) == Verdict::Passed,
        wrote(resolve_seq(vars, stored, Update::Overwrite)) ==> resolve_seq(
            vars,
            Some(written_content(resolve_seq(vars, stored, Update::Overwrite))),
            Update::Overwrite,
        ) == ResolutionModel::Matched,
{
    let first = resolve_seq(vars, stored, Update::Overwrite);
    if wrote(first) {
        assert(written_content(first) == vars.last());
        lemma_tolerant_match(vars, written_content(first), vars.len() - 1, Update::Overwrite);
    }
}

/// Tolerant match on real normalized output: a stored expectation equal
/// to either variation of a capture - the basic one included, though it
/// differs from the preferred - matches, under either update mode.
pub proof fn lemma_diagnostics_tolerant_match(
    out: Seq<u8>,
    name: Seq<u8>,
    sd: Seq<u8>,
    i: int,
    mode: Update,
)
    requires
        0 <= i < diagnostics_seq(out, name, sd).len(),
    ensures
        resolve_seq(
            diagnostics_seq(out, name, sd),
            Some(diagnostics_seq(out, name, sd)[i]),
            mode,
        ) == ResolutionModel::Matched,
{
    let vars = diagnostics_seq(out, name, sd);
    let t = crate::text::replace_seq(
        crate::text::replace_seq(crate::normalize::lossy_of(out), seq![13u8, 10u8], seq![10u8]),
        name,
        crate::normalize::crate_token(),
    );
    crate::normalize::lemma_apply_no_crlf(t, crate::normalize::Normalization::Basic, sd);
    crate::normalize::lemma_apply_no_crlf(
        t,
        crate::normalize::Normalization::StripCouldNotCompile,
        sd,
    );
    assert(vars.len() == 2);
    if i == 0 {
        assert(vars[0] == crate::normalize::apply_seq(
            t,
            crate::normalize::Normalization::Basic,
            sd,
        ));
    } else {
        assert(vars[1] == crate::normalize::apply_seq(
            t,
            crate::normalize::Normalization::StripCouldNotCompile,
            sd,
        ));
    }
    lemma_tolerant_match(vars, vars[i], i, mode);
}

/// Overwrite mode converges on real normalized output: the first run over
/// some capture passes, and whenever it wrote the preferred text, a
/// second run over the same capture finds the stored file matching and
/// writes nothing further.
pub proof fn lemma_diagnostics_overwrite_converges(
    out: Seq<u8>,
    name: Seq<u8>,
    sd: Seq<u8>,
    stored: Option<Seq<u8>>,
)
    ensures
        verdict_of_model(resolve_seq(diagnostics_seq(out, name, sd), stored, Update::Overwrite))
            == Verdict::Passed,
        wrote(resolve_seq(diagnostics_seq(out, name, sd), stored, Update::Overwrite))
            ==> resolve_seq(
            diagnostics_seq(out, name, sd),
            Some(
                written_content(
                    resolve_seq(diagnostics_seq(out, name, sd), stored, Update::Overwrite),
                ),
            ),
            Update::Overwrite,
        ) == ResolutionModel::Matched,
{
    let vars = diagnostics_seq(out, name, sd);
    let t = crate::text::replace_seq(
        crate::text::replace_seq(crate::normalize::lossy_of(out), seq![13u8, 10u8], seq![10u8]),
        name,
        crate::normalize::crate_token(),
    );
    assert(vars.last() == crate::normalize::apply_seq(
        t,
        crate::normalize::Normalization::StripCouldNotCompile,
        sd,
    ));
    crate::normalize::lemma_apply_no_crlf(
        t,
        crate::normalize::Normalization::StripCouldNotCompile,
        sd,
    );
    lemma_overwrite_converges(vars, stored);
}

} // verus!
