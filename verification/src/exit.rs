//! Stable process exit codes and the command failures that carry them.

use vstd::prelude::*;

use crate::domain::FindingStatus;
use crate::engine::ScanResult;
use crate::ioerr::{io_class, io_error_class, io_error_text, IoClass};
use crate::text::push_str;

verus! {

/// A stable process exit code, so automation can branch on the specific outcome.
#[derive(Clone, Copy, Debug, PartialEq, Eq, Structural)]
pub enum ExitKind {
    /// 0: ran cleanly with nothing to flag.
    Success,
    /// 2: completed with advisory issues only.
    SuccessWithWarnings,
    /// 3: a scan ran but some patterns were not found or matched without resolving.
    Unresolved,
    /// 4: a scan ran but at least one pattern matched in several places.
    Ambiguous,
    /// 5: bad flags, bad config, bad or empty patterns, or the target could not be located.
    InvalidInput,
    /// 6: the target process could not be opened.
    AccessDenied,
    /// 1: an unexpected failure.
    Internal,
}

/// The number each exit kind maps to.
pub open spec fn exit_code(k: ExitKind) -> u8 {
    match k {
        ExitKind::Success => 0,
        ExitKind::Internal => 1,
        ExitKind::SuccessWithWarnings => 2,
        ExitKind::Unresolved => 3,
        ExitKind::Ambiguous => 4,
        ExitKind::InvalidInput => 5,
        ExitKind::AccessDenied => 6,
    }
}

impl ExitKind {
    pub fn code(self) -> (r: u8)
        ensures
            r == exit_code(self),
    {
        match self {
            ExitKind::Success => 0,
            ExitKind::Internal => 1,
            ExitKind::SuccessWithWarnings => 2,
            ExitKind::Unresolved => 3,
            ExitKind::Ambiguous => 4,
            ExitKind::InvalidInput => 5,
            ExitKind::AccessDenied => 6,
        }
    }
}

/// Distinct exit kinds have distinct codes.
pub proof fn lemma_exit_codes_distinct(a: ExitKind, b: ExitKind)
    ensures
        exit_code(a) == exit_code(b) ==> a == b,
{
}

/// A command failure carrying both a message and the exit code it maps to.
#[derive(Debug)]
pub struct CliError {
    pub kind: ExitKind,
    pub msg: String,
}

impl CliError {
    pub fn new(kind: ExitKind, msg: String) -> (r: Self)
        ensures
            r.kind == kind,
            r.msg@ == msg@,
    {
        Self { kind, msg }
    }
}

/// A bare string error is an input, config or pattern problem.
impl From<String> for CliError {
    fn from(msg: String) -> (r: Self) {
        CliError { kind: ExitKind::InvalidInput, msg }
    }
}

impl vstd::std_specs::convert::FromSpecImpl<String> for CliError {
    open spec fn obeys_from_spec() -> bool {
        true
    }

    open spec fn from_spec(msg: String) -> Self {
        CliError { kind: ExitKind::InvalidInput, msg }
    }
}

/// The exit code of a failure to attach: a permission failure is access-denied, a missing kernel
/// primitive is internal, anything else means the target specification did not resolve.
pub open spec fn attach_exit_kind(c: IoClass) -> ExitKind {
    match c {
        IoClass::PermissionDenied => ExitKind::AccessDenied,
        IoClass::Unsupported => ExitKind::Internal,
        _ => ExitKind::InvalidInput,
    }
}

pub fn attach_kind(c: IoClass) -> (r: ExitKind)
    ensures
        r == attach_exit_kind(c),
{
    match c {
        IoClass::PermissionDenied => ExitKind::AccessDenied,
        IoClass::Unsupported => ExitKind::Internal,
        _ => ExitKind::InvalidInput,
    }
}

/// Map an attach failure to its exit code, with the error's text after `attach failed: `.
pub fn attach_err(e: std::io::Error) -> (r: CliError)
    ensures
        r.kind == attach_exit_kind(io_error_class(e)),
        exists|t: Seq<char>| r.msg@ == "attach failed: "@ + t,
{
    let kind = attach_kind(io_class(&e));
    let text = io_error_text(&e);
    let mut msg = String::new();
    push_str(&mut msg, "attach failed: ");
    push_str(&mut msg, text.as_str());
    CliError::new(kind, msg)
}

/// The exit code of a failed unpack: a missing file or tool is input the user can fix, a permission
/// failure is access-denied, and anything else means the dump produced nothing usable.
pub open spec fn unpack_exit_kind(c: IoClass) -> ExitKind {
    match c {
        IoClass::NotFound | IoClass::InvalidData | IoClass::InvalidInput => ExitKind::InvalidInput,
        IoClass::PermissionDenied => ExitKind::AccessDenied,
        _ => ExitKind::Unresolved,
    }
}

pub fn unpack_kind(c: IoClass) -> (r: ExitKind)
    ensures
        r == unpack_exit_kind(c),
{
    match c {
        IoClass::NotFound | IoClass::InvalidData | IoClass::InvalidInput => ExitKind::InvalidInput,
        IoClass::PermissionDenied => ExitKind::AccessDenied,
        _ => ExitKind::Unresolved,
    }
}

/// Map an unpack pipeline failure to its exit code, with the error's text after `unpack failed: `.
pub fn unpack_err(e: std::io::Error) -> (r: CliError)
    ensures
        r.kind == unpack_exit_kind(io_error_class(e)),
        exists|t: Seq<char>| r.msg@ == "unpack failed: "@ + t,
{
    let kind = unpack_kind(io_class(&e));
    let text = io_error_text(&e);
    let mut msg = String::new();
    push_str(&mut msg, "unpack failed: ");
    push_str(&mut msg, text.as_str());
    CliError::new(kind, msg)
}

/// The pass or fail mark of a verification gate.
pub fn mark(ok: bool) -> (r: &'static str)
    ensures
        r@ == if ok {
            "PASS"@
        } else {
            "FAIL"@
        },
{
    if ok {
        "PASS"
    } else {
        "FAIL"
    }
}

/// Some row of the scan matched in several places.
pub open spec fn any_ambiguous(rows: Seq<crate::engine::PatternRow>) -> bool {
    exists|i: int| 0 <= i < rows.len() && (#[trigger] rows[i]).status is FoundAmbiguous
}

/// The exit code that summarizes a finished scan: ambiguous beats unresolved beats warnings-only
/// beats clean.
pub open spec fn spec_scan_exit_kind(result: ScanResult) -> ExitKind {
    if any_ambiguous(result.rows@) {
        ExitKind::Ambiguous
    } else if result.matched_unresolved@.len() > 0 || result.not_found@.len() > 0 {
        ExitKind::Unresolved
    } else if result.warnings@.len() > 0 {
        ExitKind::SuccessWithWarnings
    } else {
        ExitKind::Success
    }
}

pub fn scan_exit_kind(result: &ScanResult) -> (r: ExitKind)
    ensures
        r == spec_scan_exit_kind(*result),
{
    let rows = &result.rows;
    let mut i: usize = 0;
    while i < rows.len()
        invariant
            0 <= i <= rows@.len(),
            rows@ == result.rows@,
            forall|j: int| 0 <= j < i ==> !((#[trigger] rows@[j]).status is FoundAmbiguous),
        decreases rows@.len() - i,
    {
        match rows[i].status {
            FindingStatus::FoundAmbiguous { .. } => {
                assert(result.rows@[i as int].status is FoundAmbiguous);
                return ExitKind::Ambiguous;
            },
            _ => {},
        }
        i = i + 1;
    }
    if result.matched_unresolved.len() > 0 || result.not_found.len() > 0 {
        ExitKind::Unresolved
    } else if result.warnings.len() > 0 {
        ExitKind::SuccessWithWarnings
    } else {
        ExitKind::Success
    }
}

/// A lint run warns when some pattern was flagged.
pub fn lint_exit_kind(flagged: usize) -> (r: ExitKind)
    ensures
        r == if flagged > 0 {
            ExitKind::SuccessWithWarnings
        } else {
            ExitKind::Success
        },
{
    if flagged > 0 {
        ExitKind::SuccessWithWarnings
    } else {
        ExitKind::Success
    }
}

/// The message when the unpack verification gates fail.
pub open spec fn gates_failed_text() -> Seq<char> {
    "verification gates failed; no binary was written"@
}

/// How an unpack run ends: failed gates are unresolved (nothing was written); passed gates are a
/// success, with warnings when the verifier raised any.
pub fn unpack_outcome(gates_pass: bool, warnings: usize) -> (r: Result<ExitKind, CliError>)
    ensures
        !gates_pass ==> (r matches Err(e) && e.kind == ExitKind::Unresolved && e.msg@
            == gates_failed_text()),
        gates_pass ==> r == Ok::<ExitKind, CliError>(
            if warnings == 0 {
                ExitKind::Success
            } else {
                ExitKind::SuccessWithWarnings
            },
        ),
{
    if !gates_pass {
        return Err(
            CliError::new(
                ExitKind::Unresolved,
                crate::text::owned("verification gates failed; no binary was written"),
            ),
        );
    }
    if warnings == 0 {
        Ok(ExitKind::Success)
    } else {
        Ok(ExitKind::SuccessWithWarnings)
    }
}

/// How a signature build ends: no safe signature is unresolved; one that also matches unrelated
/// modules is a warning; otherwise a clean success.
pub fn mksig_exit_kind(chosen: bool, negative_hits: usize) -> (r: ExitKind)
    ensures
        r == if !chosen {
            ExitKind::Unresolved
        } else if negative_hits > 0 {
            ExitKind::SuccessWithWarnings
        } else {
            ExitKind::Success
        },
{
    if !chosen {
        ExitKind::Unresolved
    } else if negative_hits > 0 {
        ExitKind::SuccessWithWarnings
    } else {
        ExitKind::Success
    }
}

} // verus!
