//! Typed vocabulary for the scan and resolve pipeline: section kinds, failure reasons, the status of
//! one pattern's outcome, and the checked conversion from an absolute address to a module RVA.

use vstd::prelude::*;

verus! {

#[derive(Debug, Clone, Copy, PartialEq, Eq)]
pub enum SectionKind {
    Code,
    Data,
    ReadOnly,
    Import,
    Unknown,
}

/// Why a pattern did not produce a trustworthy result.
#[derive(Debug, Clone, Copy, PartialEq, Eq, Structural)]
pub enum FailureReason {
    Unresolved,
    OutOfModule,
    OutOfExpectedSection,
    SignatureTooWeak,
    SignatureMalformed,
    PartialRead,
    AccessDenied,
    ModuleNotLoaded,
    ArchMismatch,
    NoReadableRegions,
}

/// The stable, human-readable label of each failure reason.
pub open spec fn failure_label(r: FailureReason) -> Seq<char> {
    match r {
        FailureReason::Unresolved => "unresolved"@,
        FailureReason::OutOfModule => "out of module"@,
        FailureReason::OutOfExpectedSection => "out of expected section"@,
        FailureReason::SignatureTooWeak => "signature too weak"@,
        FailureReason::SignatureMalformed => "signature malformed"@,
        FailureReason::PartialRead => "partial read"@,
        FailureReason::AccessDenied => "access denied"@,
        FailureReason::ModuleNotLoaded => "module not loaded"@,
        FailureReason::ArchMismatch => "architecture mismatch"@,
        FailureReason::NoReadableRegions => "no readable regions"@,
    }
}

impl FailureReason {
    pub fn label(&self) -> (r: &'static str)
        ensures
            r@ == failure_label(*self),
    {
        match self {
            FailureReason::Unresolved => "unresolved",
            FailureReason::OutOfModule => "out of module",
            FailureReason::OutOfExpectedSection => "out of expected section",
            FailureReason::SignatureTooWeak => "signature too weak",
            FailureReason::SignatureMalformed => "signature malformed",
            FailureReason::PartialRead => "partial read",
            FailureReason::AccessDenied => "access denied",
            FailureReason::ModuleNotLoaded => "module not loaded",
            FailureReason::ArchMismatch => "architecture mismatch",
            FailureReason::NoReadableRegions => "no readable regions",
        }
    }
}

/// Outcome of resolving one pattern, with ambiguity and failure made explicit.
#[derive(Debug, Clone, Copy, PartialEq, Eq, Structural)]
pub enum FindingStatus {
    FoundUnique,
    FoundAmbiguous { candidates: usize },
    NotFound,
    Failed(FailureReason),
}

/// The stable label of each status.
pub open spec fn status_label(s: FindingStatus) -> Seq<char> {
    match s {
        FindingStatus::FoundUnique => "found"@,
        FindingStatus::FoundAmbiguous { .. } => "found (ambiguous)"@,
        FindingStatus::NotFound => "not found"@,
        FindingStatus::Failed(reason) => failure_label(reason),
    }
}

/// Any resolved match, unique or ambiguous.
pub open spec fn spec_is_found(s: FindingStatus) -> bool {
    s is FoundUnique || s is FoundAmbiguous
}

/// Only a single, unambiguous match is safe to emit as an offset.
pub open spec fn spec_is_exportable(s: FindingStatus) -> bool {
    s is FoundUnique
}

impl FindingStatus {
    pub fn label(&self) -> (r: &'static str)
        ensures
            r@ == status_label(*self),
    {
        match self {
            FindingStatus::FoundUnique => "found",
            FindingStatus::FoundAmbiguous { .. } => "found (ambiguous)",
            FindingStatus::NotFound => "not found",
            FindingStatus::Failed(reason) => reason.label(),
        }
    }

    /// True for any resolved match, including an ambiguous one; not export-safe.
    pub fn is_found(&self) -> (r: bool)
        ensures
            r == spec_is_found(*self),
    {
        match self {
            FindingStatus::FoundUnique => true,
            FindingStatus::FoundAmbiguous { .. } => true,
            _ => false,
        }
    }

    /// True only for a single, unambiguous match.
    pub fn is_unique_found(&self) -> (r: bool)
        ensures
            r == (*self is FoundUnique),
    {
        match self {
            FindingStatus::FoundUnique => true,
            _ => false,
        }
    }

    /// Whether this result is safe to emit as a normal offset.
    pub fn is_exportable(&self) -> (r: bool)
        ensures
            r == spec_is_exportable(*self),
    {
        self.is_unique_found()
    }
}

/// An exportable status is always a found status, and an ambiguous one is never exportable.
pub proof fn lemma_exportable_implies_found(s: FindingStatus)
    ensures
        spec_is_exportable(s) ==> spec_is_found(s),
        s is FoundAmbiguous ==> spec_is_found(s) && !spec_is_exportable(s),
{
}

/// The module-relative address of `addr` within `[base, base + size)`, or `None` when it lies
/// outside; a `size` of zero leaves the upper end unchecked.
pub open spec fn spec_checked_rva(addr: int, base: int, size: int) -> Option<int> {
    if addr < base {
        None
    } else if size != 0 && addr - base >= size {
        None
    } else {
        Some(addr - base)
    }
}

/// Module-relative address of `addr` within `[base, base + size)`; an address before the module or
/// past its end is rejected instead of wrapping into a huge RVA.
pub fn checked_rva(addr: usize, base: usize, size: usize) -> (r: Result<u64, FailureReason>)
    ensures
        match spec_checked_rva(addr as int, base as int, size as int) {
            Some(rva) => r == Ok::<u64, FailureReason>(rva as u64),
            None => r == Err::<u64, FailureReason>(FailureReason::OutOfModule),
        },
{
    if addr < base {
        return Err(FailureReason::OutOfModule);
    }
    let rva = addr - base;
    if size != 0 && rva >= size {
        return Err(FailureReason::OutOfModule);
    }
    Ok(rva as u64)
}

} // verus!
