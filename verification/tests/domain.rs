use maple_core::domain::{checked_rva, FailureReason, FindingStatus};

#[test]
fn checked_rva_accepts_in_range() {
    assert_eq!(checked_rva(0x1040, 0x1000, 0x1000), Ok(0x40));
    assert_eq!(checked_rva(0x1000, 0x1000, 0x1000), Ok(0));
}

#[test]
fn checked_rva_rejects_below_base() {
    assert_eq!(
        checked_rva(0x0FFF, 0x1000, 0x1000),
        Err(FailureReason::OutOfModule)
    );
}

#[test]
fn checked_rva_rejects_past_end() {
    assert_eq!(
        checked_rva(0x2000, 0x1000, 0x1000),
        Err(FailureReason::OutOfModule)
    );
    assert_eq!(checked_rva(0x1FFF, 0x1000, 0x1000), Ok(0xFFF));
}

#[test]
fn checked_rva_unbounded_when_size_zero() {
    assert_eq!(checked_rva(0x9000, 0x1000, 0), Ok(0x8000));
}

#[test]
fn only_unique_is_exportable() {
    assert!(FindingStatus::FoundUnique.is_exportable());
    assert!(FindingStatus::FoundUnique.is_unique_found());
    let ambiguous = FindingStatus::FoundAmbiguous { candidates: 2 };
    assert!(!ambiguous.is_exportable());
    assert!(!ambiguous.is_unique_found());
    assert!(ambiguous.is_found());
    assert!(!FindingStatus::NotFound.is_exportable());
    assert!(!FindingStatus::Failed(FailureReason::OutOfModule).is_exportable());
}

#[test]
fn status_labels_are_stable() {
    assert_eq!(FindingStatus::FoundUnique.label(), "found");
    assert_eq!(
        FindingStatus::FoundAmbiguous { candidates: 3 }.label(),
        "found (ambiguous)"
    );
    assert!(FindingStatus::FoundAmbiguous { candidates: 2 }.is_found());
    assert!(!FindingStatus::Failed(FailureReason::AccessDenied).is_found());
    assert_eq!(
        FindingStatus::Failed(FailureReason::OutOfModule).label(),
        "out of module"
    );
}

#[test]
fn every_failure_reason_has_its_label() {
    assert_eq!(FailureReason::OutOfModule.label(), "out of module");
    assert_eq!(FailureReason::AccessDenied.label(), "access denied");
    assert_eq!(FailureReason::ModuleNotLoaded.label(), "module not loaded");
    assert_eq!(FailureReason::ArchMismatch.label(), "architecture mismatch");
    assert_eq!(FailureReason::NoReadableRegions.label(), "no readable regions");
    assert_eq!(FindingStatus::NotFound.label(), "not found");
    assert!(!FindingStatus::NotFound.is_found());
}

#[test]
fn checked_rva_just_past_base_and_top_of_address_space() {
    assert_eq!(checked_rva(usize::MAX, 0, 0), Ok(usize::MAX as u64));
    assert_eq!(checked_rva(0, 1, 0), Err(FailureReason::OutOfModule));
}
