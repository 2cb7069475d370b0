use std::path::PathBuf;

use maple_core::config::{parse_config, resolve_out, Config};
use maple_core::domain::FindingStatus;
use maple_core::engine::{ambiguous_count, PatternRow};
use maple_core::exit::{lint_exit_kind, mksig_exit_kind, unpack_outcome, ExitKind};
use maple_core::memory::Region;
use maple_core::mksig::{check_target_flags, holdout_verdict, match_plural};
use maple_core::pattern::Signature;
use maple_core::profile::{scan_serial, sweep_blocks, total_bytes, Probe};
use maple_core::scanner::CompiledPattern;
use maple_core::unpack::{dump_file_name, dumper_failure};

fn row(status: FindingStatus) -> PatternRow {
    PatternRow {
        name: "R".to_string(),
        category: "globals".to_string(),
        pattern: "AA".to_string(),
        value: None,
        is_offset: false,
        matches: 0,
        status,
        note: String::new(),
        candidates: Vec::new(),
        confidence: 0,
        trace: None,
    }
}

#[test]
fn output_directory_falls_back_to_current() {
    assert_eq!(resolve_out(None, &Config::default()), PathBuf::from("."));
    let cfg = parse_config("out = dumps", "f").unwrap();
    assert_eq!(resolve_out(None, &cfg), PathBuf::from("dumps"));
    let cli = PathBuf::from("here");
    assert_eq!(resolve_out(Some(&cli), &cfg), PathBuf::from("here"));
}

#[test]
fn ambiguous_rows_are_counted() {
    let rows = vec![
        row(FindingStatus::FoundUnique),
        row(FindingStatus::FoundAmbiguous { candidates: 2 }),
        row(FindingStatus::NotFound),
        row(FindingStatus::FoundAmbiguous { candidates: 5 }),
    ];
    assert_eq!(ambiguous_count(&rows), 2);
    assert_eq!(ambiguous_count(&Vec::new()), 0);
}

#[test]
fn command_outcomes_map_to_exit_kinds() {
    assert_eq!(lint_exit_kind(0), ExitKind::Success);
    assert_eq!(lint_exit_kind(3), ExitKind::SuccessWithWarnings);
    assert_eq!(mksig_exit_kind(false, 0), ExitKind::Unresolved);
    assert_eq!(mksig_exit_kind(false, 2), ExitKind::Unresolved);
    assert_eq!(mksig_exit_kind(true, 2), ExitKind::SuccessWithWarnings);
    assert_eq!(mksig_exit_kind(true, 0), ExitKind::Success);
    assert_eq!(unpack_outcome(true, 0).unwrap(), ExitKind::Success);
    assert_eq!(unpack_outcome(true, 1).unwrap(), ExitKind::SuccessWithWarnings);
    let failed = unpack_outcome(false, 0).err().unwrap();
    assert_eq!(failed.kind, ExitKind::Unresolved);
    assert_eq!(failed.msg, "verification gates failed; no binary was written");
}

#[test]
fn signature_targets_need_exactly_one_kind() {
    assert!(check_target_flags(true, false).is_ok());
    assert!(check_target_flags(false, true).is_ok());
    assert_eq!(
        check_target_flags(true, true),
        Err("provide exactly one of --sig OR (--ref + --rva)".to_string())
    );
    assert!(check_target_flags(false, false).is_err());
}

#[test]
fn holdout_and_plural_wording() {
    assert_eq!(holdout_verdict(true, true), "ok");
    assert_eq!(
        holdout_verdict(false, true),
        "MISS, signature did not match the held-out build"
    );
    assert_eq!(holdout_verdict(false, false), "no signature from the remaining builds");
    assert_eq!(match_plural(1), "");
    assert_eq!(match_plural(0), "es");
    assert_eq!(match_plural(2), "es");
}

#[test]
fn dumper_names_and_failures() {
    assert_eq!(dump_file_name("Maple.exe"), "unpacked_Maple.exe");
    assert_eq!(
        dumper_failure(Some(3), "  bad things\n"),
        "unlicense failed (exit 3). bad things"
    );
    assert_eq!(dumper_failure(Some(-1), ""), "unlicense failed (exit -1). ");
    assert_eq!(dumper_failure(None, "x"), "unlicense failed (exit signal). x");
}

#[test]
fn sweep_cuts_regions_into_blocks() {
    let regions = [Region { base: 0x1000, size: 10 }, Region { base: 0x4000, size: 4 }, Region { base: 0x9000, size: 0 }];
    assert_eq!(
        sweep_blocks(&regions, 4),
        vec![(0x1000, 4), (0x1004, 4), (0x1008, 2), (0x4000, 4)]
    );
    assert_eq!(total_bytes(&regions), 14);
    assert_eq!(total_bytes(&[]), 0);
}

#[test]
fn serial_pass_reports_every_match_buffer_by_buffer() {
    let aa = CompiledPattern::new(&Signature { bytes: vec![0xAA], mask: vec![true] });
    let none: Option<CompiledPattern> = None;
    let ab = CompiledPattern::new(&Signature { bytes: vec![0xAA, 0xBB], mask: vec![true, true] });
    let compiled = vec![aa, none, ab];
    let bufs = vec![(0x1000usize, vec![0xAA, 0xBB, 0xAA]), (0x2000usize, vec![0xAA])];
    let (_, found) = scan_serial(&bufs, &compiled);
    assert_eq!(
        found,
        vec![
            Probe { buf: 0, off: 0, pat: 0 },
            Probe { buf: 0, off: 2, pat: 0 },
            Probe { buf: 0, off: 0, pat: 2 },
            Probe { buf: 1, off: 0, pat: 0 },
        ]
    );
}
