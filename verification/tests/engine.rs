use maple_core::domain::{FailureReason, FindingStatus};
use maple_core::engine::{
    buffer_hits, compile, read_gap_warning, render_signature, scan, summarize, Hit, ReadGap,
    ScanResult,
};
use maple_core::exit::{scan_exit_kind, ExitKind};
use maple_core::memory::{BufferSource, Region};
use maple_core::pattern::{parse_patterns, Arch};
use maple_core::scanner::{find_all, CompiledPattern};
use maple_core::pattern::Signature;

#[test]
fn scans_and_resolves_against_buffer() {
    let base = 0x1000usize;
    let mut data = vec![0u8; 64];
    data[0x10..0x14].copy_from_slice(&[0xDE, 0xAD, 0xBE, 0xEF]);
    data[0x20..0x27].copy_from_slice(&[0x48, 0x8D, 0x0D, 0x09, 0x00, 0x00, 0x00]);
    let source = BufferSource::new(base, data);
    let regions = [Region { base, size: 64 }];
    let patterns = parse_patterns("Foo = DE AD BE EF\nBar_PTR = 48 8D 0D ? ? ? ?", Arch::X64);

    let result = scan(&source, base, &regions, &patterns, Arch::X64);

    let foo = result.findings.iter().find(|f| f.name == "Foo").unwrap();
    assert_eq!(foo.value, 0x10);
    assert!(!foo.is_offset);
    let bar = result.findings.iter().find(|f| f.name == "Bar").unwrap();
    assert_eq!(bar.value, 0x30);
    assert_eq!(result.found.len(), 2);
    assert!(result.not_found.is_empty());
}

#[test]
fn reports_not_found_and_unresolved() {
    let base = 0x2000usize;
    let data = vec![0u8; 32];
    let source = BufferSource::new(base, data);
    let regions = [Region { base, size: 32 }];
    let patterns = parse_patterns("Missing = 11 22 33 44", Arch::X64);

    let result = scan(&source, base, &regions, &patterns, Arch::X64);
    assert_eq!(result.not_found, vec!["Missing"]);
    assert!(result.findings.is_empty());
}

#[test]
fn unresolvable_match_is_reported_as_unresolved() {
    let base = 0x3000usize;
    let mut data = vec![0x90u8; 16];
    data[4] = 0xCC;
    let source = BufferSource::new(base, data);
    let regions = [Region { base, size: 16 }];
    let patterns = parse_patterns("Trap_PTR = CC\nField_OFF = CC 90", Arch::X64);
    let result = scan(&source, base, &regions, &patterns, Arch::X64);
    assert_eq!(result.matched_unresolved, vec!["Trap_PTR", "Field_OFF"]);
    assert_eq!(result.total_matches, 2);
    assert!(result.found.is_empty() && result.not_found.is_empty());
}

#[test]
fn first_match_by_address_wins_across_regions() {
    let base = 0x1000usize;
    let mut data = vec![0u8; 0x40];
    data[0x30..0x32].copy_from_slice(&[0xAB, 0xCD]);
    data[0x08..0x0A].copy_from_slice(&[0xAB, 0xCD]);
    let source = BufferSource::new(base, data);
    let regions = [
        Region { base: base + 0x20, size: 0x20 },
        Region { base, size: 0x20 },
    ];
    let patterns = parse_patterns("Twice = AB CD\nOffset_OFF = 48 8B 40 ??", Arch::X64);
    let result = scan(&source, base, &regions, &patterns, Arch::X64);
    assert_eq!(result.total_matches, 2);
    assert_eq!(result.findings.len(), 1);
    assert_eq!(result.findings[0].name, "Twice");
    assert_eq!(result.findings[0].value, 0x08);
    assert_eq!(result.not_found, vec!["Offset_OFF"]);
}

#[test]
fn offset_and_call_patterns_resolve() {
    let base = 0x10_000usize;
    let mut data = vec![0u8; 0x80];
    data[0x00..0x04].copy_from_slice(&[0x48, 0x8B, 0x41, 0x28]);
    data[0x10..0x15].copy_from_slice(&[0xE8, 0x2B, 0x00, 0x00, 0x00]);
    let source = BufferSource::new(base, data);
    let regions = [Region { base, size: 0x80 }];
    let patterns = parse_patterns("Hp_OFF = 48 8B 41 ??\nTick_CALL = E8 ?? ?? ?? ??", Arch::X64);
    let result = scan(&source, base, &regions, &patterns, Arch::X64);
    assert_eq!(result.findings.len(), 2);
    assert_eq!(result.findings[0].name, "Hp");
    assert_eq!(result.findings[0].value, 0x28);
    assert!(result.findings[0].is_offset);
    assert_eq!(result.findings[1].name, "Tick");
    assert_eq!(result.findings[1].value, 0x40);
    assert!(!result.findings[1].is_offset);
}

#[test]
fn all_wildcard_patterns_are_not_searched() {
    let base = 0x1000usize;
    let source = BufferSource::new(base, vec![1, 2, 3, 4]);
    let regions = [Region { base, size: 4 }];
    let patterns = parse_patterns("Any = ?? ??", Arch::X64);
    let result = scan(&source, base, &regions, &patterns, Arch::X64);
    assert_eq!(result.not_found, vec!["Any"]);
    assert_eq!(result.total_matches, 0);
}

#[test]
fn short_reads_scan_what_was_read() {
    let base = 0x1000usize;
    let source = BufferSource::new(base, vec![0xAA, 0xBB]);
    let regions = [Region { base, size: 0x100 }, Region { base: 0x100, size: 4 }];
    let patterns = parse_patterns("X = AA BB", Arch::X64);
    let result = scan(&source, base, &regions, &patterns, Arch::X64);
    assert_eq!(result.found, vec!["X"]);
    assert_eq!(result.findings[0].value, 0);
    assert_eq!(
        result.read_gaps,
        vec![
            ReadGap { base: 0x1000, requested: 0x100, got: 2 },
            ReadGap { base: 0x100, requested: 4, got: 0 },
        ]
    );
    assert_eq!(
        result.warnings,
        vec!["partial reads: 2 region window(s) returned short, 258 byte(s) unreadable; a \"not found\" result may be in unread memory".to_string()]
    );
    assert_eq!(result.unread_bytes(), 258);
}

#[test]
fn full_reads_leave_no_gaps() {
    let base = 0x1000usize;
    let source = BufferSource::new(base, vec![0u8; 16]);
    let regions = [Region { base, size: 16 }, Region { base: base + 4, size: 0 }];
    let patterns = parse_patterns("X = 01", Arch::X64);
    let result = scan(&source, base, &regions, &patterns, Arch::X64);
    assert!(result.read_gaps.is_empty());
    assert!(result.warnings.is_empty());
    assert_eq!(result.rows.len(), 1);
    assert_eq!(result.rows[0].status, FindingStatus::NotFound);
    assert_eq!(result.not_found, vec!["X"]);
}

#[test]
fn summarize_sorts_patterns_by_outcome() {
    let patterns = parse_patterns("A = 01\nB = 02\nC = 03", Arch::X64);
    let hits = vec![
        Hit { pattern_idx: 0, addr: 0x50, value: Some(0x50), is_offset: false },
        Hit { pattern_idx: 0, addr: 0x20, value: Some(0x20), is_offset: false },
        Hit { pattern_idx: 1, addr: 0x10, value: None, is_offset: false },
    ];
    let r: ScanResult = summarize(&patterns, &hits);
    assert_eq!(r.found, vec!["A"]);
    assert_eq!(r.matched_unresolved, vec!["B"]);
    assert_eq!(r.not_found, vec!["C"]);
    assert_eq!(r.findings[0].value, 0x20);
    assert_eq!(r.total_matches, 3);
}

#[test]
fn find_all_reports_overlapping_matches() {
    let sig = Signature { bytes: vec![0xAA, 0x00, 0xAA], mask: vec![true, false, true] };
    let cp = CompiledPattern::new(&sig).unwrap();
    assert_eq!(cp.len(), 3);
    assert_eq!(find_all(&[0xAA, 1, 0xAA, 2, 0xAA, 0xAA], &cp), vec![0, 2]);
    assert!(find_all(&[0xAA, 0xAA], &cp).is_empty());
    let wild = Signature { bytes: vec![0, 0], mask: vec![false, false] };
    assert!(CompiledPattern::new(&wild).is_none());
    let uneven = Signature { bytes: vec![1, 2], mask: vec![true] };
    assert!(CompiledPattern::new(&uneven).is_none());
}

#[test]
fn read_gap_warning_counts_windows_and_bytes() {
    assert_eq!(read_gap_warning(&[]), None);
    let gaps = [
        ReadGap { base: 0x1000, requested: 0x100, got: 0x80 },
        ReadGap { base: 0x2000, requested: 16, got: 0 },
    ];
    assert_eq!(
        read_gap_warning(&gaps).unwrap(),
        "partial reads: 2 region window(s) returned short, 144 byte(s) unreadable; a \"not found\" result may be in unread memory"
    );
}

#[test]
fn unread_bytes_sums_every_gap() {
    let r = ScanResult {
        findings: Vec::new(),
        rows: Vec::new(),
        found: Vec::new(),
        matched_unresolved: Vec::new(),
        not_found: Vec::new(),
        total_matches: 0,
        read_gaps: vec![
            ReadGap { base: 0, requested: 10, got: 4 },
            ReadGap { base: 0x100, requested: 3, got: 3 },
            ReadGap { base: 0x200, requested: 8, got: 0 },
        ],
        warnings: Vec::new(),
    };
    assert_eq!(r.unread_bytes(), 14);
}

#[test]
fn buffer_hits_lists_matches_pattern_by_pattern() {
    let source = BufferSource::new(0, Vec::new());
    let patterns = parse_patterns("A = AB\nB_OFF = 48 8B 40 ??\nC = CD", Arch::X64);
    let compiled = compile(&patterns);
    let buf = [0xAB, 0x48, 0x8B, 0x40, 0x18, 0xAB, 0xCD];
    let hits = buffer_hits(&source, &buf, 0x5000, &compiled, 0x4000);
    assert_eq!(
        hits,
        vec![
            Hit { pattern_idx: 0, addr: 0x5000, value: Some(0x1000), is_offset: false },
            Hit { pattern_idx: 0, addr: 0x5005, value: Some(0x1005), is_offset: false },
            Hit { pattern_idx: 1, addr: 0x5001, value: Some(0x18), is_offset: true },
            Hit { pattern_idx: 2, addr: 0x5006, value: Some(0x1006), is_offset: false },
        ]
    );
}

#[test]
fn header_patterns_report_the_immediate_as_a_raw_value() {
    let base = 0x40_000usize;
    let mut data = vec![0x90u8; 0x40];
    data[0x08..0x12].copy_from_slice(&[0x48, 0x8B, 0xCB, 0xBA, 0x21, 0x01, 0x00, 0x00, 0xE8, 0x00]);
    let source = BufferSource::new(base, data);
    let regions = [Region { base, size: 0x40 }];
    let patterns = parse_patterns("SendLogin_HDR = 48 8B CB BA ?? ?? ?? ??", Arch::X64);
    let result = scan(&source, base, &regions, &patterns, Arch::X64);
    assert_eq!(result.findings.len(), 1);
    assert_eq!(result.findings[0].name, "SendLogin");
    assert_eq!(result.findings[0].value, 0x121);
    assert!(result.findings[0].is_offset);
    assert!(result.not_found.is_empty());
}

#[test]
fn rows_report_each_pattern_with_its_status() {
    let base = 0x5000usize;
    let mut data = vec![0u8; 0x40];
    data[0x04..0x08].copy_from_slice(&[0xDE, 0xAD, 0xBE, 0xEF]);
    data[0x10..0x12].copy_from_slice(&[0xAB, 0xCD]);
    data[0x20..0x22].copy_from_slice(&[0xAB, 0xCD]);
    data[0x30] = 0xCC;
    let source = BufferSource::new(base, data);
    let regions = [Region { base, size: 0x40 }];
    let text = "Uniq = DE AD ?? EF ; the one\nTwice = AB CD\nTrap_PTR = CC\nGone = 11 22 33";
    let patterns = parse_patterns(text, Arch::X64);
    let result = scan(&source, base, &regions, &patterns, Arch::X64);

    assert_eq!(result.rows.len(), 4);
    let uniq = &result.rows[0];
    assert_eq!(uniq.name, "Uniq");
    assert_eq!(uniq.pattern, "DE AD ?? EF");
    assert_eq!(uniq.value, Some(0x04));
    assert_eq!(uniq.matches, 1);
    assert_eq!(uniq.status, FindingStatus::FoundUnique);
    assert_eq!(uniq.note, "the one");
    assert_eq!(uniq.candidates, vec![0x04]);

    let twice = &result.rows[1];
    assert_eq!(twice.matches, 2);
    assert_eq!(twice.value, Some(0x10));
    assert_eq!(twice.status, FindingStatus::FoundAmbiguous { candidates: 2 });
    assert_eq!(twice.candidates, vec![0x10, 0x20]);

    let trap = &result.rows[2];
    assert_eq!(trap.name, "Trap");
    assert_eq!(trap.value, None);
    assert_eq!(trap.status, FindingStatus::Failed(FailureReason::Unresolved));

    let gone = &result.rows[3];
    assert_eq!(gone.matches, 0);
    assert_eq!(gone.status, FindingStatus::NotFound);
    assert!(gone.candidates.is_empty());

    assert_eq!(scan_exit_kind(&result), ExitKind::Ambiguous);
}

#[test]
fn signature_text_spells_wildcards_and_hex() {
    let patterns = parse_patterns("A = 0f ? 48 ?? 00", Arch::X64);
    assert_eq!(render_signature(&patterns[0].signature), "0F ?? 48 ?? 00");
}
