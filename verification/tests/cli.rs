use std::path::PathBuf;
use std::time::Duration;

use maple_core::attach::{locator, request_locator, scan_module_name, Locator};
use maple_core::config::{
    parse_bool, parse_config, parse_hex_opt, resolve_arch, resolve_attach, resolve_patterns,
    resolve_strict, AttachArgs, Config,
};
use maple_core::domain::FindingStatus;
use maple_core::engine::{PatternRow, ScanResult};
use maple_core::exit::{attach_err, mark, scan_exit_kind, unpack_err, CliError, ExitKind};
use maple_core::pattern::{arch_mismatch, Arch};
use maple_core::text::hex_text;
use maple_core::unpack::{clash_error, out_clash, stage_label, stage_str, OutClash, Stage};

fn mkrow(name: &str, status: FindingStatus, candidates: Vec<u64>) -> PatternRow {
    PatternRow {
        name: name.to_string(),
        category: "globals".to_string(),
        pattern: "48 8B ?? ??".to_string(),
        value: candidates.first().copied(),
        is_offset: false,
        matches: candidates.len(),
        status,
        note: String::new(),
        candidates,
        confidence: 0,
        trace: None,
    }
}

fn result_of(rows: Vec<PatternRow>, unresolved: Vec<&str>, not_found: Vec<&str>) -> ScanResult {
    let found = rows
        .iter()
        .filter(|r| r.status.is_found())
        .map(|r| r.name.clone())
        .collect();
    let total_matches = rows.iter().map(|r| r.matches).sum();
    ScanResult {
        findings: Vec::new(),
        rows,
        found,
        matched_unresolved: unresolved.iter().map(|s| s.to_string()).collect(),
        not_found: not_found.iter().map(|s| s.to_string()).collect(),
        total_matches,
        read_gaps: Vec::new(),
        warnings: Vec::new(),
    }
}

#[test]
fn exit_codes_are_stable() {
    assert_eq!(ExitKind::Success.code(), 0);
    assert_eq!(ExitKind::Internal.code(), 1);
    assert_eq!(ExitKind::SuccessWithWarnings.code(), 2);
    assert_eq!(ExitKind::Unresolved.code(), 3);
    assert_eq!(ExitKind::Ambiguous.code(), 4);
    assert_eq!(ExitKind::InvalidInput.code(), 5);
    assert_eq!(ExitKind::AccessDenied.code(), 6);
}

#[test]
fn arch_mismatch_detects_definite_conflicts() {
    // requested x64 but the module is x86: actionable message naming the right bitness
    let msg = arch_mismatch(Arch::X64, Some(Arch::X86), "MapleStory.exe").unwrap();
    assert!(msg.contains("32-bit"), "{msg}");
    assert!(msg.contains("x86"));
    // matching architectures: no complaint
    assert!(arch_mismatch(Arch::X64, Some(Arch::X64), "m").is_none());
    // unknown actual architecture: cannot tell, so never block a scan on a guess
    assert!(arch_mismatch(Arch::X64, None, "m").is_none());
}

#[test]
fn attach_permission_error_maps_to_access_denied() {
    let denied = std::io::Error::from(std::io::ErrorKind::PermissionDenied);
    assert_eq!(attach_err(denied).kind, ExitKind::AccessDenied);
    let missing = std::io::Error::from(std::io::ErrorKind::NotFound);
    assert_eq!(attach_err(missing).kind, ExitKind::InvalidInput);
}

#[test]
fn scan_exit_kind_ranks_ambiguous_over_unresolved_over_clean() {
    let clean = result_of(
        vec![mkrow("A", FindingStatus::FoundUnique, vec![0x10])],
        vec![],
        vec![],
    );
    assert_eq!(scan_exit_kind(&clean), ExitKind::Success);

    let unresolved = result_of(
        vec![mkrow("A", FindingStatus::NotFound, vec![])],
        vec![],
        vec!["A"],
    );
    assert_eq!(scan_exit_kind(&unresolved), ExitKind::Unresolved);

    let ambiguous = result_of(
        vec![mkrow(
            "A",
            FindingStatus::FoundAmbiguous { candidates: 2 },
            vec![0x10, 0x20],
        )],
        vec![],
        vec!["B"],
    );
    assert_eq!(scan_exit_kind(&ambiguous), ExitKind::Ambiguous);
}

#[test]
fn config_parses_known_keys() {
    let cfg = parse_config(
        "# a comment\nprocess = Maple.exe\narch = 32\nstrict = false\nout = dump\n",
        "test",
    )
    .unwrap();
    assert_eq!(cfg.process.as_deref(), Some("Maple.exe"));
    assert!(matches!(cfg.arch, Some(Arch::X86)));
    assert_eq!(cfg.strict, Some(false));
    assert_eq!(cfg.out, Some(PathBuf::from("dump")));
}

#[test]
fn config_rejects_unknown_key() {
    assert!(parse_config("bogus = 1\n", "test").is_err());
}

#[test]
fn cli_arch_overrides_config_but_config_fills_gaps() {
    let cfg = parse_config("arch = 32\n", "test").unwrap();
    assert!(matches!(resolve_arch(Some("64"), &cfg), Ok(Arch::X64)));
    assert!(matches!(resolve_arch(None, &cfg), Ok(Arch::X86)));
}

#[test]
fn resolve_attach_prefers_cli_class_over_config_process() {
    let cfg = parse_config("process = Cfg.exe\n", "test").unwrap();
    let a = AttachArgs {
        process: None,
        class: Some("Win".to_string()),
        pid: None,
        module: None,
        no_wait: false,
        timeout: None,
    };
    let r = resolve_attach(&a, &cfg);
    assert_eq!(r.class.as_deref(), Some("Win"));
    assert!(r.process.is_none());
    assert_eq!(r.module, "MapleStory.exe");
}

#[test]
fn resolve_attach_falls_back_to_config_process_and_module() {
    let cfg = parse_config("process = Cfg.exe\nmodule = Cfg.dll\n", "test").unwrap();
    let a = AttachArgs {
        process: None,
        class: None,
        pid: None,
        module: None,
        no_wait: true,
        timeout: None,
    };
    let r = resolve_attach(&a, &cfg);
    assert_eq!(r.process.as_deref(), Some("Cfg.exe"));
    assert_eq!(r.module, "Cfg.dll");
    assert!(!r.wait);
}

#[test]
fn lenient_flag_overrides_config_strict() {
    let cfg = parse_config("strict = true\n", "test").unwrap();
    assert!(!resolve_strict(true, &cfg));
    assert!(resolve_strict(false, &cfg));
    assert!(resolve_strict(false, &Config::default()));
}

#[test]
fn config_errors_name_the_file_and_line() {
    assert_eq!(
        parse_config("process = a\nbogus = 1\n", "maple.conf").err().unwrap(),
        "maple.conf:2 unknown key 'bogus'"
    );
    assert_eq!(
        parse_config("\n\nno equals here", "f").err().unwrap(),
        "f:3 expected key = value"
    );
    assert_eq!(
        parse_config("arch = 16", "f").err().unwrap(),
        "f:1 unknown architecture '16' (expected 32 or 64)"
    );
    assert_eq!(
        parse_config("strict = Maybe", "f").err().unwrap(),
        "f:1 expected a boolean, got 'maybe'"
    );
}

#[test]
fn config_aliases_and_later_lines_win() {
    let cfg = parse_config(
        "process_name = A.exe\nmodule_name = a.dll\noutputs = o1\nout = o2\nstrict_patterns = off\npatterns = p.txt\r\narch = x64\nprocess = B.exe\n",
        "f",
    )
    .unwrap();
    assert_eq!(cfg.process.as_deref(), Some("B.exe"));
    assert_eq!(cfg.module.as_deref(), Some("a.dll"));
    assert_eq!(cfg.out, Some(PathBuf::from("o2")));
    assert_eq!(cfg.strict, Some(false));
    assert_eq!(cfg.patterns, Some(PathBuf::from("p.txt")));
    assert_eq!(cfg.arch, Some(Arch::X64));
}

#[test]
fn empty_config_sets_nothing() {
    let cfg = parse_config("", "f").unwrap();
    assert!(cfg.process.is_none() && cfg.module.is_none() && cfg.arch.is_none());
    assert!(cfg.patterns.is_none() && cfg.out.is_none() && cfg.strict.is_none());
}

#[test]
fn booleans_accept_each_spelling() {
    for t in ["true", "YES", " on ", "1"] {
        assert_eq!(parse_bool(t), Ok(true));
    }
    for f in ["false", "No", "OFF", "0"] {
        assert_eq!(parse_bool(f), Ok(false));
    }
    assert_eq!(parse_bool(" Nope "), Err("expected a boolean, got 'nope'".to_string()));
}

#[test]
fn addresses_parse_with_or_without_prefix() {
    assert_eq!(parse_hex_opt(&None), Ok(None));
    assert_eq!(parse_hex_opt(&Some("   ".to_string())), Ok(None));
    assert_eq!(parse_hex_opt(&Some("0x401000".to_string())), Ok(Some(0x401000)));
    assert_eq!(parse_hex_opt(&Some(" 0X1f ".to_string())), Ok(Some(0x1F)));
    assert_eq!(parse_hex_opt(&Some("+10".to_string())), Ok(Some(0x10)));
    assert_eq!(
        parse_hex_opt(&Some(" 0xZZ ".to_string())),
        Err("invalid address '0xZZ'".to_string())
    );
    assert_eq!(
        parse_hex_opt(&Some("0x".to_string())),
        Err("invalid address '0x'".to_string())
    );
    assert_eq!(
        parse_hex_opt(&Some("1FFFFFFFFFFFFFFFF".to_string())),
        Err("invalid address '1FFFFFFFFFFFFFFFF'".to_string())
    );
}

#[test]
fn rendered_addresses_read_back() {
    for v in [0usize, 0x10, 0x401000, usize::MAX] {
        let text = hex_text(v as u64);
        assert_eq!(parse_hex_opt(&Some(text)), Ok(Some(v)));
    }
    assert_eq!(hex_text(0x402ABC), "0x402ABC");
    assert_eq!(hex_text(0), "0x0");
}

#[test]
fn pattern_file_defaults_to_patterns_txt() {
    let cfg = Config::default();
    assert_eq!(resolve_patterns(None, &cfg), PathBuf::from("patterns.txt"));
    let cfg = parse_config("patterns = cfg.txt", "f").unwrap();
    assert_eq!(resolve_patterns(None, &cfg), PathBuf::from("cfg.txt"));
    let cli = PathBuf::from("cli.txt");
    assert_eq!(resolve_patterns(Some(&cli), &cfg), PathBuf::from("cli.txt"));
}

#[test]
fn arch_defaults_to_x64_and_rejects_bad_cli_values() {
    assert_eq!(resolve_arch(None, &Config::default()), Ok(Arch::X64));
    assert!(resolve_arch(Some("16"), &Config::default()).is_err());
}

#[test]
fn resolve_attach_prefers_cli_process_and_module_and_keeps_timeout() {
    let cfg = parse_config("process = Cfg.exe\nmodule = Cfg.dll\n", "test").unwrap();
    let a = AttachArgs {
        process: Some("Cli.exe".to_string()),
        class: None,
        pid: Some(42),
        module: None,
        no_wait: false,
        timeout: Some(5),
    };
    let r = resolve_attach(&a, &cfg);
    assert_eq!(r.process.as_deref(), Some("Cli.exe"));
    assert_eq!(r.module, "Cfg.dll");
    assert_eq!(r.pid, Some(42));
    assert!(r.wait);
    assert_eq!(r.timeout, Some(Duration::from_secs(5)));
    let zero = AttachArgs { timeout: Some(0), ..a };
    assert_eq!(resolve_attach(&zero, &Config::default()).timeout, None);
    let bare = AttachArgs {
        process: Some("Only.exe".to_string()),
        class: None,
        pid: None,
        module: None,
        no_wait: false,
        timeout: None,
    };
    assert_eq!(resolve_attach(&bare, &Config::default()).module, "Only.exe");
}

#[test]
fn locator_prefers_process_then_class() {
    let cfg = Config::default();
    let a = AttachArgs {
        process: Some("p.exe".to_string()),
        class: None,
        pid: None,
        module: None,
        no_wait: false,
        timeout: None,
    };
    assert_eq!(locator(&resolve_attach(&a, &cfg)), Ok(Locator::Name("p.exe".to_string())));
    let c = AttachArgs { process: None, class: Some("Wnd".to_string()), ..a };
    assert_eq!(locator(&resolve_attach(&c, &cfg)), Ok(Locator::Class("Wnd".to_string())));
    let n = AttachArgs { class: None, ..c };
    assert_eq!(
        locator(&resolve_attach(&n, &cfg)),
        Err("specify --process <name> or --class <window-class>".to_string())
    );
}

#[test]
fn desktop_requests_pick_locator_and_module_name() {
    assert_eq!(request_locator("Class", "Wnd"), Locator::Class("Wnd".to_string()));
    assert_eq!(request_locator("name", "a.exe"), Locator::Name("a.exe".to_string()));
    assert_eq!(scan_module_name("  ", " Game.exe "), "Game.exe");
    assert_eq!(scan_module_name(" Mod.dll ", "Game.exe"), "Mod.dll");
}

#[test]
fn scan_exit_kind_reports_warnings_only() {
    let mut r = result_of(vec![mkrow("A", FindingStatus::FoundUnique, vec![1])], vec![], vec![]);
    r.warnings.push("partial reads".to_string());
    assert_eq!(scan_exit_kind(&r), ExitKind::SuccessWithWarnings);
    let u = result_of(vec![], vec!["X"], vec![]);
    assert_eq!(scan_exit_kind(&u), ExitKind::Unresolved);
}

#[test]
fn io_failures_map_to_exit_kinds_with_their_prefix() {
    let unsupported = std::io::Error::from(std::io::ErrorKind::Unsupported);
    let e = attach_err(unsupported);
    assert_eq!(e.kind, ExitKind::Internal);
    assert!(e.msg.starts_with("attach failed: "));
    let other = std::io::Error::from(std::io::ErrorKind::Other);
    assert_eq!(attach_err(other).kind, ExitKind::InvalidInput);
    assert_eq!(
        unpack_err(std::io::Error::from(std::io::ErrorKind::NotFound)).kind,
        ExitKind::InvalidInput
    );
    assert_eq!(
        unpack_err(std::io::Error::from(std::io::ErrorKind::InvalidData)).kind,
        ExitKind::InvalidInput
    );
    assert_eq!(
        unpack_err(std::io::Error::from(std::io::ErrorKind::PermissionDenied)).kind,
        ExitKind::AccessDenied
    );
    let e = unpack_err(std::io::Error::from(std::io::ErrorKind::Other));
    assert_eq!(e.kind, ExitKind::Unresolved);
    assert!(e.msg.starts_with("unpack failed: "));
}

#[test]
fn string_errors_are_invalid_input() {
    let e: CliError = "bad flag".to_string().into();
    assert_eq!(e.kind, ExitKind::InvalidInput);
    assert_eq!(e.msg, "bad flag");
    let n = CliError::new(ExitKind::Internal, "boom".to_string());
    assert_eq!(n.kind, ExitKind::Internal);
}

#[test]
fn gate_marks_and_stage_names() {
    assert_eq!(mark(true), "PASS");
    assert_eq!(mark(false), "FAIL");
    assert_eq!(stage_label(Stage::Locate), "locating dumper");
    assert_eq!(stage_label(Stage::Dump), "dumping (unlicense)");
    assert_eq!(stage_label(Stage::Clean), "cleaning");
    assert_eq!(stage_label(Stage::Verify), "verifying");
    assert_eq!(stage_label(Stage::Done), "done");
    assert_eq!(stage_str(Stage::Locate), "locate");
    assert_eq!(stage_str(Stage::Dump), "dump");
    assert_eq!(stage_str(Stage::Clean), "clean");
    assert_eq!(stage_str(Stage::Verify), "verify");
    assert_eq!(stage_str(Stage::Done), "done");
}

#[test]
fn out_clash_checks_input_then_packed_then_dump() {
    assert_eq!(out_clash(true, Some(true), Some(true)), Some(OutClash::Input));
    assert_eq!(out_clash(false, Some(true), Some(true)), Some(OutClash::Packed));
    assert_eq!(out_clash(false, None, Some(true)), Some(OutClash::Dump));
    assert_eq!(out_clash(false, Some(false), Some(true)), Some(OutClash::Dump));
    assert_eq!(out_clash(false, Some(false), None), None);
    assert_eq!(out_clash(false, None, None), None);
}

#[test]
fn out_clash_errors_are_invalid_input() {
    let e = clash_error(OutClash::Input);
    assert_eq!(e.kind, ExitKind::InvalidInput);
    assert_eq!(e.msg, "refusing to overwrite the input with --out");
    assert_eq!(
        clash_error(OutClash::Packed).msg,
        "refusing to overwrite the packed reference with --out"
    );
    assert_eq!(
        clash_error(OutClash::Dump).msg,
        "refusing to overwrite the intermediate dump with --out"
    );
}
