use maple_core::pattern::{arch_mismatch, arch_of, parse_patterns, Arch, Pattern, Signature};

fn names(patterns: &[Pattern]) -> Vec<&str> {
    patterns.iter().map(|p| p.name.as_str()).collect()
}

#[test]
fn equals_separator() {
    let p = parse_patterns("Foo = AA BB CC ?? DD", Arch::X64);
    assert_eq!(p.len(), 1);
    assert_eq!(p[0].name, "Foo");
    assert_eq!(p[0].signature.bytes, vec![0xAA, 0xBB, 0xCC, 0x00, 0xDD]);
    assert_eq!(p[0].signature.mask, vec![true, true, true, false, true]);
}

#[test]
fn colon_separator_and_0x_prefix() {
    let p = parse_patterns("Bar: 0xAA 0xBB ?? DD", Arch::X64);
    assert_eq!(p[0].name, "Bar");
    assert_eq!(p[0].signature.bytes, vec![0xAA, 0xBB, 0x00, 0xDD]);
    assert_eq!(p[0].signature.mask, vec![true, true, false, true]);
}

#[test]
fn space_separator() {
    let p = parse_patterns("Baz AA BB ?? DD", Arch::X64);
    assert_eq!(p[0].name, "Baz");
    assert_eq!(p[0].signature.bytes.len(), 4);
}

#[test]
fn single_question_mark_is_wildcard() {
    let p = parse_patterns("W = AA ? BB", Arch::X64);
    assert_eq!(p[0].signature.mask, vec![true, false, true]);
}

#[test]
fn commas_are_allowed() {
    let p = parse_patterns("C = AA, BB, ??, DD", Arch::X64);
    assert_eq!(p[0].signature.bytes, vec![0xAA, 0xBB, 0x00, 0xDD]);
    assert_eq!(p[0].signature.mask, vec![true, true, false, true]);
}

#[test]
fn semicolon_inline_comment_ignored() {
    let p = parse_patterns("C = AA BB ; comment CC DD", Arch::X64);
    assert_eq!(p[0].signature.bytes, vec![0xAA, 0xBB]);
}

#[test]
fn hash_inline_comment_ignored() {
    let p = parse_patterns("C = AA BB # comment", Arch::X64);
    assert_eq!(p[0].signature.bytes, vec![0xAA, 0xBB]);
}

#[test]
fn quoted_aob_unwrapped() {
    let p = parse_patterns("C = \"AA BB CC\"", Arch::X64);
    assert_eq!(p[0].signature.bytes, vec![0xAA, 0xBB, 0xCC]);
}

#[test]
fn section_filtering_selects_arch() {
    let text = "#64BIT\nA = 11 22\n#32BIT\nB = 33 44";
    assert_eq!(names(&parse_patterns(text, Arch::X64)), vec!["A"]);
    assert_eq!(names(&parse_patterns(text, Arch::X86)), vec!["B"]);
}

#[test]
fn comment_line_does_not_reset_section() {
    let text = "#64BIT\nA = 11 22\n# just a comment\nB = 33 44\n#32BIT\nC = 55 66";
    assert_eq!(names(&parse_patterns(text, Arch::X86)), vec!["C"]);
    assert_eq!(names(&parse_patterns(text, Arch::X64)), vec!["A", "B"]);
}

#[test]
fn patterns_before_any_section_apply_to_both() {
    let text = "Both = AA\n#64BIT\nOnly64 = BB";
    assert!(
        parse_patterns(text, Arch::X86)
            .iter()
            .any(|p| p.name == "Both")
    );
    assert!(
        parse_patterns(text, Arch::X64)
            .iter()
            .any(|p| p.name == "Both")
    );
    assert!(
        !parse_patterns(text, Arch::X86)
            .iter()
            .any(|p| p.name == "Only64")
    );
}

#[test]
fn bom_is_stripped() {
    let p = parse_patterns("\u{feff}Foo = AA BB", Arch::X64);
    assert_eq!(p.len(), 1);
    assert_eq!(p[0].name, "Foo");
}

#[test]
fn crlf_lines_handled() {
    let p = parse_patterns("A = AA BB\r\nB = CC DD\r\n", Arch::X64);
    assert_eq!(p.len(), 2);
    assert_eq!(p[1].signature.bytes, vec![0xCC, 0xDD]);
}

#[test]
fn invalid_tokens_skipped() {
    let p = parse_patterns("A = AA ZZ BB", Arch::X64);
    assert_eq!(p[0].signature.bytes, vec![0xAA, 0xBB]);
}

#[test]
fn lowercase_hex_accepted() {
    let p = parse_patterns("A = aa bb cc", Arch::X64);
    assert_eq!(p[0].signature.bytes, vec![0xAA, 0xBB, 0xCC]);
}

#[test]
fn lines_without_aob_are_skipped() {
    assert!(parse_patterns("JustAName", Arch::X64).is_empty());
    assert!(parse_patterns("", Arch::X64).is_empty());
    assert!(parse_patterns("   ", Arch::X64).is_empty());
}

#[test]
fn default_category_is_globals() {
    let p = parse_patterns("Foo = AA", Arch::X64);
    assert_eq!(p[0].category, "globals");
}

#[test]
fn category_sections_apply_to_following_patterns() {
    let text = "[functions]\nFoo = AA\n[offsets]\nBar = BB\nBaz = CC";
    let p = parse_patterns(text, Arch::X64);
    assert_eq!(p[0].category, "functions");
    assert_eq!(p[1].category, "offsets");
    assert_eq!(p[2].category, "offsets");
}

#[test]
fn parsed_signature_reports_its_length() {
    let p = parse_patterns("Foo = AA ?? BB", Arch::X64);
    assert_eq!(p[0].signature.len(), 3);
    assert!(!p[0].signature.is_empty());
    let empty = Signature { bytes: Vec::new(), mask: Vec::new() };
    assert!(empty.is_empty());
}

#[test]
fn arch_parses_bits_and_labels_in_any_case() {
    assert_eq!(Arch::parse("32"), Ok(Arch::X86));
    assert_eq!(Arch::parse(" X64 "), Ok(Arch::X64));
    assert_eq!(Arch::parse("x86"), Ok(Arch::X86));
    assert_eq!(
        Arch::parse("16"),
        Err("unknown architecture '16' (expected 32 or 64)".to_string())
    );
    assert_eq!(Arch::parse(Arch::X64.bits()), Ok(Arch::X64));
    assert_eq!(Arch::parse(Arch::X86.label()), Ok(Arch::X86));
}

#[test]
fn arch_mismatch_message_is_exact() {
    assert_eq!(
        arch_mismatch(Arch::X86, Some(Arch::X64), "game.exe").unwrap(),
        "game.exe is a 64-bit (x64) module but --arch 32 (x86) was requested; rerun with --arch 64"
    );
}

#[test]
fn desktop_arch_setting_selects_x86_for_32_or_x86() {
    assert_eq!(arch_of("x86"), Arch::X86);
    assert_eq!(arch_of("X86"), Arch::X86);
    assert_eq!(arch_of("win32"), Arch::X86);
    assert_eq!(arch_of("x64"), Arch::X64);
    assert_eq!(arch_of(""), Arch::X64);
}

#[test]
fn two_digit_wildcard_forms_and_bad_lengths() {
    let p = parse_patterns("A = ?A B? AAA 0x1 BB", Arch::X64);
    assert_eq!(p[0].signature.mask, vec![false, false, true]);
    assert_eq!(p[0].signature.bytes, vec![0x00, 0x00, 0xBB]);
}

#[test]
fn empty_category_header_keeps_the_category() {
    let p = parse_patterns("[funcs]\n[  ]\nA = AA", Arch::X64);
    assert_eq!(p[0].category, "funcs");
}

#[test]
fn patterns_equal_by_fields() {
    let a = parse_patterns("A = AA", Arch::X64);
    let b = parse_patterns("A = AA", Arch::X86);
    assert_eq!(a, b);
    let c: Vec<Pattern> = parse_patterns("A = AB", Arch::X64);
    assert_ne!(a, c);
}

#[test]
fn comments_become_notes() {
    let p = parse_patterns("C = AA BB ; comment CC DD\nD = EE # hot path\nE = FF ;   \nF = 01", Arch::X64);
    assert_eq!(p[0].note.as_deref(), Some("comment CC DD"));
    assert_eq!(p[1].note.as_deref(), Some("hot path"));
    assert_eq!(p[2].note, None);
    assert_eq!(p[3].note, None);
}
