use maple_core::memory::BufferSource;
use maple_core::resolver::{
    decode_rel_target, extract_immediate, extract_offset, extract_pointer, kind_label,
    nested_call_target, resolve_call, rva, Kind,
};

#[test]
fn classify_suffixes() {
    assert_eq!(Kind::classify("Foo_PTR"), (Kind::Pointer, "Foo"));
    assert_eq!(Kind::classify("Foo_CALL"), (Kind::Call, "Foo"));
    assert_eq!(Kind::classify("Foo_OFF"), (Kind::Offset, "Foo"));
    assert_eq!(Kind::classify("Foo"), (Kind::Direct, "Foo"));
}

#[test]
fn call_and_jmp_rel32() {
    assert_eq!(
        decode_rel_target(&[0xE8, 0x10, 0, 0, 0], 0x1000),
        Some(0x1015)
    );
    assert_eq!(
        decode_rel_target(&[0xE9, 0x10, 0, 0, 0], 0x1000),
        Some(0x1015)
    );
}

#[test]
fn short_jmp_backwards() {
    assert_eq!(decode_rel_target(&[0xEB, 0xFE], 0x2000), Some(0x2000));
}

#[test]
fn jcc_rel32_and_rel8() {
    assert_eq!(
        decode_rel_target(&[0x0F, 0x84, 0x00, 0x01, 0, 0], 0x1000),
        Some(0x1106)
    );
    assert_eq!(decode_rel_target(&[0x74, 0x05], 0x1000), Some(0x1007));
}

#[test]
fn rip_relative_mov_and_lea() {
    let mov = [0x48, 0x8B, 0x0D, 0x78, 0x56, 0x34, 0x12];
    assert_eq!(
        extract_pointer(&mov, 0x1000),
        Some(0x1000 + 7 + 0x1234_5678)
    );
    let lea = [0x48, 0x8D, 0x0D, 0x04, 0x00, 0x00, 0x00];
    assert_eq!(extract_pointer(&lea, 0x2000), Some(0x2000 + 7 + 4));
}

#[test]
fn rip_relative_cmp_and_sse() {
    let cmp = [0x40, 0x83, 0x3D, 0x10, 0x00, 0x00, 0x00, 0x05];
    assert_eq!(extract_pointer(&cmp, 0x3000), Some(0x3000 + 8 + 0x10));
    let sse = [0xF2, 0x0F, 0x10, 0x05, 0x20, 0x00, 0x00, 0x00];
    assert_eq!(extract_pointer(&sse, 0x4000), Some(0x4000 + 8 + 0x20));
}

#[test]
fn offset_from_disp8_and_disp32() {
    assert_eq!(extract_offset(&[0x48, 0x8B, 0x48, 0x10], 4), Some(0x10));
    assert_eq!(
        extract_offset(&[0x48, 0x8B, 0x88, 0x00, 0x01, 0x00, 0x00], 4),
        Some(0x100)
    );
}

#[test]
fn two_hop_call_resolution() {
    let base = 0x1_0000usize;
    let mut data = vec![0u8; 0x300];
    data[0x00..0x05].copy_from_slice(&[0xE8, 0xFB, 0x00, 0x00, 0x00]);
    data[0x100..0x105].copy_from_slice(&[0xE8, 0xFB, 0x00, 0x00, 0x00]);
    let source = BufferSource::new(base, data);
    let matched = [0xE8, 0xFB, 0x00, 0x00, 0x00];
    assert_eq!(resolve_call(&source, base, &matched), Some(0x1_0200));
}

#[test]
fn kind_labels_are_stable() {
    assert_eq!(kind_label(Kind::Direct), "direct");
    assert_eq!(kind_label(Kind::Pointer), "pointer");
    assert_eq!(kind_label(Kind::Call), "call");
    assert_eq!(kind_label(Kind::Offset), "offset");
}

#[test]
fn classify_prefers_call_and_keeps_plain_names() {
    assert_eq!(Kind::classify("X_PTR_CALL"), (Kind::Call, "X_PTR"));
    assert_eq!(Kind::classify("_PTR"), (Kind::Pointer, ""));
    assert_eq!(Kind::classify("ptr"), (Kind::Direct, "ptr"));
}

#[test]
fn relative_targets_wrap_and_reject_other_opcodes() {
    assert_eq!(decode_rel_target(&[0xE8, 0xFB, 0xFF, 0xFF, 0xFF], 0), Some(0));
    assert_eq!(decode_rel_target(&[0xEB, 0x80], 0x100), Some(0x82));
    assert_eq!(decode_rel_target(&[0x90, 0x90], 0x100), None);
    assert_eq!(decode_rel_target(&[0xE8, 0x00, 0x00], 0x100), None);
}

#[test]
fn pointer_scan_skips_leading_bytes_and_needs_two() {
    let bytes = [0x90, 0x48, 0x8D, 0x05, 0x10, 0x00, 0x00, 0x00];
    assert_eq!(extract_pointer(&bytes, 0x1000), Some(0x1001 + 7 + 0x10));
    assert_eq!(extract_pointer(&[0x48], 0x1000), None);
    assert_eq!(extract_pointer(&[0x90, 0x90, 0x90], 0x1000), None);
}

#[test]
fn offset_scan_window_and_short_input() {
    assert_eq!(extract_offset(&[0x48, 0x8B], 4), None);
    assert_eq!(extract_offset(&[0x90, 0x90, 0x48, 0x8B, 0x41, 0x20], 1), None);
    assert_eq!(extract_offset(&[0x90, 0x90, 0x48, 0x8B, 0x41, 0x20], 2), Some(0x20));
}

#[test]
fn nested_call_is_chased_once() {
    assert_eq!(nested_call_target(0x5000, &[0x90, 0xE8, 0x10, 0, 0, 0]), 0x5000 + 1 + 5 + 0x10);
    assert_eq!(nested_call_target(0x5000, &[0x90, 0x90]), 0x5000);
}

#[test]
fn call_resolution_reads_the_displacement_when_the_match_is_short() {
    let base = 0x2000usize;
    let mut data = vec![0u8; 0x40];
    data[0x00..0x05].copy_from_slice(&[0xE8, 0x10, 0x00, 0x00, 0x00]);
    let source = BufferSource::new(base, data);
    assert_eq!(resolve_call(&source, base, &[0xE8]), Some(0x2015));
    assert_eq!(resolve_call(&source, 0x1000, &[0xE8]), None);
}

#[test]
fn rva_wraps_below_the_base() {
    assert_eq!(rva(0x1040, 0x1000), 0x40);
    assert_eq!(rva(0x0FFF, 0x1000), usize::MAX as u64);
}

#[test]
fn header_suffix_selects_immediate_extraction() {
    assert_eq!(Kind::classify("Foo_HDR"), (Kind::Header, "Foo"));
    assert_eq!(Kind::classify("Login_HDR"), (Kind::Header, "Login"));
    assert_eq!(kind_label(Kind::Header), "header");
    assert_eq!(Kind::classify("HDR"), (Kind::Direct, "HDR"));
}

#[test]
fn immediate_forms_are_read_as_encoded() {
    assert_eq!(extract_immediate(&[0x68, 0x78, 0x56, 0x34, 0x12]), Some(0x1234_5678));
    assert_eq!(extract_immediate(&[0x6A, 0x2A]), Some(0x2A));
    assert_eq!(extract_immediate(&[0x6A, 0xFF]), Some(0xFF));
    assert_eq!(extract_immediate(&[0xBA, 0x34, 0x12, 0x00, 0x00]), Some(0x1234));
    assert_eq!(extract_immediate(&[0x41, 0xB8, 0x01, 0x00, 0x00, 0x00]), Some(1));
}

#[test]
fn immediate_scan_skips_to_the_first_constant_load() {
    assert_eq!(
        extract_immediate(&[0x48, 0x8B, 0xBA, 0x34, 0x12, 0x00, 0x00, 0xC3]),
        Some(0x1234)
    );
    assert_eq!(extract_immediate(&[0x90, 0x90, 0x6A, 0x07, 0x68, 1, 2, 3, 4]), Some(7));
}

#[test]
fn immediate_scan_needs_the_whole_operand() {
    assert_eq!(extract_immediate(&[]), None);
    assert_eq!(extract_immediate(&[0x90, 0xC3]), None);
    assert_eq!(extract_immediate(&[0x68, 0x01, 0x02, 0x03]), None);
    assert_eq!(extract_immediate(&[0x41, 0xB8, 0x01, 0x02, 0x03]), None);
}
