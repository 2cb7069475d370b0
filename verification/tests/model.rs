use maple_core::memory::{BufferSource, Region};
use maple_core::model::AnalysisModel;
use maple_core::pattern::Arch;

fn model_of(src: &BufferSource, base: usize, size: usize, arch: Arch) -> AnalysisModel {
    AnalysisModel::build(src, base, &[Region { base, size }], arch)
}

#[test]
fn recovers_a_direct_call_target_as_an_entry() {
    // call C ; ret, with C a small function later in the buffer. The call target must be recovered
    // as a function entry.
    const BASE: usize = 0x40_0000;
    let mut buf = vec![0x90u8; 0x200];
    // G @ 0x00: push ebp ; mov ebp, esp ; call C(@0x100) ; pop ebp ; ret
    buf[0x00..0x03].copy_from_slice(&[0x55, 0x8B, 0xEC]);
    buf[0x03] = 0xE8;
    let rel = 0x100i32 - (0x03 + 5);
    buf[0x04..0x08].copy_from_slice(&rel.to_le_bytes());
    buf[0x08..0x0A].copy_from_slice(&[0x5D, 0xC3]);
    // C @ 0x100: a tiny function.
    buf[0x100..0x107].copy_from_slice(&[0x55, 0x8B, 0xEC, 0x33, 0xC0, 0x5D, 0xC3]);

    let src = BufferSource::new(BASE, buf);
    let model = model_of(&src, BASE, 0x200, Arch::X86);
    assert!(model.entries().contains(&0x100), "C is a call target");
}

#[test]
fn rejects_an_e8_operand_byte_that_is_not_a_call() {
    // `mov eax, 0x44E8` then `ret`: the only 0xE8 is the low immediate byte of the mov; decoding
    // from it does not give a five-byte near call into code, so no edge is recorded.
    const BASE: usize = 0x40_0000;
    let mut buf = vec![0x90u8; 0x80];
    buf[0x00..0x05].copy_from_slice(&[0xB8, 0xE8, 0x44, 0x00, 0x00]);
    buf[0x05] = 0xC3; // ret
    let src = BufferSource::new(BASE, buf);
    let model = model_of(&src, BASE, 0x80, Arch::X86);
    assert!(
        model.entries().is_empty(),
        "an 0xE8 operand byte must not become a function entry"
    );
}

#[test]
fn ignores_a_call_whose_target_is_outside_code() {
    // call into data (outside any code region) is not a function entry.
    const BASE: usize = 0x40_0000;
    let mut buf = vec![0x90u8; 0x80];
    buf[0x00] = 0xE8;
    let rel = 0x1000i32 - 5;
    buf[0x01..0x05].copy_from_slice(&rel.to_le_bytes());
    buf[0x05] = 0xC3;
    let src = BufferSource::new(BASE, buf);
    let model = model_of(&src, BASE, 0x80, Arch::X86);
    assert!(
        model.entries().is_empty(),
        "a call leaving the code region is not an entry"
    );
}

#[test]
fn entries_are_distinct_and_ascending() {
    // Two calls to 0x60 and one to 0x40, in 64-bit code.
    const BASE: usize = 0x1_4000_0000;
    let mut buf = vec![0x90u8; 0x80];
    let mut call = |at: usize, target: usize| {
        buf[at] = 0xE8;
        let rel = target as i32 - (at as i32 + 5);
        buf[at + 1..at + 5].copy_from_slice(&rel.to_le_bytes());
    };
    call(0x00, 0x60);
    call(0x10, 0x40);
    call(0x20, 0x60);
    let src = BufferSource::new(BASE, buf);
    let model = model_of(&src, BASE, 0x80, Arch::X64);
    assert_eq!(model.entries(), &[0x40, 0x60]);
}

#[test]
fn unreadable_region_contributes_nothing() {
    let src = BufferSource::new(0x2000, vec![0xE8, 0, 0, 0, 0]);
    let model = model_of(&src, 0x1000, 0x10, Arch::X86);
    assert!(model.entries().is_empty());
}
