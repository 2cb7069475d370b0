//! Resolvers that turn a pattern match into a value: relative branch and call targets,
//! RIP-relative operands, struct member displacements, and chased nested calls.

use vstd::prelude::*;
use vstd::arithmetic::div_mod::{lemma_add_mod_noop_right, lemma_fundamental_div_mod_converse_mod};
use vstd::wrapping::usize_specs;

use crate::memory::{zeros, MemorySource};
use vstd::slice::slice_subrange;

verus! {

/// How a match is resolved, selected by the pattern name's suffix.
#[derive(Debug, Clone, Copy, PartialEq, Eq, Structural)]
pub enum Kind {
    Direct,
    Pointer,
    Call,
    Offset,
    Header,
}

/// Whether `s` ends with `suffix`.
pub open spec fn has_suffix(s: Seq<char>, suffix: Seq<char>) -> bool {
    s.len() >= suffix.len() && s.subrange(s.len() - suffix.len(), s.len() as int) == suffix
}

/// The resolve kind a name selects and the name without its suffix: `_CALL`, then `_PTR`, then
/// `_OFF`, then `_HDR`; any other name is resolved directly and kept whole.
pub open spec fn spec_classify(name: Seq<char>) -> (Kind, Seq<char>) {
    let call = seq!['_', 'C', 'A', 'L', 'L'];
    let ptr = seq!['_', 'P', 'T', 'R'];
    let off = seq!['_', 'O', 'F', 'F'];
    let hdr = seq!['_', 'H', 'D', 'R'];
    if has_suffix(name, call) {
        (Kind::Call, name.subrange(0, name.len() - 5))
    } else if has_suffix(name, ptr) {
        (Kind::Pointer, name.subrange(0, name.len() - 4))
    } else if has_suffix(name, off) {
        (Kind::Offset, name.subrange(0, name.len() - 4))
    } else if has_suffix(name, hdr) {
        (Kind::Header, name.subrange(0, name.len() - 4))
    } else {
        (Kind::Direct, name)
    }
}

fn ends_with(cs: &Vec<char>, suffix: &Vec<char>) -> (r: bool)
    ensures
        r == has_suffix(cs@, suffix@),
{
    if cs.len() < suffix.len() {
        return false;
    }
    let start = cs.len() - suffix.len();
    let mut i: usize = 0;
    while i < suffix.len()
        invariant
            0 <= i <= suffix@.len(),
            start + suffix.len() == cs.len(),
            forall|t: int| 0 <= t < i ==> cs@[start + t] == suffix@[t],
        decreases suffix@.len() - i,
    {
        if cs[start + i] != suffix[i] {
            assert(cs@.subrange(start as int, cs@.len() as int)[i as int] != suffix@[i as int]);
            return false;
        }
        i = i + 1;
    }
    assert(cs@.subrange(start as int, cs@.len() as int) =~= suffix@);
    true
}

impl Kind {
    pub fn classify(name: &str) -> (r: (Kind, &str))
        ensures
            r.0 == spec_classify(name@).0,
            r.1@ == spec_classify(name@).1,
    {
        let cs = crate::text::chars_of(name);
        let n = cs.len();
        let call: Vec<char> = vec!['_', 'C', 'A', 'L', 'L'];
        let ptr: Vec<char> = vec!['_', 'P', 'T', 'R'];
        let off: Vec<char> = vec!['_', 'O', 'F', 'F'];
        let hdr: Vec<char> = vec!['_', 'H', 'D', 'R'];
        assert(call@ =~= seq!['_', 'C', 'A', 'L', 'L']);
        assert(ptr@ =~= seq!['_', 'P', 'T', 'R']);
        assert(off@ =~= seq!['_', 'O', 'F', 'F']);
        assert(hdr@ =~= seq!['_', 'H', 'D', 'R']);
        if ends_with(&cs, &call) {
            (Kind::Call, name.substring_char(0, n - 5))
        } else if ends_with(&cs, &ptr) {
            (Kind::Pointer, name.substring_char(0, n - 4))
        } else if ends_with(&cs, &off) {
            (Kind::Offset, name.substring_char(0, n - 4))
        } else if ends_with(&cs, &hdr) {
            (Kind::Header, name.substring_char(0, n - 4))
        } else {
            (Kind::Direct, name)
        }
    }
}

/// The lower-case label of each kind.
pub open spec fn spec_kind_label(kind: Kind) -> Seq<char> {
    match kind {
        Kind::Direct => "direct"@,
        Kind::Pointer => "pointer"@,
        Kind::Call => "call"@,
        Kind::Offset => "offset"@,
        Kind::Header => "header"@,
    }
}

pub fn kind_label(kind: Kind) -> (r: &'static str)
    ensures
        r@ == spec_kind_label(kind),
{
    match kind {
        Kind::Direct => "direct",
        Kind::Pointer => "pointer",
        Kind::Call => "call",
        Kind::Offset => "offset",
        Kind::Header => "header",
    }
}

/// The number of distinct `usize` values.
pub open spec fn modulus() -> int {
    usize::MAX as int + 1
}

/// `x` reduced into the `usize` range, as wrapping address arithmetic does.
pub open spec fn wrap(x: int) -> usize {
    (x % modulus()) as usize
}

/// The unsigned little-endian 32-bit value at `at`.
pub open spec fn le_u32(b: Seq<u8>, at: int) -> int {
    b[at] + 256 * b[at + 1] + 65536 * b[at + 2] + 16777216 * b[at + 3]
}

/// The signed little-endian 32-bit value at `at`.
pub open spec fn le_i32(b: Seq<u8>, at: int) -> int {
    let u = le_u32(b, at);
    if u >= 0x8000_0000 {
        u - 0x1_0000_0000
    } else {
        u
    }
}

/// A byte read as a signed 8-bit value.
pub open spec fn i8_of(b: u8) -> int {
    if b >= 0x80 {
        b - 256
    } else {
        b as int
    }
}

proof fn lemma_wrap_small(x: int)
    requires
        0 <= x < modulus(),
    ensures
        wrap(x) == x,
{
    lemma_fundamental_div_mod_converse_mod(x, modulus(), 0, x);
}

proof fn lemma_wrap_high(x: int)
    requires
        modulus() <= x < 2 * modulus(),
    ensures
        wrap(x) == x - modulus(),
{
    lemma_fundamental_div_mod_converse_mod(x, modulus(), 1, x - modulus());
}

proof fn lemma_wrap_low(x: int)
    requires
        -modulus() <= x < 0,
    ensures
        wrap(x) == x + modulus(),
{
    lemma_fundamental_div_mod_converse_mod(x, modulus(), -1, x + modulus());
}

/// Wrapping is insensitive to wrapping an inner sum first.
pub proof fn lemma_wrap_wrap(x: int, y: int)
    ensures
        wrap(wrap(x) + y) == wrap(x + y),
{
    lemma_add_mod_noop_right(y, x, modulus());
    assert(0 <= x % modulus() < modulus()) by {
        vstd::arithmetic::div_mod::lemma_mod_bound(x, modulus());
    }
}

proof fn lemma_wrapping_add(x: usize, y: usize)
    ensures
        usize_specs::wrapping_add(x, y) == wrap(x + y),
{
    if x + y > usize::MAX {
        lemma_wrap_high(x + y);
    } else {
        lemma_wrap_small(x + y);
    }
}

proof fn lemma_wrapping_add_signed(x: usize, y: isize)
    ensures
        usize_specs::wrapping_add_signed(x, y) == wrap(x + y),
{
    assert(isize::MIN as int >= -modulus() && isize::MAX as int <= modulus());
    if x + y > usize::MAX {
        lemma_wrap_high(x + y);
    } else if x + y < 0 {
        lemma_wrap_low(x + y);
    } else {
        lemma_wrap_small(x + y);
    }
}

/// `base + delta`, wrapping: the address `delta` bytes after `base`.
fn offset_addr(base: usize, delta: usize) -> (r: usize)
    ensures
        r == wrap(base + delta),
{
    proof {
        lemma_wrapping_add(base, delta);
    }
    base.wrapping_add(delta)
}

/// The address `len` bytes after `ip`, displaced by `rel`, wrapping.
fn displaced(ip: usize, len: usize, rel: i32) -> (r: usize)
    ensures
        r == wrap(ip + len + rel),
{
    let a = offset_addr(ip, len);
    proof {
        lemma_wrapping_add_signed(a, rel as isize);
        lemma_wrap_wrap(ip + len, rel as int);
    }
    a.wrapping_add_signed(rel as isize)
}

/// The unsigned little-endian 32-bit value at `at`.
fn le32(bytes: &[u8], at: usize) -> (r: u32)
    requires
        at + 4 <= bytes@.len(),
    ensures
        r == le_u32(bytes@, at as int),
{
    (bytes[at] as u32) + (bytes[at + 1] as u32) * 256 + (bytes[at + 2] as u32) * 65536 + (bytes[at
        + 3] as u32) * 16777216
}

/// The signed little-endian 32-bit value at `at`.
fn rel32(bytes: &[u8], at: usize) -> (r: i32)
    requires
        at + 4 <= bytes@.len(),
    ensures
        r == le_i32(bytes@, at as int),
{
    let u = le32(bytes, at);
    if u >= 0x8000_0000 {
        ((u as i64) - 0x1_0000_0000) as i32
    } else {
        u as i32
    }
}

fn rel8(b: u8) -> (r: i32)
    ensures
        r == i8_of(b),
{
    if b >= 0x80 {
        (b as i32) - 256
    } else {
        b as i32
    }
}

/// The target of a relative branch or call starting `b` at address `ip`: `call`/`jmp rel32`, short
/// `jmp rel8`, `jcc rel32` and `jcc rel8`.
pub open spec fn spec_rel_target(b: Seq<u8>, ip: usize) -> Option<usize> {
    if b.len() >= 5 && (b[0] == 0xE8 || b[0] == 0xE9) {
        Some(wrap(ip + 5 + le_i32(b, 1)))
    } else if b.len() >= 2 && b[0] == 0xEB {
        Some(wrap(ip + 2 + i8_of(b[1])))
    } else if b.len() >= 6 && b[0] == 0x0F && 0x80 <= b[1] <= 0x8F {
        Some(wrap(ip + 6 + le_i32(b, 2)))
    } else if b.len() >= 2 && 0x70 <= b[0] <= 0x7F {
        Some(wrap(ip + 2 + i8_of(b[1])))
    } else {
        None
    }
}

pub fn decode_rel_target(bytes: &[u8], ip: usize) -> (r: Option<usize>)
    ensures
        r == spec_rel_target(bytes@, ip),
{
    if bytes.len() >= 5 && (bytes[0] == 0xE8 || bytes[0] == 0xE9) {
        return Some(displaced(ip, 5, rel32(bytes, 1)));
    }
    if bytes.len() >= 2 && bytes[0] == 0xEB {
        return Some(displaced(ip, 2, rel8(bytes[1])));
    }
    if bytes.len() >= 6 && bytes[0] == 0x0F && 0x80 <= bytes[1] && bytes[1] <= 0x8F {
        return Some(displaced(ip, 6, rel32(bytes, 2)));
    }
    if bytes.len() >= 2 && 0x70 <= bytes[0] && bytes[0] <= 0x7F {
        return Some(displaced(ip, 2, rel8(bytes[1])));
    }
    None
}

/// The address an instruction starting `p` at `ip` refers to: a relative branch or call target, a
/// RIP-relative `mov`/`lea` (`48 8B`/`48 8D` with a `[rip+disp32]` operand), a RIP-relative
/// `cmp ..., imm8` (`4x 83 3D`), or a RIP-relative scalar SSE load or arithmetic (`F2 0F 10/58/59/5E 05`).
pub open spec fn spec_pointer_at(p: Seq<u8>, ip: usize) -> Option<usize> {
    match spec_rel_target(p, ip) {
        Some(t) => Some(t),
        None => {
            if p.len() >= 7 && p[0] == 0x48 && p[1] == 0x8B && (p[2] & 0xC7) == 0x05 {
                Some(wrap(ip + 7 + le_i32(p, 3)))
            } else if p.len() >= 7 && p[0] == 0x48 && p[1] == 0x8D && (p[2] & 0xC7) == 0x05 {
                Some(wrap(ip + 7 + le_i32(p, 3)))
            } else if p.len() >= 8 && (p[0] & 0xF8) == 0x40 && p[1] == 0x83 && p[2] == 0x3D {
                Some(wrap(ip + 8 + le_i32(p, 3)))
            } else if p.len() >= 8 && p[0] == 0xF2 && p[1] == 0x0F && (p[2] == 0x10 || p[2] == 0x58
                || p[2] == 0x59 || p[2] == 0x5E) && p[3] == 0x05 {
                Some(wrap(ip + 8 + le_i32(p, 4)))
            } else {
                None
            }
        },
    }
}

/// The first address that an instruction starting at offset `i` or later of `data` refers to.
pub open spec fn spec_pointer_from(data: Seq<u8>, addr: usize, i: int) -> Option<usize>
    decreases data.len() - i,
{
    if i < 0 || i >= data.len() {
        None
    } else {
        match spec_pointer_at(data.subrange(i, data.len() as int), wrap(addr + i)) {
            Some(t) => Some(t),
            None => spec_pointer_from(data, addr, i + 1),
        }
    }
}

/// The address the matched bytes refer to, scanning forward from the match for the first
/// instruction that carries one; at least two bytes are needed.
pub open spec fn spec_extract_pointer(data: Seq<u8>, addr: usize) -> Option<usize> {
    if data.len() < 2 {
        None
    } else {
        spec_pointer_from(data, addr, 0)
    }
}

fn pointer_at(data: &[u8], i: usize, ip: usize) -> (r: Option<usize>)
    requires
        i < data@.len(),
    ensures
        r == spec_pointer_at(data@.subrange(i as int, data@.len() as int), ip),
{
    let ghost p = data@.subrange(i as int, data@.len() as int);
    let n = data.len() - i;
    let rel = decode_rel_target(slice_subrange(data, i, data.len()), ip);
    if rel.is_some() {
        return rel;
    }
    if n >= 7 && data[i] == 0x48 && data[i + 1] == 0x8B && (data[i + 2] & 0xC7) == 0x05 {
        assert(le_i32(p, 3) == le_i32(data@, i + 3));
        return Some(displaced(ip, 7, rel32(data, i + 3)));
    }
    if n >= 7 && data[i] == 0x48 && data[i + 1] == 0x8D && (data[i + 2] & 0xC7) == 0x05 {
        assert(le_i32(p, 3) == le_i32(data@, i + 3));
        return Some(displaced(ip, 7, rel32(data, i + 3)));
    }
    if n >= 8 && (data[i] & 0xF8) == 0x40 && data[i + 1] == 0x83 && data[i + 2] == 0x3D {
        assert(le_i32(p, 3) == le_i32(data@, i + 3));
        return Some(displaced(ip, 8, rel32(data, i + 3)));
    }
    if n >= 8 && data[i] == 0xF2 && data[i + 1] == 0x0F && (data[i + 2] == 0x10 || data[i + 2]
        == 0x58 || data[i + 2] == 0x59 || data[i + 2] == 0x5E) && data[i + 3] == 0x05 {
        assert(le_i32(p, 4) == le_i32(data@, i + 4));
        return Some(displaced(ip, 8, rel32(data, i + 4)));
    }
    None
}

pub fn extract_pointer(data: &[u8], instr_addr: usize) -> (r: Option<usize>)
    ensures
        r == spec_extract_pointer(data@, instr_addr),
{
    if data.len() < 2 {
        return None;
    }
    let mut i: usize = 0;
    while i < data.len()
        invariant
            0 <= i <= data@.len(),
            data@.len() >= 2,
            spec_extract_pointer(data@, instr_addr) == spec_pointer_from(data@, instr_addr, i as int),
        decreases data@.len() - i,
    {
        let ip = offset_addr(instr_addr, i);
        let t = pointer_at(data, i, ip);
        if t.is_some() {
            return t;
        }
        i = i + 1;
    }
    None
}

/// The struct member displacement of a `REX.W mov r64, [reg+disp]` starting `p`: the 8-bit
/// displacement (mod 01) or the 32-bit one (mod 10), taken unsigned.
pub open spec fn spec_offset_at(p: Seq<u8>) -> Option<u32> {
    if p.len() >= 4 && (p[0] & 0xF0) == 0x40 && (p[0] & 0x08) != 0 && p[1] == 0x8B {
        if (p[2] >> 6u8) == 1 {
            Some(p[3] as u32)
        } else if (p[2] >> 6u8) == 2 && p.len() >= 7 {
            Some(le_u32(p, 3) as u32)
        } else {
            None
        }
    } else {
        None
    }
}

/// The first displacement found at offsets `off..=last` of `data`.
pub open spec fn spec_offset_from(data: Seq<u8>, off: int, last: int) -> Option<u32>
    decreases last + 1 - off,
{
    if off < 0 || off > last || off > data.len() {
        None
    } else {
        match spec_offset_at(data.subrange(off, data.len() as int)) {
            Some(v) => Some(v),
            None => spec_offset_from(data, off + 1, last),
        }
    }
}

/// The first displacement found at an offset of at most `max_scan` into `data` that still leaves
/// four bytes to read.
pub open spec fn spec_extract_offset(data: Seq<u8>, max_scan: usize) -> Option<u32> {
    if data.len() < 4 {
        None
    } else {
        spec_offset_from(
            data,
            0,
            if max_scan < data.len() - 4 {
                max_scan as int
            } else {
                data.len() - 4
            },
        )
    }
}

pub fn extract_offset(data: &[u8], max_scan: usize) -> (r: Option<u32>)
    ensures
        r == spec_extract_offset(data@, max_scan),
{
    let n = data.len();
    if n < 4 {
        return None;
    }
    let last: usize = if max_scan < n - 4 {
        max_scan
    } else {
        n - 4
    };
    let mut off: usize = 0;
    while off <= last
        invariant
            0 <= off <= last + 1,
            last + 4 <= n == data@.len(),
            spec_extract_offset(data@, max_scan) == spec_offset_from(
                data@,
                off as int,
                last as int,
            ),
        decreases last + 1 - off,
    {
        let ghost p = data@.subrange(off as int, n as int);
        let rex = data[off];
        if (rex & 0xF0) == 0x40 && (rex & 0x08) != 0 && data[off + 1] == 0x8B {
            let m = data[off + 2] >> 6u8;
            if m == 1 {
                return Some(data[off + 3] as u32);
            } else if m == 2 && n - off >= 7 {
                assert(le_u32(p, 3) == le_u32(data@, off + 3));
                return Some(le32(data, off + 3));
            }
        }
        off = off + 1;
    }
    None
}

/// The immediate carried by the instruction at the start of `p`, as encoded, where it is one that
/// loads a constant: `push imm32` (`68`), `push imm8` (`6A`), `mov r32, imm32` (`B8`..`BF`), or
/// the same move into `r8d`..`r15d` (`41 B8`..`41 BF`).
pub open spec fn spec_imm_at(p: Seq<u8>) -> Option<u32> {
    if p.len() >= 5 && p[0] == 0x68 {
        Some(le_u32(p, 1) as u32)
    } else if p.len() >= 2 && p[0] == 0x6A {
        Some(p[1] as u32)
    } else if p.len() >= 5 && 0xB8 <= p[0] <= 0xBF {
        Some(le_u32(p, 1) as u32)
    } else if p.len() >= 6 && p[0] == 0x41 && 0xB8 <= p[1] <= 0xBF {
        Some(le_u32(p, 2) as u32)
    } else {
        None
    }
}

/// The first immediate found at offset `off` of `data` or later.
pub open spec fn spec_imm_from(data: Seq<u8>, off: int) -> Option<u32>
    decreases data.len() - off,
{
    if off < 0 || off >= data.len() {
        None
    } else {
        match spec_imm_at(data.subrange(off, data.len() as int)) {
            Some(v) => Some(v),
            None => spec_imm_from(data, off + 1),
        }
    }
}

/// The first immediate operand in `data`, scanning from its start.
pub open spec fn spec_extract_immediate(data: Seq<u8>) -> Option<u32> {
    spec_imm_from(data, 0)
}

/// Find the first instruction in `data` that loads a constant, and give the constant.
pub fn extract_immediate(data: &[u8]) -> (r: Option<u32>)
    ensures
        r == spec_extract_immediate(data@),
{
    let n = data.len();
    let mut off: usize = 0;
    while off < n
        invariant
            0 <= off <= n == data@.len(),
            spec_extract_immediate(data@) == spec_imm_from(data@, off as int),
        decreases n - off,
    {
        let ghost p = data@.subrange(off as int, n as int);
        let b = data[off];
        let left = n - off;
        if left >= 5 && b == 0x68 {
            assert(le_u32(p, 1) == le_u32(data@, off + 1));
            return Some(le32(data, off + 1));
        } else if left >= 2 && b == 0x6A {
            return Some(data[off + 1] as u32);
        } else if left >= 5 && 0xB8 <= b && b <= 0xBF {
            assert(le_u32(p, 1) == le_u32(data@, off + 1));
            return Some(le32(data, off + 1));
        } else if left >= 6 && b == 0x41 && 0xB8 <= data[off + 1] && data[off + 1] <= 0xBF {
            assert(le_u32(p, 2) == le_u32(data@, off + 2));
            return Some(le32(data, off + 2));
        }
        off = off + 1;
    }
    None
}

/// The first `call rel32` (`E8`) of `window` that fits, at or after `i`, chased from `target`: its
/// destination, or `target` itself when the window holds none.
pub open spec fn spec_nested_from(target: usize, window: Seq<u8>, i: int) -> usize
    decreases window.len() - i,
{
    if i < 0 || i + 5 > window.len() {
        target
    } else if window[i] == 0xE8 {
        wrap(target + i + 5 + le_i32(window, i + 1))
    } else {
        spec_nested_from(target, window, i + 1)
    }
}

/// Where a call to `target` leads, given the bytes `window` read at `target`: the first nested
/// direct call's destination, or `target`.
pub fn nested_call_target(target: usize, window: &[u8]) -> (r: usize)
    ensures
        r == spec_nested_from(target, window@, 0),
{
    let mut i: usize = 0;
    while i < window.len() && window.len() - i >= 5
        invariant
            0 <= i <= window@.len(),
            spec_nested_from(target, window@, 0) == spec_nested_from(target, window@, i as int),
        decreases window@.len() - i,
    {
        if window[i] == 0xE8 {
            let a = offset_addr(target, i);
            proof {
                lemma_wrap_wrap(target + i, 5 + le_i32(window@, i + 1));
            }
            return displaced(a, 5, rel32(window, i + 1));
        }
        i = i + 1;
    }
    target
}

/// Where a call to `target` leads once `r` and `after` came back from reading 0x100 bytes there:
/// the first nested call among the bytes read, or `target`; nothing when the read failed.
pub open spec fn window_target(target: usize, r: std::io::Result<usize>, after: Seq<u8>) -> Option<
    usize,
> {
    match r {
        Ok(n) => Some(spec_nested_from(target, after.take(n as int), 0)),
        Err(_) => None,
    }
}

/// `res` is what following a call to `target` gives, for a read of 0x100 bytes there that
/// `source` may answer.
pub open spec fn call_from<S: MemorySource>(source: &S, target: usize, res: Option<usize>) -> bool {
    exists|r: std::io::Result<usize>, after: Seq<u8>|
        #[trigger] source.reads(target, zeros(0x100), r, after) && res == window_target(
            target,
            r,
            after,
        )
}

/// `res` is what resolving a call matched at `match_addr` gives: the displacement from the
/// matched bytes when they hold five, else from a 4-byte read after the opcode, which must read
/// all four; then the callee is followed as `call_from` says. A failed or short displacement read
/// gives nothing.
pub open spec fn call_resolves<S: MemorySource>(
    source: &S,
    match_addr: usize,
    matched: Seq<u8>,
    res: Option<usize>,
) -> bool {
    if matched.len() >= 5 {
        call_from(source, wrap(match_addr + 5 + le_i32(matched, 1)), res)
    } else {
        exists|r: std::io::Result<usize>, after: Seq<u8>|
            #[trigger] source.reads((match_addr + 1) as usize, zeros(4), r, after) && match r {
                Ok(n) => if n >= 4 {
                    call_from(source, wrap(match_addr + 5 + le_i32(after, 0)), res)
                } else {
                    res is None
                },
                Err(_) => res is None,
            }
    }
}

/// Read 0x100 bytes at `target` and follow the first nested call among them.
fn follow_call<S: MemorySource>(source: &S, target: usize) -> (r: Option<usize>)
    ensures
        call_from(source, target, r),
{
    let mut buf: Vec<u8> = vec![0u8; 0x100];
    assert(buf@ =~= zeros(0x100));
    let got = source.read_into(target, buf.as_mut_slice());
    let ghost rr = got;
    let ghost after = buf@;
    let read = match got {
        Ok(n) => n,
        Err(_) => {
            assert(source.reads(target, zeros(0x100), rr, after));
            return None;
        },
    };
    let window = slice_subrange(buf.as_slice(), 0, read);
    let t = nested_call_target(target, window);
    assert(window@ =~= after.take(read as int));
    assert(source.reads(target, zeros(0x100), rr, after));
    Some(t)
}

/// The callee of a `call rel32` matched at `match_addr`, with one nested direct call followed: the
/// 32-bit displacement comes from the matched bytes when they hold it, otherwise from the source;
/// then up to 0x100 bytes are read at the callee and the first `E8` in them is chased. `None` when
/// a read fails or the displacement cannot be read whole.
pub fn resolve_call<S: MemorySource>(source: &S, match_addr: usize, matched: &[u8]) -> (r: Option<
    usize,
>)
    requires
        matched@.len() >= 5 || match_addr < usize::MAX,
    ensures
        call_resolves(source, match_addr, matched@, r),
{
    if matched.len() >= 5 {
        let target = displaced(match_addr, 5, rel32(matched, 1));
        return follow_call(source, target);
    }
    let mut four: Vec<u8> = vec![0u8; 4];
    assert(four@ =~= zeros(4));
    let got = source.read_into(match_addr + 1, four.as_mut_slice());
    let ghost rr = got;
    let ghost after = four@;
    assert(source.reads((match_addr + 1) as usize, zeros(4), rr, after));
    match got {
        Ok(n) => {
            if n < 4 {
                return None;
            }
        },
        Err(_) => {
            return None;
        },
    }
    let target = displaced(match_addr, 5, rel32(four.as_slice(), 0));
    follow_call(source, target)
}

proof fn lemma_wrapping_sub(x: usize, y: usize)
    ensures
        usize_specs::wrapping_sub(x, y) == wrap(x - y),
{
    if x >= y {
        lemma_wrap_small(x - y);
    } else {
        lemma_wrap_low(x - y);
    }
}

/// The module-relative address of `addr` for a module at `base`, wrapping below the base.
pub open spec fn rva_of(addr: usize, base: usize) -> u64 {
    wrap(addr - base) as u64
}

pub fn rva(addr: usize, base: usize) -> (r: u64)
    ensures
        r == rva_of(addr, base),
{
    proof {
        lemma_wrapping_sub(addr, base);
    }
    addr.wrapping_sub(base) as u64
}

/// A name given a resolve suffix classifies as that suffix's kind, with the name it was given
/// back as the base name.
pub proof fn lemma_classify_suffix(name: Seq<char>)
    ensures
        spec_classify(name + seq!['_', 'C', 'A', 'L', 'L']) == (Kind::Call, name),
        spec_classify(name + seq!['_', 'P', 'T', 'R']) == (Kind::Pointer, name),
        spec_classify(name + seq!['_', 'O', 'F', 'F']) == (Kind::Offset, name),
        spec_classify(name + seq!['_', 'H', 'D', 'R']) == (Kind::Header, name),
{
    let call = seq!['_', 'C', 'A', 'L', 'L'];
    let ptr = seq!['_', 'P', 'T', 'R'];
    let off = seq!['_', 'O', 'F', 'F'];
    let c = name + call;
    let p = name + ptr;
    let o = name + off;
    assert(c.subrange(c.len() - 5, c.len() as int) =~= call);
    assert(c.subrange(0, c.len() - 5) =~= name);
    assert(p.subrange(p.len() - 4, p.len() as int) =~= ptr);
    assert(p.subrange(0, p.len() - 4) =~= name);
    assert(!has_suffix(p, call)) by {
        if has_suffix(p, call) {
            assert(p.subrange(p.len() - 5, p.len() as int)[4] == p[p.len() - 1]);
        }
    }
    assert(o.subrange(o.len() - 4, o.len() as int) =~= off);
    assert(o.subrange(0, o.len() - 4) =~= name);
    assert(!has_suffix(o, call)) by {
        if has_suffix(o, call) {
            assert(o.subrange(o.len() - 5, o.len() as int)[4] == o[o.len() - 1]);
        }
    }
    assert(!has_suffix(o, ptr)) by {
        if has_suffix(o, ptr) {
            assert(o.subrange(o.len() - 4, o.len() as int)[3] == o[o.len() - 1]);
        }
    }
    let hdr = seq!['_', 'H', 'D', 'R'];
    let h = name + hdr;
    assert(h.subrange(h.len() - 4, h.len() as int) =~= hdr);
    assert(h.subrange(0, h.len() - 4) =~= name);
    assert(!has_suffix(h, call)) by {
        if has_suffix(h, call) {
            assert(h.subrange(h.len() - 5, h.len() as int)[4] == h[h.len() - 1]);
        }
    }
    assert(!has_suffix(h, ptr)) by {
        if has_suffix(h, ptr) {
            assert(h.subrange(h.len() - 4, h.len() as int)[2] == h[h.len() - 2]);
        }
    }
    assert(!has_suffix(h, off)) by {
        if has_suffix(h, off) {
            assert(h.subrange(h.len() - 4, h.len() as int)[3] == h[h.len() - 1]);
        }
    }
}

/// Four bytes read as a little-endian two's-complement 32-bit integer: the low three bytes
/// unsigned, the top byte signed.
pub open spec fn signed_le32(b0: u8, b1: u8, b2: u8, b3: u8) -> int {
    b0 + 256 * b1 + 65536 * b2 + 16777216 * (if b3 >= 0x80 {
        b3 - 256
    } else {
        b3 as int
    })
}

/// A byte as a two's-complement 8-bit integer: `0x80` and above count down from `-128`.
pub open spec fn signed_byte(x: u8) -> int {
    if x < 0x80 {
        x as int
    } else {
        x - 256
    }
}

proof fn lemma_le_i32_signed(b: Seq<u8>, at: int)
    ensures
        le_i32(b, at) == signed_le32(b[at], b[at + 1], b[at + 2], b[at + 3]),
{
}

/// A `call rel32` matched whole resolves through its callee `match_addr + 5 + d`, wrapping, where
/// `d` is the matched bytes 1..5 as a signed little-endian 32-bit displacement (a displacement
/// with its top bit set calls backwards). A shorter match takes `d` the same way from the four
/// bytes read after the opcode, and resolves to nothing when that read fails or comes back short.
pub proof fn lemma_call_callee_signed<S: MemorySource>(
    source: &S,
    match_addr: usize,
    matched: Seq<u8>,
    res: Option<usize>,
)
    ensures
        matched.len() >= 5 ==> (call_resolves(source, match_addr, matched, res) <==> call_from(
            source,
            wrap(match_addr + 5 + signed_le32(matched[1], matched[2], matched[3], matched[4])),
            res,
        )),
        matched.len() < 5 ==> (call_resolves(source, match_addr, matched, res) <==> exists|
            r: std::io::Result<usize>,
            after: Seq<u8>,
        |
            #[trigger] source.reads((match_addr + 1) as usize, zeros(4), r, after) && match r {
                Ok(n) => if n >= 4 {
                    call_from(
                        source,
                        wrap(match_addr + 5 + signed_le32(after[0], after[1], after[2], after[3])),
                        res,
                    )
                } else {
                    res is None
                },
                Err(_) => res is None,
            }),
{
    if matched.len() >= 5 {
        lemma_le_i32_signed(matched, 1);
    } else {
        assert forall|after: Seq<u8>|
            #[trigger] le_i32(after, 0) == signed_le32(after[0], after[1], after[2], after[3]) by {
            lemma_le_i32_signed(after, 0);
        }
    }
}

/// The relative branches and calls: `call`/`jmp rel32` (`E8`/`E9`) at `ip` go to
/// `ip + 5 + d`, a near `jcc rel32` (`0F 80`..`0F 8F`) to `ip + 6 + d`, with `d` the signed
/// little-endian displacement; a short `jmp` (`EB`) and a short `jcc` (`70`..`7F`) go to
/// `ip + 2 + x` with `x` the signed byte after the opcode, so that `x >= 0x80` jumps backwards,
/// and a short `jcc` goes where a short `jmp` with the same byte goes. All wrap.
pub proof fn lemma_rel_targets(b: Seq<u8>, ip: usize)
    ensures
        b.len() >= 5 && (b[0] == 0xE8 || b[0] == 0xE9) ==> spec_rel_target(b, ip) == Some(
            wrap(ip + 5 + signed_le32(b[1], b[2], b[3], b[4])),
        ),
        b.len() >= 2 && (b[0] == 0xEB || 0x70 <= b[0] <= 0x7F) ==> spec_rel_target(b, ip) == Some(
            wrap(ip + 2 + signed_byte(b[1])),
        ),
        b.len() >= 2 && 0x70 <= b[0] <= 0x7F && b[1] >= 0x80 ==> spec_rel_target(b, ip) == Some(
            wrap(ip + b[1] - 254),
        ),
        b.len() >= 2 && 0x70 <= b[0] <= 0x7F ==> spec_rel_target(b, ip) == spec_rel_target(
            seq![0xEBu8, b[1]],
            ip,
        ),
        b.len() >= 6 && b[0] == 0x0F && 0x80 <= b[1] <= 0x8F ==> spec_rel_target(b, ip) == Some(
            wrap(ip + 6 + signed_le32(b[2], b[3], b[4], b[5])),
        ),
{
    if b.len() >= 5 {
        lemma_le_i32_signed(b, 1);
    }
    if b.len() >= 6 {
        lemma_le_i32_signed(b, 2);
    }
}

/// A pointer match that starts with a relative branch resolves to that branch's target: a short
/// conditional jump `70`..`7F x` at `addr` gives `addr + 2 + x`, `x` signed.
pub proof fn lemma_pointer_starts_with_branch(data: Seq<u8>, addr: usize)
    ensures
        data.len() >= 2 && spec_rel_target(data, addr) is Some ==> spec_extract_pointer(data, addr)
            == spec_rel_target(data, addr),
        data.len() >= 2 && 0x70 <= data[0] <= 0x7F ==> spec_extract_pointer(data, addr) == Some(
            wrap(addr + 2 + signed_byte(data[1])),
        ),
{
    if data.len() >= 2 {
        lemma_wrap_small(addr as int);
        assert(data.subrange(0, data.len() as int) =~= data);
        lemma_rel_targets(data, addr);
    }
}

proof fn lemma_rex_w(r: u8)
    requires
        0x48 <= r <= 0x4F,
    ensures
        (r & 0xF0) == 0x40 && (r & 0x08) != 0,
{
    assert(0x48 <= r <= 0x4F ==> (r & 0xF0) == 0x40 && (r & 0x08) != 0) by (bit_vector);
}

proof fn lemma_modrm_mod(m: u8)
    ensures
        0x40 <= m < 0x80 ==> (m >> 6u8) == 1,
        0x80 <= m < 0xC0 ==> (m >> 6u8) == 2,
{
    assert(0x40 <= m < 0x80 ==> (m >> 6u8) == 1) by (bit_vector);
    assert(0x80 <= m < 0xC0 ==> (m >> 6u8) == 2) by (bit_vector);
}

/// An offset match that starts with `mov r64, [reg+disp]` under any REX.W prefix (`48`..`4F`,
/// whatever its R, X and B bits) gives the displacement: the byte after the ModRM byte for
/// mod 01 (`40`..`7F`), the four bytes after it, little-endian and unsigned, for mod 10
/// (`80`..`BF`); the scan window does not matter, since the match itself is looked at first.
pub proof fn lemma_offset_any_rex_w(data: Seq<u8>, max_scan: usize)
    ensures
        data.len() >= 4 && 0x48 <= data[0] <= 0x4F && data[1] == 0x8B && 0x40 <= data[2] < 0x80
            ==> spec_extract_offset(data, max_scan) == Some(data[3] as u32),
        data.len() >= 7 && 0x48 <= data[0] <= 0x4F && data[1] == 0x8B && 0x80 <= data[2] < 0xC0
            ==> spec_extract_offset(data, max_scan) == Some(
            (data[3] + 256 * data[4] + 65536 * data[5] + 16777216 * data[6]) as u32,
        ),
{
    if data.len() >= 4 && 0x48 <= data[0] <= 0x4F && data[1] == 0x8B {
        lemma_rex_w(data[0]);
        lemma_modrm_mod(data[2]);
        assert(data.subrange(0, data.len() as int) =~= data);
        let last: int = if max_scan < data.len() - 4 {
            max_scan as int
        } else {
            data.len() - 4
        };
        assert(spec_extract_offset(data, max_scan) == spec_offset_from(data, 0, last));
    }
}

/// An immediate match that starts with a constant load gives the constant: `mov r32, imm32` for
/// every register (`B8`..`BF`) and `push imm32` (`68`) give the four bytes after the opcode,
/// little-endian; `push imm8` (`6A`) the byte after it; `41 B8`..`41 BF` the four bytes after
/// those two.
pub proof fn lemma_immediate_forms(data: Seq<u8>)
    ensures
        data.len() >= 5 && (0xB8 <= data[0] <= 0xBF || data[0] == 0x68)
            ==> spec_extract_immediate(data) == Some(
            (data[1] + 256 * data[2] + 65536 * data[3] + 16777216 * data[4]) as u32,
        ),
        data.len() >= 2 && data[0] == 0x6A ==> spec_extract_immediate(data) == Some(
            data[1] as u32,
        ),
        data.len() >= 6 && data[0] == 0x41 && 0xB8 <= data[1] <= 0xBF
            ==> spec_extract_immediate(data) == Some(
            (data[2] + 256 * data[3] + 65536 * data[4] + 16777216 * data[5]) as u32,
        ),
{
    if data.len() > 0 {
        assert(data.subrange(0, data.len() as int) =~= data);
    }
}

proof fn lemma_nested_first(target: usize, w: Seq<u8>, k: int, i: int)
    requires
        0 <= k <= i,
        i + 5 <= w.len(),
        w[i] == 0xE8,
        forall|j: int| k <= j < i ==> w[j] != 0xE8,
    ensures
        spec_nested_from(target, w, k) == wrap(target + i + 5 + le_i32(w, i + 1)),
    decreases i - k,
{
    if k < i {
        lemma_nested_first(target, w, k + 1, i);
    }
}

proof fn lemma_nested_none(target: usize, w: Seq<u8>, k: int)
    requires
        0 <= k,
        forall|j: int| k <= j && j + 5 <= w.len() ==> w[j] != 0xE8,
    ensures
        spec_nested_from(target, w, k) == target,
    decreases w.len() - k,
{
    if k + 5 <= w.len() {
        lemma_nested_none(target, w, k + 1);
    }
}

/// Following a call into the bytes `w` read at its callee `target`: when an `E8` at `i` is the
/// first one that still has four displacement bytes after it, the call leads to
/// `target + i + 5 + d`, wrapping, with `d` those four bytes as a signed little-endian integer;
/// when no `E8` has room for its displacement, the callee itself is where the call leads.
pub proof fn lemma_nested_call(target: usize, w: Seq<u8>, i: int)
    ensures
        0 <= i && i + 5 <= w.len() && w[i] == 0xE8 && (forall|j: int| 0 <= j < i ==> w[j] != 0xE8)
            ==> spec_nested_from(target, w, 0) == wrap(
            target + i + 5 + signed_le32(w[i + 1], w[i + 2], w[i + 3], w[i + 4]),
        ),
        (forall|j: int| 0 <= j && j + 5 <= w.len() ==> w[j] != 0xE8) ==> spec_nested_from(
            target,
            w,
            0,
        ) == target,
{
    if 0 <= i && i + 5 <= w.len() && w[i] == 0xE8 && (forall|j: int| 0 <= j < i ==> w[j] != 0xE8) {
        lemma_nested_first(target, w, 0, i);
        lemma_le_i32_signed(w, i + 1);
    }
    if forall|j: int| 0 <= j && j + 5 <= w.len() ==> w[j] != 0xE8 {
        lemma_nested_none(target, w, 0);
    }
}

proof fn lemma_imm_first(data: Seq<u8>, k: int, i: int)
    requires
        0 <= k <= i < data.len(),
        forall|j: int| k <= j < i ==> spec_imm_at(#[trigger] data.subrange(j, data.len() as int)) is None,
    ensures
        spec_imm_from(data, k) == spec_imm_from(data, i),
    decreases i - k,
{
    if k < i {
        lemma_imm_first(data, k + 1, i);
    }
}

proof fn lemma_imm_shift(data: Seq<u8>, i: int, k: int)
    requires
        0 <= i <= data.len(),
        0 <= k,
    ensures
        spec_imm_from(data, i + k) == spec_imm_from(data.subrange(i, data.len() as int), k),
    decreases data.len() - i - k,
{
    let t = data.subrange(i, data.len() as int);
    if i + k < data.len() {
        assert(t.subrange(k, t.len() as int) =~= data.subrange(i + k, data.len() as int));
        lemma_imm_shift(data, i, k + 1);
    }
}

/// The immediate scan takes the first constant load in the match: when no offset before `i` starts
/// one, what the match gives is what the bytes from `i` on give.
pub proof fn lemma_immediate_first(data: Seq<u8>, i: int)
    ensures
        0 <= i < data.len() && (forall|j: int|
            0 <= j < i ==> spec_extract_immediate(#[trigger] data.subrange(j, data.len() as int))
                is None) ==> spec_extract_immediate(data) == spec_extract_immediate(
            data.subrange(i, data.len() as int),
        ),
{
    if 0 <= i < data.len() && (forall|j: int|
        0 <= j < i ==> spec_extract_immediate(#[trigger] data.subrange(j, data.len() as int))
            is None) {
        assert forall|j: int| 0 <= j < i implies spec_imm_at(
            #[trigger] data.subrange(j, data.len() as int),
        ) is None by {
            let t = data.subrange(j, data.len() as int);
            assert(t.subrange(0, t.len() as int) =~= t);
            assert(spec_extract_immediate(t) is None);
        }
        lemma_imm_first(data, 0, i);
        lemma_imm_shift(data, i, 0);
    }
}

proof fn lemma_offset_skip(data: Seq<u8>, k: int, i: int, last: int)
    requires
        0 <= k <= i <= last,
        i <= data.len(),
        forall|j: int| k <= j < i ==> spec_offset_at(#[trigger] data.subrange(j, data.len() as int)) is None,
    ensures
        spec_offset_from(data, k, last) == spec_offset_from(data, i, last),
    decreases i - k,
{
    if k < i {
        lemma_offset_skip(data, k + 1, i, last);
    }
}

/// The offset scan takes the first `mov r64, [reg+disp8]` under a REX.W prefix within the window:
/// when no displacement load starts before offset `i`, `i` is at most `max_scan`, and one starts at
/// `i` (any of `48`..`4F`, then `8B`, a mod-01 ModRM byte and the displacement), the match gives
/// that displacement.
pub proof fn lemma_offset_first(data: Seq<u8>, max_scan: usize, i: int)
    ensures
        0 <= i <= max_scan && i + 4 <= data.len() && 0x48 <= data[i] <= 0x4F && data[i + 1] == 0x8B
            && 0x40 <= data[i + 2] < 0x80 && (forall|j: int|
            0 <= j < i ==> spec_offset_at(#[trigger] data.subrange(j, data.len() as int)) is None)
            ==> spec_extract_offset(data, max_scan) == Some(data[i + 3] as u32),
{
    if 0 <= i <= max_scan && i + 4 <= data.len() && 0x48 <= data[i] <= 0x4F && data[i + 1] == 0x8B
        && 0x40 <= data[i + 2] < 0x80 && (forall|j: int|
        0 <= j < i ==> spec_offset_at(#[trigger] data.subrange(j, data.len() as int)) is None) {
        let last: int = if max_scan < data.len() - 4 {
            max_scan as int
        } else {
            data.len() - 4
        };
        lemma_offset_skip(data, 0, i, last);
        let t = data.subrange(i, data.len() as int);
        lemma_rex_w(t[0]);
        lemma_modrm_mod(t[2]);
    }
}

proof fn lemma_pointer_skip(data: Seq<u8>, addr: usize, k: int, i: int)
    requires
        0 <= k <= i <= data.len(),
        forall|j: int|
            k <= j < i ==> spec_pointer_at(#[trigger] data.subrange(j, data.len() as int), wrap(addr + j))
                is None,
    ensures
        spec_pointer_from(data, addr, k) == spec_pointer_from(data, addr, i),
    decreases i - k,
{
    if k < i {
        lemma_pointer_skip(data, addr, k + 1, i);
    }
}

/// The pointer scan takes the first instruction that refers to an address: when none starts
/// before offset `i` and a relative branch or call starts at `i`, the match gives that branch's
/// target, computed at address `addr + i`.
pub proof fn lemma_pointer_first(data: Seq<u8>, addr: usize, i: int)
    ensures
        data.len() >= 2 && 0 <= i < data.len() && (forall|j: int|
            0 <= j < i ==> spec_pointer_at(
                #[trigger] data.subrange(j, data.len() as int),
                wrap(addr + j),
            ) is None) && spec_rel_target(data.subrange(i, data.len() as int), wrap(addr + i))
            is Some ==> spec_extract_pointer(data, addr) == spec_rel_target(
            data.subrange(i, data.len() as int),
            wrap(addr + i),
        ),
{
    if data.len() >= 2 && 0 <= i < data.len() && (forall|j: int|
        0 <= j < i ==> spec_pointer_at(#[trigger] data.subrange(j, data.len() as int), wrap(addr + j))
            is None) {
        lemma_pointer_skip(data, addr, 0, i);
    }
}

} // verus!
