//! The direct-call graph of an image, recovered by decoding: every `E8` byte in a code region is
//! decoded as an instruction, and only a genuine five-byte near call whose target lies in code
//! counts, so an `E8` inside another instruction's operand does not mint a phantom function entry.

use iced_x86::{Decoder, DecoderOptions, FlowControl};
use vstd::prelude::*;
use vstd::slice::slice_subrange;

use crate::engine::read_region;
use crate::memory::{ends_fit, in_region, read_gives, region_end, MemorySource, Region};
use crate::pattern::Arch;

verus! {

/// How control leaves an instruction, one for each of the decoder's kinds.
#[derive(Debug, Clone, Copy, PartialEq, Eq, Structural)]
pub enum FlowKind {
    Next,
    UnconditionalBranch,
    IndirectBranch,
    ConditionalBranch,
    Return,
    Call,
    IndirectCall,
    Interrupt,
    XbeginXabortXend,
    Exception,
}

/// What decoding the first instruction of some bytes tells: whether it is invalid, its length,
/// how control leaves it, and its near branch target (0 when it has none).
#[derive(Debug, Clone, Copy, PartialEq, Eq, Structural)]
pub struct Decoded {
    pub invalid: bool,
    pub len: usize,
    pub flow: FlowKind,
    pub near_target: u64,
}

/// The first instruction a `bits`-bit decode of `bytes` at address `ip` yields.
pub uninterp spec fn decoded_first(bits: u32, bytes: Seq<u8>, ip: u64) -> Decoded;

/// `iced_x86::Decoder::with_ip(bits, bytes, ip, DecoderOptions::NONE)` then `decode`: the
/// first instruction of `bytes`, a function of the bit width, the bytes and the address alone.
/// The decoder is built only for a width it accepts, and with at least one byte to decode.
#[verifier::external_body]
fn decode_first(bits: u32, bytes: &[u8], ip: u64) -> (r: Decoded)
    requires
        bits == 32 || bits == 64,
        bytes@.len() > 0,
    ensures
        r == decoded_first(bits, bytes@, ip),
{
    let instr = Decoder::with_ip(bits, bytes, ip, DecoderOptions::NONE).decode();
    let flow = match instr.flow_control() {
        FlowControl::Next => FlowKind::Next,
        FlowControl::UnconditionalBranch => FlowKind::UnconditionalBranch,
        FlowControl::IndirectBranch => FlowKind::IndirectBranch,
        FlowControl::ConditionalBranch => FlowKind::ConditionalBranch,
        FlowControl::Return => FlowKind::Return,
        FlowControl::Call => FlowKind::Call,
        FlowControl::IndirectCall => FlowKind::IndirectCall,
        FlowControl::Interrupt => FlowKind::Interrupt,
        FlowControl::XbeginXabortXend => FlowKind::XbeginXabortXend,
        FlowControl::Exception => FlowKind::Exception,
    };
    let near_target = instr.near_branch_target();
    Decoded { invalid: instr.is_invalid(), len: instr.len(), flow, near_target }
}

/// The decoder's bit width for an architecture.
pub open spec fn arch_bitness(a: Arch) -> u32 {
    match a {
        Arch::X86 => 32,
        Arch::X64 => 64,
    }
}

/// Some code region holds address `a`.
pub open spec fn in_code(code: Seq<Region>, a: int) -> bool {
    exists|k: int| 0 <= k < code.len() && #[trigger] in_region(code[k], a)
}

/// The target of the call at offset `i` of `buf`, read at `rbase`, when the byte there is `E8`
/// and it decodes as a valid five-byte near call into code.
pub open spec fn call_at(bits: u32, buf: Seq<u8>, rbase: usize, i: int, code: Seq<Region>) -> Option<
    usize,
> {
    if buf[i] != 0xE8 {
        None
    } else {
        let d = decoded_first(bits, buf.subrange(i, buf.len() as int), (rbase + i) as u64);
        if d.invalid || d.len != 5 || d.flow != FlowKind::Call {
            None
        } else if in_code(code, (d.near_target as usize) as int) {
            Some(d.near_target as usize)
        } else {
            None
        }
    }
}

/// The image-relative (site, target) of every call found in `buf` from offset `i` on.
pub open spec fn calls_from(
    bits: u32,
    buf: Seq<u8>,
    rbase: usize,
    image: usize,
    code: Seq<Region>,
    i: int,
) -> Seq<(usize, usize)>
    decreases buf.len() - i,
{
    if i < 0 || i >= buf.len() {
        Seq::empty()
    } else {
        (match call_at(bits, buf, rbase, i, code) {
            Some(t) => seq![((rbase + i - image) as usize, (t - image) as usize)],
            None => Seq::empty(),
        }) + calls_from(bits, buf, rbase, image, code, i + 1)
    }
}

/// The calls of the code regions `code[..k]`, given what was read of each.
pub open spec fn calls_of(
    bits: u32,
    bufs: Seq<Seq<u8>>,
    image: usize,
    code: Seq<Region>,
    k: int,
) -> Seq<(usize, usize)>
    decreases k,
{
    if k <= 0 {
        Seq::empty()
    } else {
        calls_of(bits, bufs, image, code, k - 1) + calls_from(
            bits,
            bufs[k - 1],
            code[k - 1].base,
            image,
            code,
            0,
        )
    }
}

/// Ascending without repeats.
pub open spec fn strictly_ascending(s: Seq<usize>) -> bool {
    forall|i: int, j: int| 0 <= i < j < s.len() ==> s[i] < s[j]
}

/// One decode-verified direct call: the call site and the function entry it targets, both
/// image-relative.
#[derive(Debug, Clone, Copy, PartialEq, Eq, Structural)]
pub struct CallEdge {
    pub site: usize,
    pub target: usize,
}

/// The decode-verified direct-call graph of one image.
pub struct AnalysisModel {
    edges: Vec<CallEdge>,
    entries: Vec<usize>,
}

impl AnalysisModel {
    /// The calls, in region order and ascending within a region.
    pub closed spec fn edges(&self) -> Seq<(usize, usize)> {
        self.edges@.map_values(|e: CallEdge| (e.site, e.target))
    }

    /// The function entries.
    pub closed spec fn entry_seq(&self) -> Seq<usize> {
        self.entries@
    }
}

/// `calls_of` over the first `k` buffers ignores buffers added later.
proof fn lemma_calls_of_frame(
    bits: u32,
    bufs: Seq<Seq<u8>>,
    x: Seq<u8>,
    image: usize,
    code: Seq<Region>,
    k: int,
)
    requires
        0 <= k <= bufs.len(),
    ensures
        calls_of(bits, bufs.push(x), image, code, k) == calls_of(bits, bufs, image, code, k),
    decreases k,
{
    if k > 0 {
        lemma_calls_of_frame(bits, bufs, x, image, code, k - 1);
        assert(bufs.push(x)[k - 1] == bufs[k - 1]);
    }
}

/// Whether some code region holds `a`.
fn in_code_exec(code: &[Region], a: usize) -> (r: bool)
    ensures
        r == in_code(code@, a as int),
{
    let mut k: usize = 0;
    while k < code.len()
        invariant
            0 <= k <= code@.len(),
            forall|j: int| 0 <= j < k ==> !in_region(#[trigger] code@[j], a as int),
        decreases code@.len() - k,
    {
        let r = code[k];
        if r.base <= a && (a as u128) < (r.base as u128) + (r.size as u128) {
            assert(in_region(code@[k as int], a as int));
            return true;
        }
        k = k + 1;
    }
    false
}

/// Insert `t` into the ascending list `v` unless it is already there.
fn insert_sorted(v: &mut Vec<usize>, t: usize)
    requires
        strictly_ascending(old(v)@),
    ensures
        strictly_ascending(final(v)@),
        forall|x: usize| final(v)@.contains(x) <==> (old(v)@.contains(x) || x == t),
{
    let mut i: usize = 0;
    while i < v.len() && v[i] < t
        invariant
            0 <= i <= v@.len(),
            strictly_ascending(v@),
            forall|k: int| 0 <= k < i ==> v@[k] < t,
        decreases v@.len() - i,
    {
        i = i + 1;
    }
    if i < v.len() && v[i] == t {
        return;
    }
    let ghost before = v@;
    v.insert(i, t);
    proof {
        let after = v@;
        assert(after =~= before.subrange(0, i as int).push(t) + before.subrange(
            i as int,
            before.len() as int,
        ));
        assert forall|a: int, b: int| 0 <= a < b < after.len() implies after[a] < after[b] by {
            if b < i {
            } else if b == i {
            } else if a < i {
                assert(after[b] == before[b - 1]);
                assert(before[i as int] > t);
            } else if a == i {
                assert(after[b] == before[b - 1]);
                assert(before[i as int] > t);
            } else {
                assert(after[a] == before[a - 1]);
                assert(after[b] == before[b - 1]);
            }
        }
        assert forall|x: usize| after.contains(x) <==> (before.contains(x) || x == t) by {
            if after.contains(x) {
                let j = choose|j: int| 0 <= j < after.len() && after[j] == x;
                if j < i {
                    assert(before[j] == x);
                } else if j > i {
                    assert(before[j - 1] == x);
                }
            }
            if before.contains(x) {
                let j = choose|j: int| 0 <= j < before.len() && before[j] == x;
                if j < i {
                    assert(after[j] == x);
                } else {
                    assert(after[j + 1] == x);
                }
            }
            if x == t {
                assert(after[i as int] == t);
            }
        }
    }
}

/// The entries are the distinct targets of `edges`, ascending.
pub open spec fn entries_of(entries: Seq<usize>, edges: Seq<(usize, usize)>) -> bool {
    &&& strictly_ascending(entries)
    &&& forall|t: usize|
        entries.contains(t) <==> exists|k: int| 0 <= k < edges.len() && (#[trigger] edges[k]).1 == t
}

/// Adding an edge to `t` and `t` to the entries keeps the entries those of the edges.
proof fn lemma_entries_extend(
    old_entries: Seq<usize>,
    new_entries: Seq<usize>,
    edges: Seq<(usize, usize)>,
    e: (usize, usize),
)
    requires
        entries_of(old_entries, edges),
        strictly_ascending(new_entries),
        forall|x: usize| new_entries.contains(x) <==> (old_entries.contains(x) || x == e.1),
    ensures
        entries_of(new_entries, edges.push(e)),
{
    let more = edges.push(e);
    assert forall|t: usize|
        new_entries.contains(t) <==> exists|q: int| 0 <= q < more.len() && (#[trigger] more[q]).1
            == t by {
        if exists|q: int| 0 <= q < edges.len() && (#[trigger] edges[q]).1 == t {
            let q = choose|q: int| 0 <= q < edges.len() && (#[trigger] edges[q]).1 == t;
            assert(more[q] == edges[q]);
        }
        if exists|q: int| 0 <= q < more.len() && (#[trigger] more[q]).1 == t {
            let q = choose|q: int| 0 <= q < more.len() && (#[trigger] more[q]).1 == t;
            if q < edges.len() {
                assert(edges[q] == more[q]);
            }
        }
        assert(more[edges.len() as int] == e);
    }
}

/// The target of the call at offset `i` of `buf`, read at `rbase`: decode the instruction there
/// when the byte is `E8`, and keep a valid five-byte near call whose target lies in code.
fn call_target(bits: u32, buf: &[u8], i: usize, rbase: usize, code: &[Region]) -> (r: Option<usize>)
    requires
        bits == 32 || bits == 64,
        i < buf@.len(),
        rbase + buf@.len() <= usize::MAX,
    ensures
        r == call_at(bits, buf@, rbase, i as int, code@),
{
    if buf[i] != 0xE8 {
        return None;
    }
    let d = decode_first(bits, slice_subrange(buf, i, buf.len()), (rbase + i) as u64);
    let is_call = match d.flow {
        FlowKind::Call => true,
        _ => false,
    };
    if d.invalid || d.len != 5 || !is_call {
        return None;
    }
    #[verifier::truncate]
    let target = d.near_target as usize;
    if in_code_exec(code, target) {
        Some(target)
    } else {
        None
    }
}

impl AnalysisModel {
    /// Recover the call graph of the image at `image_base`: read each code region, and at every
    /// `E8` byte decode one instruction; a valid five-byte near call whose target lies in a code
    /// region is an edge from its site to its target, both image-relative. The distinct targets,
    /// ascending, are the function entries.
    pub fn build<S: MemorySource>(
        source: &S,
        image_base: usize,
        code_regions: &[Region],
        arch: Arch,
    ) -> (r: Self)
        requires
            ends_fit(code_regions@),
            forall|k: int|
                0 <= k < code_regions@.len() ==> image_base <= (#[trigger] code_regions@[k]).base,
        ensures
            exists|bufs: Seq<Seq<u8>>|
                #![trigger calls_of(arch_bitness(arch), bufs, image_base, code_regions@, code_regions@.len() as int)]
                {
                    &&& bufs.len() == code_regions@.len()
                    &&& forall|k: int|
                        0 <= k < bufs.len() ==> (#[trigger] bufs[k]).len() <= code_regions@[k].size
                    &&& forall|k: int|
                        0 <= k < bufs.len() ==> read_gives(
                            source,
                            code_regions@[k].base,
                            code_regions@[k].size as nat,
                            #[trigger] bufs[k],
                        )
                    &&& r.edges() == calls_of(
                        arch_bitness(arch),
                        bufs,
                        image_base,
                        code_regions@,
                        code_regions@.len() as int,
                    )
                },
            entries_of(r.entry_seq(), r.edges()),
    {
        let bits: u32 = match arch {
            Arch::X86 => 32,
            Arch::X64 => 64,
        };
        let ghost code = code_regions@;
        let mut edges: Vec<CallEdge> = Vec::new();
        let mut entries: Vec<usize> = Vec::new();
        let ghost mut bufs: Seq<Seq<u8>> = Seq::empty();
        let mut k: usize = 0;
        while k < code_regions.len()
            invariant
                0 <= k <= code.len(),
                code == code_regions@,
                bits == arch_bitness(arch),
                ends_fit(code),
                forall|j: int| 0 <= j < code.len() ==> image_base <= (#[trigger] code[j]).base,
                bufs.len() == k,
                forall|j: int| 0 <= j < k ==> (#[trigger] bufs[j]).len() <= code[j].size,
                forall|j: int|
                    0 <= j < k ==> read_gives(source, code[j].base, code[j].size as nat, #[trigger] bufs[j]),
                edges@.map_values(|e: CallEdge| (e.site, e.target)) == calls_of(
                    bits,
                    bufs,
                    image_base,
                    code,
                    k as int,
                ),
                entries_of(entries@, edges@.map_values(|e: CallEdge| (e.site, e.target))),
            decreases code.len() - k,
        {
            let region = code_regions[k];
            let bytes = read_region(source, &region);
            let ghost b = bytes@;
            proof {
                lemma_calls_of_frame(bits, bufs, b, image_base, code, k as int);
                bufs = bufs.push(b);
                assert(region_end(code[k as int]) <= usize::MAX);
            }
            let ghost start = edges@.map_values(|e: CallEdge| (e.site, e.target));
            let mut i: usize = 0;
            while i < bytes.len()
                invariant
                    0 <= i <= b.len(),
                    k < code.len(),
                    code == code_regions@,
                    b == bytes@,
                    b.len() <= region.size,
                    region == code[k as int],
                    region.base + region.size <= usize::MAX,
                    image_base <= region.base,
                    bits == 32 || bits == 64,
                    forall|j: int| 0 <= j < code.len() ==> image_base <= (#[trigger] code[j]).base,
                    start + calls_from(bits, b, region.base, image_base, code, 0)
                        == edges@.map_values(|e: CallEdge| (e.site, e.target)) + calls_from(
                        bits,
                        b,
                        region.base,
                        image_base,
                        code,
                        i as int,
                    ),
                    entries_of(entries@, edges@.map_values(|e: CallEdge| (e.site, e.target))),
                decreases b.len() - i,
            {
                let ghost ev = edges@.map_values(|e: CallEdge| (e.site, e.target));
                let ghost rest = calls_from(bits, b, region.base, image_base, code, i + 1);
                match call_target(bits, bytes.as_slice(), i, region.base, code_regions) {
                    Some(target) => {
                        proof {
                            let kk = choose|kk: int|
                                0 <= kk < code.len() && #[trigger] in_region(code[kk], target as int);
                            assert(image_base <= code[kk].base);
                        }
                        let e = CallEdge { site: region.base + i - image_base, target: target - image_base };
                        let ghost old_entries = entries@;
                        edges.push(e);
                        insert_sorted(&mut entries, target - image_base);
                        proof {
                            let ev2 = edges@.map_values(|e: CallEdge| (e.site, e.target));
                            assert(ev2 =~= ev.push((e.site, e.target)));
                            lemma_entries_extend(old_entries, entries@, ev, (e.site, e.target));
                            assert(ev2 + rest =~= ev + (seq![(e.site, e.target)] + rest));
                        }
                    },
                    None => {
                        assert(ev + rest =~= ev + (Seq::<(usize, usize)>::empty() + rest));
                    },
                }
                i = i + 1;
            }
            proof {
                let whole = calls_from(bits, b, region.base, image_base, code, 0);
                assert(calls_from(bits, b, region.base, image_base, code, i as int)
                    =~= Seq::<(usize, usize)>::empty());
                assert(bufs[k as int] == b);
                assert(calls_of(bits, bufs, image_base, code, k + 1) == calls_of(
                    bits,
                    bufs,
                    image_base,
                    code,
                    k as int,
                ) + whole);
                assert(edges@.map_values(|e: CallEdge| (e.site, e.target)) =~= start + whole);
            }
            k = k + 1;
        }
        AnalysisModel { edges, entries }
    }

    /// The decode-verified function entries: every distinct direct-call target, ascending.
    pub fn entries(&self) -> (r: &[usize])
        ensures
            r@ == self.entry_seq(),
    {
        self.entries.as_slice()
    }
}

} // verus!
