//! The pieces of a profiling run that are computation rather than timing: how regions are cut
//! into read blocks, how many bytes they hold, and the serial single-threaded match pass.

use std::time::{Duration, Instant};

use vstd::prelude::*;

use crate::memory::{bytes_of, ends_fit, lemma_bytes_of_mono, region_end, Region};
use crate::scanner::{find_all, match_offsets, CompiledPattern};

verus! {

#[verifier::external_type_specification]
#[verifier::external_body]
pub struct ExInstant(std::time::Instant);

/// `Instant::now`: the current time; nothing is stated of it.
#[verifier::external_body]
fn now() -> Instant {
    Instant::now()
}

/// `Instant::elapsed`: the time since `t`; it depends on the clock, so nothing is stated of it.
#[verifier::external_body]
fn elapsed(t: &Instant) -> Duration {
    t.elapsed()
}

/// `Duration::as_millis`: the whole milliseconds of `d`; nothing is stated of it, as every
/// duration here comes from the clock.
#[verifier::external_body]
fn as_millis(d: &Duration) -> u128 {
    d.as_millis()
}

/// Phase-separated timing of a scan against a live target, in milliseconds.
#[derive(Debug, Clone)]
pub struct ProfileReport {
    pub regions: usize,
    pub bytes: u64,
    pub cores: usize,
    pub patterns: usize,
    pub read_ms: Vec<(usize, u128)>,
    pub scan_serial_ms: u128,
    pub matches: usize,
    pub resolve_ms: u128,
    pub call_hits: usize,
    pub full_ms: u128,
    pub chunk_ms: Vec<(usize, u128)>,
}

/// The blocks `[base + off, ..)` of at most `block` bytes that cover `size` bytes from `off` on.
pub open spec fn chunks_from(base: int, size: int, block: int, off: int) -> Seq<(usize, usize)>
    decreases size - off,
{
    if off >= size || block <= 0 {
        Seq::empty()
    } else {
        let len = if block < size - off {
            block
        } else {
            size - off
        };
        seq![((base + off) as usize, len as usize)] + chunks_from(base, size, block, off + len)
    }
}

/// The read blocks of the first `k` regions, region by region.
pub open spec fn sweep_of(regions: Seq<Region>, block: int, k: int) -> Seq<(usize, usize)>
    decreases k,
{
    if k <= 0 {
        Seq::empty()
    } else {
        sweep_of(regions, block, k - 1) + chunks_from(
            regions[k - 1].base as int,
            regions[k - 1].size as int,
            block,
            0,
        )
    }
}

/// Cut each region into consecutive blocks of `block` bytes, the last one of a region shorter,
/// as (address, length) pairs in region order.
pub fn sweep_blocks(regions: &[Region], block: usize) -> (r: Vec<(usize, usize)>)
    requires
        block > 0,
        ends_fit(regions@),
    ensures
        r@ == sweep_of(regions@, block as int, regions@.len() as int),
{
    let mut blocks: Vec<(usize, usize)> = Vec::new();
    let mut k: usize = 0;
    while k < regions.len()
        invariant
            0 <= k <= regions@.len(),
            block > 0,
            ends_fit(regions@),
            blocks@ == sweep_of(regions@, block as int, k as int),
        decreases regions@.len() - k,
    {
        let region = regions[k];
        assert(region_end(regions@[k as int]) <= usize::MAX);
        let ghost start = blocks@;
        let mut off: usize = 0;
        while off < region.size
            invariant
                0 <= off <= region.size,
                block > 0,
                region.base + region.size <= usize::MAX,
                start + chunks_from(region.base as int, region.size as int, block as int, 0)
                    == blocks@ + chunks_from(
                    region.base as int,
                    region.size as int,
                    block as int,
                    off as int,
                ),
            decreases region.size - off,
        {
            let len = if block < region.size - off {
                block
            } else {
                region.size - off
            };
            let ghost before = blocks@;
            blocks.push((region.base + off, len));
            assert(before + chunks_from(region.base as int, region.size as int, block as int, off as int)
                =~= blocks@ + chunks_from(
                region.base as int,
                region.size as int,
                block as int,
                off + len,
            ));
            off = off + len;
        }
        assert(blocks@ + chunks_from(region.base as int, region.size as int, block as int, off as int)
            =~= blocks@);
        k = k + 1;
    }
    blocks
}

/// The number of bytes the regions hold together.
pub fn total_bytes(regions: &[Region]) -> (r: u64)
    requires
        bytes_of(regions@, regions@.len() as int) <= u64::MAX,
    ensures
        r == bytes_of(regions@, regions@.len() as int),
{
    let mut total: u64 = 0;
    let mut k: usize = 0;
    while k < regions.len()
        invariant
            0 <= k <= regions@.len(),
            bytes_of(regions@, regions@.len() as int) <= u64::MAX,
            total == bytes_of(regions@, k as int),
        decreases regions@.len() - k,
    {
        proof {
            lemma_bytes_of_mono(regions@, k + 1, regions@.len() as int);
        }
        total = total + regions[k].size as u64;
        k = k + 1;
    }
    total
}

/// One match found by the serial pass: which buffer, at what offset, for which pattern.
#[derive(Debug, Clone, Copy, PartialEq, Eq, Structural)]
pub struct Probe {
    pub buf: usize,
    pub off: usize,
    pub pat: usize,
}

/// The signature a compiled pattern searches for, if it has one.
pub open spec fn cp_sig(c: Option<CompiledPattern>) -> Option<(Seq<u8>, Seq<bool>)> {
    match c {
        Some(cp) => Some(cp@),
        None => None,
    }
}

/// The matches in buffer `b` (holding `data`) of the first `k` patterns, pattern by pattern,
/// ascending within a pattern.
pub open spec fn buf_probes(
    data: Seq<u8>,
    b: usize,
    sigs: Seq<Option<(Seq<u8>, Seq<bool>)>>,
    k: int,
) -> Seq<Probe>
    decreases k,
{
    if k <= 0 {
        Seq::empty()
    } else {
        buf_probes(data, b, sigs, k - 1) + match sigs[k - 1] {
            Some(sig) => match_offsets(data, sig.0, sig.1, 0).map_values(
                |off: usize| Probe { buf: b, off, pat: (k - 1) as usize },
            ),
            None => Seq::empty(),
        }
    }
}

/// The matches of every pattern in the first `n` buffers, buffer by buffer.
pub open spec fn serial_probes(
    datas: Seq<Seq<u8>>,
    sigs: Seq<Option<(Seq<u8>, Seq<bool>)>>,
    n: int,
) -> Seq<Probe>
    decreases n,
{
    if n <= 0 {
        Seq::empty()
    } else {
        serial_probes(datas, sigs, n - 1) + buf_probes(
            datas[n - 1],
            (n - 1) as usize,
            sigs,
            sigs.len() as int,
        )
    }
}

/// Match every pattern against every buffer on one thread, timing the pass: the milliseconds it
/// took (read off the clock, so not stated) and every match found.
pub fn scan_serial(
    bufs: &[(usize, Vec<u8>)],
    compiled: &[Option<CompiledPattern>],
) -> (r: (u128, Vec<Probe>))
    ensures
        r.1@ == serial_probes(
            bufs@.map_values(|x: (usize, Vec<u8>)| x.1@),
            compiled@.map_values(|c: Option<CompiledPattern>| cp_sig(c)),
            bufs@.len() as int,
        ),
{
    let ghost datas = bufs@.map_values(|x: (usize, Vec<u8>)| x.1@);
    let ghost sigs = compiled@.map_values(|c: Option<CompiledPattern>| cp_sig(c));
    let mut found: Vec<Probe> = Vec::new();
    let t = now();
    let mut b: usize = 0;
    while b < bufs.len()
        invariant
            0 <= b <= bufs@.len(),
            datas == bufs@.map_values(|x: (usize, Vec<u8>)| x.1@),
            sigs == compiled@.map_values(|c: Option<CompiledPattern>| cp_sig(c)),
            found@ == serial_probes(datas, sigs, b as int),
        decreases bufs@.len() - b,
    {
        let data = &bufs[b].1;
        assert(datas[b as int] == data@);
        let ghost start = found@;
        let mut p: usize = 0;
        while p < compiled.len()
            invariant
                0 <= p <= compiled@.len(),
                b < bufs@.len(),
                datas[b as int] == data@,
                sigs == compiled@.map_values(|c: Option<CompiledPattern>| cp_sig(c)),
                found@ == start + buf_probes(data@, b, sigs, p as int),
            decreases compiled@.len() - p,
        {
            let ghost before = found@;
            assert(sigs[p as int] == cp_sig(compiled@[p as int]));
            match &compiled[p] {
                None => {
                    assert(buf_probes(data@, b, sigs, p + 1) =~= buf_probes(data@, b, sigs, p as int));
                },
                Some(cp) => {
                    let ghost these = match_offsets(data@, cp@.0, cp@.1, 0).map_values(
                        |off: usize| Probe { buf: b, off, pat: p },
                    );
                    assert(buf_probes(data@, b, sigs, p + 1) == buf_probes(data@, b, sigs, p as int) + these);
                    if data.len() >= cp.len() {
                        let offs = find_all(data.as_slice(), cp);
                        let mut i: usize = 0;
                        while i < offs.len()
                            invariant
                                0 <= i <= offs@.len(),
                                offs@ == match_offsets(data@, cp@.0, cp@.1, 0),
                                these == offs@.map_values(|off: usize| Probe { buf: b, off, pat: p }),
                                found@ == before + these.take(i as int),
                            decreases offs@.len() - i,
                        {
                            found.push(Probe { buf: b, off: offs[i], pat: p });
                            assert(found@ =~= before + these.take(i + 1));
                            i = i + 1;
                        }
                        assert(these.take(offs@.len() as int) =~= these);
                    } else {
                        assert(match_offsets(data@, cp@.0, cp@.1, 0) =~= Seq::<usize>::empty());
                        assert(these =~= Seq::<Probe>::empty());
                        assert(before + these =~= before);
                    }
                },
            }
            p = p + 1;
        }
        assert(serial_probes(datas, sigs, b + 1) == serial_probes(datas, sigs, b as int)
            + buf_probes(datas[b as int], b, sigs, sigs.len() as int));
        b = b + 1;
    }
    let ms = as_millis(&elapsed(&t));
    (ms, found)
}

} // verus!
