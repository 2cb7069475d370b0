//! The scan: every region searched for every pattern (regions in parallel), each match resolved,
//! and the patterns sorted by outcome; with the bookkeeping around it, the windows whose reads
//! came back short and the advisory that reports them.

use rayon::iter::IntoParallelRefIterator;
use rayon::iter::ParallelIterator;
use vstd::prelude::*;
use vstd::slice::slice_subrange;

use crate::domain::{FailureReason, FindingStatus};
use crate::memory::{bytes_of, ends_fit, kept, read_gives, zeros, MemorySource, Region};
use crate::pattern::{Arch, Pattern, Signature};
use crate::resolver::{
    call_resolves, extract_immediate, extract_offset, extract_pointer, resolve_call, rva, rva_of,
    spec_classify, spec_extract_immediate, spec_extract_offset, spec_extract_pointer,
    spec_nested_from, wrap, Kind,
};
use crate::scanner::{find_all, lemma_match_offsets, match_offsets, searchable, CompiledPattern};
use crate::text::{decimal, hex_digit_char, push_char, push_decimal, push_str};

verus! {

/// A region window whose read returned fewer bytes than asked for, so part of it was unreadable.
#[derive(Debug, Clone, Copy, PartialEq, Eq, Structural)]
pub struct ReadGap {
    pub base: usize,
    pub requested: usize,
    pub got: usize,
}

/// The bytes requested but not read across `gaps`.
pub open spec fn unread_total(gaps: Seq<ReadGap>) -> int
    decreases gaps.len(),
{
    if gaps.len() == 0 {
        0
    } else {
        unread_total(gaps.drop_last()) + (gaps.last().requested - gaps.last().got)
    }
}

/// Every gap read no more than it asked for.
pub open spec fn gaps_well_formed(gaps: Seq<ReadGap>) -> bool {
    forall|i: int| 0 <= i < gaps.len() ==> (#[trigger] gaps[i]).got <= gaps[i].requested
}

/// The standard partial-read advisory for `windows` short windows and `unread` missing bytes.
pub open spec fn partial_read_text(windows: nat, unread: nat) -> Seq<char> {
    "partial reads: "@ + decimal(windows) + " region window(s) returned short, "@ + decimal(unread)
        + " byte(s) unreadable; a \"not found\" result may be in unread memory"@
}

proof fn lemma_unread_prefix(gaps: Seq<ReadGap>, k: int)
    requires
        gaps_well_formed(gaps),
        0 <= k <= gaps.len(),
    ensures
        0 <= unread_total(gaps.take(k)) <= unread_total(gaps),
    decreases gaps.len(),
{
    if k < gaps.len() {
        assert(gaps.drop_last().take(k) =~= gaps.take(k));
        assert(gaps_well_formed(gaps.drop_last()));
        lemma_unread_prefix(gaps.drop_last(), k);
        lemma_unread_prefix(gaps.drop_last(), gaps.len() - 1);
        assert(gaps.drop_last().take(gaps.len() - 1) =~= gaps.drop_last());
    } else {
        assert(gaps.take(k) =~= gaps);
        if gaps.len() > 0 {
            assert(gaps_well_formed(gaps.drop_last()));
            lemma_unread_prefix(gaps.drop_last(), gaps.len() - 1);
            assert(gaps.drop_last().take(gaps.len() - 1) =~= gaps.drop_last());
        }
    }
}

/// The advisory for region windows that read short, worded the same for every front end; `None`
/// when there were no gaps.
pub fn read_gap_warning(read_gaps: &[ReadGap]) -> (r: Option<String>)
    requires
        gaps_well_formed(read_gaps@),
        unread_total(read_gaps@) <= usize::MAX,
    ensures
        read_gaps@.len() == 0 <==> r is None,
        r matches Some(m) ==> m@ == partial_read_text(
            read_gaps@.len() as nat,
            unread_total(read_gaps@) as nat,
        ),
{
    if read_gaps.len() == 0 {
        return None;
    }
    let mut unread: usize = 0;
    let mut i: usize = 0;
    while i < read_gaps.len()
        invariant
            0 <= i <= read_gaps@.len(),
            gaps_well_formed(read_gaps@),
            unread_total(read_gaps@) <= usize::MAX,
            unread == unread_total(read_gaps@.take(i as int)),
        decreases read_gaps@.len() - i,
    {
        let g = read_gaps[i];
        proof {
            lemma_unread_prefix(read_gaps@, i + 1);
            assert(read_gaps@.take(i + 1).drop_last() =~= read_gaps@.take(i as int));
            assert(read_gaps@[i as int].got <= read_gaps@[i as int].requested);
        }
        unread = unread + (g.requested - g.got);
        i = i + 1;
    }
    assert(read_gaps@.take(read_gaps@.len() as int) =~= read_gaps@);
    let mut m = String::new();
    push_str(&mut m, "partial reads: ");
    push_decimal(&mut m, read_gaps.len() as u64);
    push_str(&mut m, " region window(s) returned short, ");
    push_decimal(&mut m, unread as u64);
    push_str(&mut m, " byte(s) unreadable; a \"not found\" result may be in unread memory");
    Some(m)
}

/// One pattern's row in a scan report.
pub struct PatternRow {
    /// The pattern's name without its resolve suffix.
    pub name: String,
    pub category: String,
    /// The signature as pattern text, `??` for a wildcard byte.
    pub pattern: String,
    /// The value of the resolved match at the lowest address.
    pub value: Option<u64>,
    pub is_offset: bool,
    /// How many times the signature matched.
    pub matches: usize,
    pub status: FindingStatus,
    pub note: String,
    /// The values the resolved matches gave, in the order the scan met them.
    pub candidates: Vec<u64>,
    /// A score out of 100 for how far the result can be trusted; the byte scan scores nothing and
    /// leaves 0.
    pub confidence: u8,
    /// One-line human-readable resolution trace; the byte scan records none.
    pub trace: Option<String>,
}

/// What a row holds, as plain values.
pub struct RowModel {
    pub name: Seq<char>,
    pub category: Seq<char>,
    pub pattern: Seq<char>,
    pub value: Option<u64>,
    pub is_offset: bool,
    pub matches: usize,
    pub status: FindingStatus,
    pub note: Seq<char>,
    pub candidates: Seq<u64>,
    pub confidence: u8,
    pub trace: Option<Seq<char>>,
}

pub open spec fn row_view(w: PatternRow) -> RowModel {
    RowModel {
        name: w.name@,
        category: w.category@,
        pattern: w.pattern@,
        value: w.value,
        is_offset: w.is_offset,
        matches: w.matches,
        status: w.status,
        note: w.note@,
        candidates: w.candidates@,
        confidence: w.confidence,
        trace: match w.trace {
            Some(t) => Some(t@),
            None => None,
        },
    }
}

/// A byte as two upper-case hexadecimal digits.
pub open spec fn hex_pair(b: u8) -> Seq<char> {
    seq![hex_digit_char(b as int / 16), hex_digit_char(b as int % 16)]
}

/// The first `n` bytes of a signature as pattern text: each byte as two upper-case hexadecimal
/// digits, or `??` where the mask leaves it free, separated by single spaces.
pub open spec fn signature_text(bytes: Seq<u8>, mask: Seq<bool>, n: int) -> Seq<char>
    decreases n,
{
    if n <= 0 {
        Seq::empty()
    } else {
        let tok = if n - 1 < mask.len() && !mask[n - 1] {
            seq!['?', '?']
        } else {
            hex_pair(bytes[n - 1])
        };
        if n == 1 {
            tok
        } else {
            signature_text(bytes, mask, n - 1) + seq![' '] + tok
        }
    }
}

fn hex_digit(d: u8) -> (c: char)
    requires
        d < 16,
    ensures
        c == hex_digit_char(d as int),
{
    if d < 10 {
        (0x30u8 + d) as char
    } else {
        (0x41u8 + d - 10) as char
    }
}

/// A signature as pattern text, as `signature_text` spells it.
pub fn render_signature(sig: &Signature) -> (r: String)
    ensures
        r@ == signature_text(sig.bytes@, sig.mask@, sig.bytes@.len() as int),
{
    let mut s = String::new();
    let mut i: usize = 0;
    while i < sig.bytes.len()
        invariant
            0 <= i <= sig.bytes@.len(),
            s@ == signature_text(sig.bytes@, sig.mask@, i as int),
        decreases sig.bytes@.len() - i,
    {
        let ghost before = s@;
        if i > 0 {
            push_char(&mut s, ' ');
        }
        if i < sig.mask.len() && !sig.mask[i] {
            push_char(&mut s, '?');
            push_char(&mut s, '?');
        } else {
            let b = sig.bytes[i];
            push_char(&mut s, hex_digit(b / 16));
            push_char(&mut s, hex_digit(b % 16));
        }
        proof {
            if i == 0 {
                assert(s@ =~= signature_text(sig.bytes@, sig.mask@, 1));
            } else {
                assert(s@ =~= signature_text(sig.bytes@, sig.mask@, i + 1));
            }
        }
        i = i + 1;
    }
    s
}

/// The outcome of a scan: a row per pattern, the names sorted by outcome, and what went wrong on
/// the way.
pub struct ScanResult {
    /// The resolved patterns, in pattern order.
    pub findings: Vec<Finding>,
    pub rows: Vec<PatternRow>,
    pub found: Vec<String>,
    pub matched_unresolved: Vec<String>,
    pub not_found: Vec<String>,
    pub total_matches: usize,
    /// Region windows that read short, so partial coverage is visible instead of silent.
    pub read_gaps: Vec<ReadGap>,
    /// Non-fatal advisories raised during the scan.
    pub warnings: Vec<String>,
}

/// The number of rows among the first `n` that matched in several places.
pub open spec fn ambiguous_upto(rows: Seq<PatternRow>, n: int) -> nat
    decreases n,
{
    if n <= 0 {
        0
    } else {
        ambiguous_upto(rows, n - 1) + if rows[n - 1].status is FoundAmbiguous {
            1nat
        } else {
            0nat
        }
    }
}

/// How many rows matched in several places.
pub fn ambiguous_count(rows: &Vec<PatternRow>) -> (r: usize)
    ensures
        r == ambiguous_upto(rows@, rows@.len() as int),
{
    let mut n: usize = 0;
    let mut i: usize = 0;
    while i < rows.len()
        invariant
            0 <= i <= rows@.len(),
            n == ambiguous_upto(rows@, i as int),
            n <= i,
        decreases rows@.len() - i,
    {
        match rows[i].status {
            FindingStatus::FoundAmbiguous { .. } => {
                n = n + 1;
            },
            _ => {},
        }
        i = i + 1;
    }
    n
}

impl ScanResult {
    /// Total bytes that were requested but could not be read across all region windows.
    pub fn unread_bytes(&self) -> (r: u64)
        requires
            gaps_well_formed(self.read_gaps@),
            unread_total(self.read_gaps@) <= u64::MAX,
        ensures
            r == unread_total(self.read_gaps@),
    {
        let gaps = &self.read_gaps;
        let mut total: u64 = 0;
        let mut i: usize = 0;
        while i < gaps.len()
            invariant
                0 <= i <= gaps@.len(),
                gaps_well_formed(gaps@),
                unread_total(gaps@) <= u64::MAX,
                total == unread_total(gaps@.take(i as int)),
            decreases gaps@.len() - i,
        {
            let g = gaps[i];
            proof {
                lemma_unread_prefix(gaps@, i + 1);
                assert(gaps@.take(i + 1).drop_last() =~= gaps@.take(i as int));
                assert(gaps@[i as int].got <= gaps@[i as int].requested);
            }
            total = total + (g.requested - g.got) as u64;
            i = i + 1;
        }
        assert(gaps@.take(gaps@.len() as int) =~= gaps@);
        total
    }
}

/// A resolved pattern: its name without the resolve suffix, its category, and its value.
pub struct Finding {
    pub name: String,
    pub category: String,
    pub value: u64,
    pub is_offset: bool,
}

/// One match of one pattern: which pattern, where, and what it resolved to.
#[derive(Debug, Clone, Copy, PartialEq, Eq, Structural)]
pub struct Hit {
    pub pattern_idx: usize,
    pub addr: usize,
    pub value: Option<u64>,
    pub is_offset: bool,
}

/// How one pattern is searched for: its resolve kind and, if it can be searched, its signature.
pub type SearchSpec = (Kind, Option<(Seq<u8>, Seq<bool>)>);

/// The search of a pattern: the kind its name selects, and its bytes and mask when they are
/// searchable.
pub open spec fn pattern_spec(p: Pattern) -> SearchSpec {
    (
        spec_classify(p.name@).0,
        if searchable(p.signature.bytes@, p.signature.mask@) {
            Some((p.signature.bytes@, p.signature.mask@))
        } else {
            None
        },
    )
}

/// The search a compiled pattern performs.
pub open spec fn compiled_spec(c: (Kind, Option<CompiledPattern>)) -> SearchSpec {
    (
        c.0,
        match c.1 {
            Some(cp) => Some(cp@),
            None => None,
        },
    )
}

/// The (pattern, offset) of every match in `buf` of the first `k` searches: pattern by pattern,
/// each pattern's matches ascending.
pub open spec fn sites_of(buf: Seq<u8>, specs: Seq<SearchSpec>, k: int) -> Seq<(usize, usize)>
    decreases k,
{
    if k <= 0 {
        Seq::empty()
    } else {
        sites_of(buf, specs, k - 1) + match specs[k - 1].1 {
            Some(sig) => match_offsets(buf, sig.0, sig.1, 0).map_values(
                |off: usize| ((k - 1) as usize, off),
            ),
            None => Seq::empty(),
        }
    }
}

/// What a match at `addr` with the bytes `bytes` from it on resolves to, module-relative to `mb`:
/// a plain match is its own address; a pointer match is the first address an instruction in the
/// bytes refers to; an offset match is the first struct displacement within four bytes; a header
/// match is the first immediate operand in the bytes, a raw value as an offset is; a call
/// match is the callee with one nested call chased, as `source` answers the reads.
pub open spec fn resolved<S: MemorySource>(
    source: &S,
    kind: Kind,
    addr: usize,
    bytes: Seq<u8>,
    mb: usize,
    value: Option<u64>,
    is_offset: bool,
) -> bool {
    match kind {
        Kind::Direct => value == Some(rva_of(addr, mb)) && !is_offset,
        Kind::Pointer => !is_offset && value == match spec_extract_pointer(bytes, addr) {
            Some(t) => Some(rva_of(t, mb)),
            None => None,
        },
        Kind::Offset => is_offset && value == match spec_extract_offset(bytes, 4) {
            Some(v) => Some(v as u64),
            None => None,
        },
        Kind::Header => is_offset && value == match spec_extract_immediate(bytes) {
            Some(v) => Some(v as u64),
            None => None,
        },
        Kind::Call => !is_offset && exists|t: Option<usize>|
            #[trigger] call_resolves(source, addr, bytes, t) && value == match t {
                Some(x) => Some(rva_of(x, mb)),
                None => None,
            },
    }
}

/// The signature `sig` matches `buf` at offset `o`.
pub open spec fn fixed_match_at(buf: Seq<u8>, sig: (Seq<u8>, Seq<bool>), o: usize) -> bool {
    crate::scanner::fixed_match(buf, sig.0, sig.1, o as int)
}

/// `h` is the match `site` of a buffer `buf` read at `base`, resolved.
pub open spec fn hit_at<S: MemorySource>(
    source: &S,
    h: Hit,
    site: (usize, usize),
    buf: Seq<u8>,
    base: usize,
    specs: Seq<SearchSpec>,
    mb: usize,
) -> bool {
    &&& h.pattern_idx == site.0
    &&& h.addr == base + site.1
    &&& resolved(
        source,
        specs[site.0 as int].0,
        h.addr,
        buf.subrange(site.1 as int, buf.len() as int),
        mb,
        h.value,
        h.is_offset,
    )
}

/// `hits` are the matches `sites`, one for one and in order.
pub open spec fn hits_follow<S: MemorySource>(
    source: &S,
    hits: Seq<Hit>,
    sites: Seq<(usize, usize)>,
    buf: Seq<u8>,
    base: usize,
    specs: Seq<SearchSpec>,
    mb: usize,
) -> bool {
    &&& hits.len() == sites.len()
    &&& forall|j: int| 0 <= j < hits.len() ==> hit_at(source, #[trigger] hits[j], sites[j], buf, base, specs, mb)
}

/// What scanning one region gave: its hits, and the short read when it did not read whole.
pub struct RegionScan {
    pub hits: Vec<Hit>,
    pub gap: Option<ReadGap>,
}

/// The short read of a region that read `got` bytes; none when it read whole.
pub open spec fn gap_of(region: Region, got: nat) -> Option<ReadGap> {
    if got < region.size {
        Some(ReadGap { base: region.base, requested: region.size, got: got as usize })
    } else {
        None
    }
}

/// `s` holds what the searches `specs` find in what `source` gives for a read of `region`, and
/// records that read's shortfall.
pub open spec fn region_scanned<S: MemorySource>(
    source: &S,
    s: RegionScan,
    region: Region,
    specs: Seq<SearchSpec>,
    mb: usize,
) -> bool {
    exists|buf: Seq<u8>|
        #![trigger hits_follow(source, s.hits@, sites_of(buf, specs, specs.len() as int), buf, region.base, specs, mb)]
        buf.len() <= region.size && read_gives(source, region.base, region.size as nat, buf)
            && hits_follow(
            source,
            s.hits@,
            sites_of(buf, specs, specs.len() as int),
            buf,
            region.base,
            specs,
            mb,
        ) && s.gap == gap_of(region, buf.len())
}

/// Resolve one match at `addr` whose bytes from the match on are `bytes`.
fn resolve<S: MemorySource>(
    kind: Kind,
    source: &S,
    module_base: usize,
    addr: usize,
    bytes: &[u8],
) -> (r: (Option<u64>, bool))
    requires
        addr < usize::MAX,
    ensures
        resolved(source, kind, addr, bytes@, module_base, r.0, r.1),
{
    match kind {
        Kind::Direct => (Some(rva(addr, module_base)), false),
        Kind::Pointer => match extract_pointer(bytes, addr) {
            Some(t) => (Some(rva(t, module_base)), false),
            None => (None, false),
        },
        Kind::Offset => match extract_offset(bytes, 4) {
            Some(v) => (Some(v as u64), true),
            None => (None, true),
        },
        Kind::Header => match extract_immediate(bytes) {
            Some(v) => (Some(v as u64), true),
            None => (None, true),
        },
        Kind::Call => {
            let t = resolve_call(source, addr, bytes);
            let v = match t {
                Some(t) => Some(rva(t, module_base)),
                None => None,
            };
            assert(call_resolves(source, addr, bytes@, t));
            (v, false)
        },
    }
}

/// Read a region whole; a failed read gives nothing, a short one only what was read.
pub(crate) fn read_region<S: MemorySource>(source: &S, region: &Region) -> (r: Vec<u8>)
    ensures
        r@.len() <= region.size,
        read_gives(source, region.base, region.size as nat, r@),
{
    let mut buf: Vec<u8> = vec![0u8; region.size];
    assert(buf@ =~= zeros(region.size as nat));
    let got = source.read_into(region.base, buf.as_mut_slice());
    let ghost rr = got;
    let ghost after = buf@;
    let read = match got {
        Ok(n) => n,
        Err(_) => 0,
    };
    buf.truncate(read);
    proof {
        assert(buf@ =~= kept(rr, after));
        assert(source.reads(region.base, zeros(region.size as nat), rr, after));
    }
    buf
}

/// Search the bytes `buf` read at `base` for every compiled pattern, pattern by pattern, each
/// pattern's matches in address order, and resolve each match.
pub fn buffer_hits<S: MemorySource>(
    source: &S,
    buf: &[u8],
    base: usize,
    compiled: &Vec<(Kind, Option<CompiledPattern>)>,
    module_base: usize,
) -> (r: Vec<Hit>)
    requires
        base + buf@.len() <= usize::MAX,
    ensures
        ({
            let specs = compiled@.map_values(|c| compiled_spec(c));
            hits_follow(source, r@, sites_of(buf@, specs, specs.len() as int), buf@, base, specs, module_base)
        }),
{
    let ghost specs = compiled@.map_values(|c| compiled_spec(c));
    let ghost b = buf@;
    let mut out: Vec<Hit> = Vec::new();
    let mut idx: usize = 0;
    while idx < compiled.len()
        invariant
            0 <= idx <= compiled@.len(),
            specs == compiled@.map_values(|c| compiled_spec(c)),
            b == buf@,
            base + b.len() <= usize::MAX,
            hits_follow(source, out@, sites_of(b, specs, idx as int), b, base, specs, module_base),
        decreases compiled@.len() - idx,
    {
        let kind = compiled[idx].0;
        let ghost before = sites_of(b, specs, idx as int);
        assert(specs[idx as int] == compiled_spec(compiled@[idx as int]));
        match &compiled[idx].1 {
            None => {
                assert(sites_of(b, specs, idx + 1) =~= before);
            },
            Some(cp) => {
                let ghost found = match_offsets(b, cp@.0, cp@.1, 0);
                let ghost these = found.map_values(|off: usize| (idx, off));
                assert(sites_of(b, specs, idx + 1) == before + these);
                let n = cp.len();
                if buf.len() >= n {
                    let offs = find_all(buf, cp);
                    proof {
                        lemma_match_offsets(b, cp@.0, cp@.1, 0);
                    }
                    let mut t: usize = 0;
                    while t < offs.len()
                        invariant
                            0 <= t <= offs@.len(),
                            offs@ == found,
                            these == found.map_values(|off: usize| (idx, off)),
                            idx < compiled@.len(),
                            specs == compiled@.map_values(|c| compiled_spec(c)),
                            specs[idx as int].0 == kind,
                            b == buf@,
                            base + b.len() <= usize::MAX,
                            cp@.0.len() >= 1,
                            forall|u: int|
                                0 <= u < found.len() ==> fixed_match_at(b, cp@, #[trigger] found[u]),
                            hits_follow(source, 
                                out@,
                                before + these.take(t as int),
                                b,
                                base,
                                specs,
                                module_base,
                            ),
                        decreases offs@.len() - t,
                    {
                        let off = offs[t];
                        assert(fixed_match_at(b, cp@, found[t as int]));
                        let addr = base + off;
                        let bytes = slice_subrange(buf, off, buf.len());
                        let (value, is_offset) = resolve(kind, source, module_base, addr, bytes);
                        let h = Hit { pattern_idx: idx, addr, value, is_offset };
                        let ghost prev = out@;
                        out.push(h);
                        proof {
                            let sites2 = before + these.take(t + 1);
                            assert(sites2 =~= (before + these.take(t as int)).push((idx, off)));
                            assert forall|j: int| 0 <= j < out@.len() implies hit_at(source, 
                                #[trigger] out@[j],
                                sites2[j],
                                b,
                                base,
                                specs,
                                module_base,
                            ) by {
                                if j < prev.len() {
                                    assert(out@[j] == prev[j]);
                                    assert(sites2[j] == (before + these.take(t as int))[j]);
                                }
                            }
                        }
                        t = t + 1;
                    }
                    assert(these.take(offs@.len() as int) =~= these);
                } else {
                    proof {
                        assert(found =~= Seq::<usize>::empty());
                        assert(these =~= Seq::<(usize, usize)>::empty());
                        assert(before + these =~= before);
                    }
                }
            },
        }
        idx = idx + 1;
    }
    assert(specs.len() == compiled@.len());
    out
}

/// Read one region whole, search what was read, and note a short read.
fn region_scan<S: MemorySource>(
    source: &S,
    region: &Region,
    compiled: &Vec<(Kind, Option<CompiledPattern>)>,
    module_base: usize,
) -> (r: RegionScan)
    requires
        region.base + region.size <= usize::MAX,
    ensures
        region_scanned(source, r, *region, compiled@.map_values(|c| compiled_spec(c)), module_base),
{
    let buf = read_region(source, region);
    let hits = buffer_hits(source, buf.as_slice(), region.base, compiled, module_base);
    let gap = if buf.len() < region.size {
        Some(ReadGap { base: region.base, requested: region.size, got: buf.len() })
    } else {
        None
    };
    let r = RegionScan { hits, gap };
    proof {
        let specs = compiled@.map_values(|c| compiled_spec(c));
        let sites = sites_of(buf@, specs, specs.len() as int);
        assert(hits_follow(source, r.hits@, sites, buf@, region.base, specs, module_base));
        assert(r.gap == gap_of(*region, buf@.len()));
    }
    r
}

/// `regions.par_iter().map(..).collect()` (rayon): each region is scanned by `region_scan` on the
/// thread pool, and the results come back one per region, in region order, as collecting an
/// indexed parallel iterator into a `Vec` keeps it.
#[verifier::external_body]
fn par_region_scans<S: MemorySource + Sync>(
    source: &S,
    regions: &[Region],
    compiled: &Vec<(Kind, Option<CompiledPattern>)>,
    module_base: usize,
) -> (r: Vec<RegionScan>)
    requires
        ends_fit(regions@),
    ensures
        r@.len() == regions@.len(),
        forall|i: int|
            0 <= i < r@.len() ==> region_scanned(source, 
                #[trigger] r@[i],
                regions@[i],
                compiled@.map_values(|c| compiled_spec(c)),
                module_base,
            ),
{
    regions.par_iter().map(|region| region_scan(source, region, compiled, module_base)).collect()
}

/// The hits of all region scans, region by region.
pub open spec fn scan_hits(scans: Seq<RegionScan>) -> Seq<Hit> {
    scans.map_values(|s: RegionScan| s.hits@).flatten()
}

/// The short reads of the first `k` region scans, in region order.
pub open spec fn scan_gaps(scans: Seq<RegionScan>, k: int) -> Seq<ReadGap>
    decreases k,
{
    if k <= 0 {
        Seq::empty()
    } else {
        scan_gaps(scans, k - 1) + match scans[k - 1].gap {
            Some(g) => seq![g],
            None => Seq::empty(),
        }
    }
}

/// Concatenate the hits of the region scans and collect their short reads.
fn gather(scans: &Vec<RegionScan>) -> (r: (Vec<Hit>, Vec<ReadGap>))
    ensures
        r.0@ == scan_hits(scans@),
        r.1@ == scan_gaps(scans@, scans@.len() as int),
{
    let mut hits: Vec<Hit> = Vec::new();
    let mut gaps: Vec<ReadGap> = Vec::new();
    let mut k: usize = 0;
    while k < scans.len()
        invariant
            0 <= k <= scans@.len(),
            hits@ == scan_hits(scans@.take(k as int)),
            gaps@ == scan_gaps(scans@, k as int),
        decreases scans@.len() - k,
    {
        let part = &scans[k].hits;
        let ghost before = hits@;
        let mut t: usize = 0;
        while t < part.len()
            invariant
                0 <= t <= part@.len(),
                hits@ == before + part@.take(t as int),
            decreases part@.len() - t,
        {
            hits.push(part[t]);
            assert(hits@ =~= before + part@.take(t + 1));
            t = t + 1;
        }
        proof {
            let m = scans@.take(k as int).map_values(|s: RegionScan| s.hits@);
            assert(scans@.take(k + 1).map_values(|s: RegionScan| s.hits@) =~= m.push(part@));
            m.lemma_flatten_push(part@);
            assert(part@.take(part@.len() as int) =~= part@);
        }
        match scans[k].gap {
            Some(g) => {
                gaps.push(g);
            },
            None => {},
        }
        proof {
            assert(gaps@ =~= scan_gaps(scans@, k + 1));
        }
        k = k + 1;
    }
    assert(scans@.take(scans@.len() as int) =~= scans@);
    (hits, gaps)
}

/// Each pattern's resolve kind and compiled signature, in pattern order.
pub fn compile(patterns: &[Pattern]) -> (r: Vec<(Kind, Option<CompiledPattern>)>)
    ensures
        r@.map_values(|c| compiled_spec(c)) == patterns@.map_values(|p: Pattern| pattern_spec(p)),
{
    let mut out: Vec<(Kind, Option<CompiledPattern>)> = Vec::new();
    let mut i: usize = 0;
    while i < patterns.len()
        invariant
            0 <= i <= patterns@.len(),
            out@.len() == i,
            out@.map_values(|c| compiled_spec(c)) == patterns@.take(i as int).map_values(
                |p: Pattern| pattern_spec(p),
            ),
        decreases patterns@.len() - i,
    {
        let p = &patterns[i];
        let (kind, _) = Kind::classify(p.name.as_str());
        let cp = CompiledPattern::new(&p.signature);
        let ghost before = out@;
        out.push((kind, cp));
        proof {
            let l = out@.map_values(|c| compiled_spec(c));
            let r = patterns@.take(i + 1).map_values(|p: Pattern| pattern_spec(p));
            assert forall|j: int| 0 <= j < i + 1 implies l[j] == r[j] by {
                if j < i {
                    assert(before.map_values(|c| compiled_spec(c))[j] == patterns@.take(
                        i as int,
                    ).map_values(|p: Pattern| pattern_spec(p))[j]);
                }
            }
            assert(l =~= r);
        }
        i = i + 1;
    }
    assert(patterns@.take(i as int) =~= patterns@);
    out
}

/// Whether some hit belongs to pattern `idx`.
pub open spec fn has_hit(hits: Seq<Hit>, idx: usize) -> bool {
    exists|j: int| 0 <= j < hits.len() && (#[trigger] hits[j]).pattern_idx == idx
}

/// Among the first `n` hits, pattern `idx`'s resolved hit at the lowest address, the earliest one
/// among equal addresses.
pub open spec fn best_hit(hits: Seq<Hit>, idx: usize, n: int) -> Option<Hit>
    decreases n,
{
    if n <= 0 {
        None
    } else {
        let b = best_hit(hits, idx, n - 1);
        let h = hits[n - 1];
        if h.pattern_idx == idx && h.value is Some && (b is None || h.addr < b->0.addr) {
            Some(h)
        } else {
            b
        }
    }
}

/// How many of the first `n` hits belong to pattern `idx`.
pub open spec fn match_count(hits: Seq<Hit>, idx: usize, n: int) -> nat
    decreases n,
{
    if n <= 0 {
        0
    } else {
        match_count(hits, idx, n - 1) + if hits[n - 1].pattern_idx == idx {
            1nat
        } else {
            0nat
        }
    }
}

/// The values of pattern `idx`'s resolved hits among the first `n`, in hit order.
pub open spec fn candidates_upto(hits: Seq<Hit>, idx: usize, n: int) -> Seq<u64>
    decreases n,
{
    if n <= 0 {
        Seq::empty()
    } else {
        let c = candidates_upto(hits, idx, n - 1);
        if hits[n - 1].pattern_idx == idx && hits[n - 1].value is Some {
            c.push(hits[n - 1].value->0)
        } else {
            c
        }
    }
}

/// A pattern with no match is not found; one whose matches all failed to resolve failed as
/// unresolved; one resolved match is unique; several matches with one resolved are ambiguous,
/// counting the matches.
pub open spec fn row_status(hits: Seq<Hit>, idx: usize) -> FindingStatus {
    if !has_hit(hits, idx) {
        FindingStatus::NotFound
    } else if best_hit(hits, idx, hits.len() as int) is None {
        FindingStatus::Failed(FailureReason::Unresolved)
    } else if match_count(hits, idx, hits.len() as int) == 1 {
        FindingStatus::FoundUnique
    } else {
        FindingStatus::FoundAmbiguous {
            candidates: match_count(hits, idx, hits.len() as int) as usize,
        }
    }
}

/// The row of pattern `p`, the `idx`th, given every hit of the scan.
pub open spec fn row_of(p: Pattern, hits: Seq<Hit>, idx: usize) -> RowModel {
    let best = best_hit(hits, idx, hits.len() as int);
    RowModel {
        name: spec_classify(p.name@).1,
        category: p.category@,
        pattern: signature_text(p.signature.bytes@, p.signature.mask@, p.signature.bytes@.len() as int),
        value: match best {
            Some(h) => h.value,
            None => None,
        },
        is_offset: match best {
            Some(h) => h.is_offset,
            None => false,
        },
        matches: match_count(hits, idx, hits.len() as int) as usize,
        status: row_status(hits, idx),
        note: match p.note {
            Some(n) => n@,
            None => Seq::empty(),
        },
        candidates: candidates_upto(hits, idx, hits.len() as int),
        confidence: 0,
        trace: None,
    }
}

/// What a finding holds, as plain values.
pub struct FindingModel {
    pub name: Seq<char>,
    pub category: Seq<char>,
    pub value: u64,
    pub is_offset: bool,
}

pub open spec fn finding_view(f: Finding) -> FindingModel {
    FindingModel { name: f.name@, category: f.category@, value: f.value, is_offset: f.is_offset }
}

/// The names of a scan sorted by outcome, and the findings of the resolved ones.
pub struct ScanOutcome {
    pub findings: Seq<FindingModel>,
    pub found: Seq<Seq<char>>,
    pub unresolved: Seq<Seq<char>>,
    pub not_found: Seq<Seq<char>>,
}

/// The outcome of the first `k` patterns given all `hits`: a pattern with no hit is not found;
/// one whose hits all failed to resolve is unresolved; otherwise it is found, with the value of its
/// resolved hit at the lowest address, under its name without the resolve suffix.
pub open spec fn outcome_upto(pats: Seq<Pattern>, hits: Seq<Hit>, k: int) -> ScanOutcome
    decreases k,
{
    if k <= 0 {
        ScanOutcome {
            findings: Seq::empty(),
            found: Seq::empty(),
            unresolved: Seq::empty(),
            not_found: Seq::empty(),
        }
    } else {
        let o = outcome_upto(pats, hits, k - 1);
        let p = pats[k - 1];
        let idx = (k - 1) as usize;
        if !has_hit(hits, idx) {
            ScanOutcome { not_found: o.not_found.push(p.name@), ..o }
        } else {
            match best_hit(hits, idx, hits.len() as int) {
                Some(h) => ScanOutcome {
                    findings: o.findings.push(
                        FindingModel {
                            name: spec_classify(p.name@).1,
                            category: p.category@,
                            value: h.value->0,
                            is_offset: h.is_offset,
                        },
                    ),
                    found: o.found.push(p.name@),
                    ..o
                },
                None => ScanOutcome { unresolved: o.unresolved.push(p.name@), ..o },
            }
        }
    }
}

pub open spec fn texts(v: Seq<String>) -> Seq<Seq<char>> {
    v.map_values(|s: String| s@)
}

/// `r` reports the outcome of `pats` given `hits`, and nothing else.
pub open spec fn summary_is(r: ScanResult, pats: Seq<Pattern>, hits: Seq<Hit>) -> bool {
    let o = outcome_upto(pats, hits, pats.len() as int);
    &&& r.findings@.map_values(|f: Finding| finding_view(f)) == o.findings
    &&& texts(r.found@) == o.found
    &&& texts(r.matched_unresolved@) == o.unresolved
    &&& texts(r.not_found@) == o.not_found
    &&& r.total_matches == hits.len()
    &&& r.rows@.len() == pats.len()
    &&& forall|i: int|
        0 <= i < pats.len() ==> row_view(#[trigger] r.rows@[i]) == row_of(pats[i], hits, i as usize)
}

/// Sort the patterns by outcome given every hit of the scan.
pub fn summarize(patterns: &[Pattern], hits: &Vec<Hit>) -> (r: ScanResult)
    ensures
        summary_is(r, patterns@, hits@),
        r.read_gaps@.len() == 0,
        r.warnings@.len() == 0,
{
    let mut findings: Vec<Finding> = Vec::new();
    let mut found: Vec<String> = Vec::new();
    let mut matched_unresolved: Vec<String> = Vec::new();
    let mut not_found: Vec<String> = Vec::new();
    let mut rows: Vec<PatternRow> = Vec::new();
    let mut idx: usize = 0;
    while idx < patterns.len()
        invariant
            0 <= idx <= patterns@.len(),
            rows@.len() == idx,
            forall|i: int|
                0 <= i < idx ==> row_view(#[trigger] rows@[i]) == row_of(
                    patterns@[i],
                    hits@,
                    i as usize,
                ),
            ({
                let o = outcome_upto(patterns@, hits@, idx as int);
                &&& findings@.map_values(|f: Finding| finding_view(f)) == o.findings
                &&& texts(found@) == o.found
                &&& texts(matched_unresolved@) == o.unresolved
                &&& texts(not_found@) == o.not_found
            }),
        decreases patterns@.len() - idx,
    {
        let mut any = false;
        let mut best: Option<usize> = None;
        let mut count: usize = 0;
        let mut cands: Vec<u64> = Vec::new();
        let mut j: usize = 0;
        while j < hits.len()
            invariant
                0 <= j <= hits@.len(),
                count == match_count(hits@, idx, j as int),
                count <= j,
                cands@ == candidates_upto(hits@, idx, j as int),
                any == exists|u: int| 0 <= u < j && (#[trigger] hits@[u]).pattern_idx == idx,
                best matches Some(b) ==> b < j,
                best_hit(hits@, idx, j as int) == match best {
                    Some(b) => Some(hits@[b as int]),
                    None => None,
                },
            decreases hits@.len() - j,
        {
            let h = hits[j];
            if h.pattern_idx == idx {
                any = true;
                count = count + 1;
                match h.value {
                    Some(v) => {
                        cands.push(v);
                    },
                    None => {},
                }
                if h.value.is_some() {
                    match best {
                        None => {
                            best = Some(j);
                        },
                        Some(b) => {
                            if h.addr < hits[b].addr {
                                best = Some(j);
                            }
                        },
                    }
                }
            }
            j = j + 1;
        }
        let p = &patterns[idx];
        let (_, base_name) = Kind::classify(p.name.as_str());
        let status = if !any {
            FindingStatus::NotFound
        } else {
            match best {
                None => FindingStatus::Failed(FailureReason::Unresolved),
                Some(_) => if count == 1 {
                    FindingStatus::FoundUnique
                } else {
                    FindingStatus::FoundAmbiguous { candidates: count }
                },
            }
        };
        let (value, is_offset) = match best {
            Some(b) => (hits[b].value, hits[b].is_offset),
            None => (None, false),
        };
        let note = match &p.note {
            Some(n) => n.clone(),
            None => String::new(),
        };
        let row = PatternRow {
            name: crate::text::owned(base_name),
            category: p.category.clone(),
            pattern: render_signature(&p.signature),
            value,
            is_offset,
            matches: count,
            status,
            note,
            candidates: cands,
            confidence: 0,
            trace: None,
        };
        let ghost rows_before = rows@;
        rows.push(row);
        proof {
            assert(row_view(rows@[idx as int]) == row_of(patterns@[idx as int], hits@, idx));
            assert forall|i: int| 0 <= i < idx + 1 implies row_view(#[trigger] rows@[i]) == row_of(
                patterns@[i],
                hits@,
                i as usize,
            ) by {
                if i < idx {
                    assert(rows@[i] == rows_before[i]);
                }
            }
        }
        let ghost o = outcome_upto(patterns@, hits@, idx as int);
        let ghost fb = findings@;
        let ghost fo = found@;
        let ghost un = matched_unresolved@;
        let ghost nf = not_found@;
        if !any {
            not_found.push(p.name.clone());
            assert(texts(not_found@) =~= texts(nf).push(p.name@));
        } else {
            assert(has_hit(hits@, idx));
            match best {
                Some(b) => {
                    let h = hits[b];
                    let (_, base) = Kind::classify(p.name.as_str());
                    let v = match h.value {
                        Some(v) => v,
                        None => 0,
                    };
                    findings.push(
                        Finding {
                            name: crate::text::owned(base),
                            category: p.category.clone(),
                            value: v,
                            is_offset: h.is_offset,
                        },
                    );
                    found.push(p.name.clone());
                    proof {
                        lemma_best_resolved(hits@, idx, hits@.len() as int);
                        assert(findings@.map_values(|f: Finding| finding_view(f)) =~= fb.map_values(
                            |f: Finding| finding_view(f),
                        ).push(finding_view(findings@[findings@.len() - 1])));
                        assert(texts(found@) =~= texts(fo).push(p.name@));
                    }
                },
                None => {
                    matched_unresolved.push(p.name.clone());
                    assert(texts(matched_unresolved@) =~= texts(un).push(p.name@));
                },
            }
        }
        idx = idx + 1;
    }
    ScanResult {
        findings,
        rows,
        found,
        matched_unresolved,
        not_found,
        total_matches: hits.len(),
        read_gaps: Vec::new(),
        warnings: Vec::new(),
    }
}

/// The best hit, when there is one, is a resolved hit of that pattern.
proof fn lemma_best_resolved(hits: Seq<Hit>, idx: usize, n: int)
    ensures
        best_hit(hits, idx, n) matches Some(h) ==> h.pattern_idx == idx && h.value is Some,
    decreases n,
{
    if n > 0 {
        lemma_best_resolved(hits, idx, n - 1);
    }
}

/// A gap that `gap_of` can give for `r`: short of the region's full size.
pub open spec fn gap_fits(g: Option<ReadGap>, r: Region) -> bool {
    match g {
        Some(x) => x.got < x.requested && x.requested == r.size,
        None => true,
    }
}

/// The short reads of region scans are well formed and miss no more than the regions hold.
proof fn lemma_scan_gaps(scans: Seq<RegionScan>, regions: Seq<Region>, k: int)
    requires
        0 <= k <= scans.len() == regions.len(),
        forall|i: int| 0 <= i < scans.len() ==> gap_fits(#[trigger] scans[i].gap, regions[i]),
    ensures
        gaps_well_formed(scan_gaps(scans, k)),
        0 <= unread_total(scan_gaps(scans, k)) <= bytes_of(regions, k),
    decreases k,
{
    if k > 0 {
        lemma_scan_gaps(scans, regions, k - 1);
        let prev = scan_gaps(scans, k - 1);
        assert(gap_fits(scans[k - 1].gap, regions[k - 1]));
        match scans[k - 1].gap {
            Some(g) => {
                let now = prev + seq![g];
                assert(now.drop_last() =~= prev);
                assert(now.last() == g);
                assert forall|i: int| 0 <= i < now.len() implies (#[trigger] now[i]).got
                    <= now[i].requested by {
                    if i < prev.len() {
                        assert(now[i] == prev[i]);
                    }
                }
            },
            None => {
                assert(prev + Seq::<ReadGap>::empty() =~= prev);
            },
        }
    }
}

/// The advisory list of a scan: the partial-read warning when some region read short, else none.
pub open spec fn partial_reads_reported(warnings: Seq<String>, gaps: Seq<ReadGap>) -> bool {
    if gaps.len() == 0 {
        warnings.len() == 0
    } else {
        warnings.len() == 1 && warnings[0]@ == partial_read_text(
            gaps.len() as nat,
            unread_total(gaps) as nat,
        )
    }
}

/// Search every region for every pattern (the regions in parallel), resolve each match, and
/// report for each pattern, in order, whether it was found (with the value of its resolved match
/// at the lowest address), matched without resolving, or not found; a region that read short is
/// recorded as a gap, with the partial-read warning. Each region is read once into a buffer of
/// its size, and the bytes searched are exactly what the source gave back for that read.
///
/// The regions' sizes must sum to at most `usize::MAX`, which holds of any set of disjoint
/// regions of one address space, such as the coalesced regions of a module.
pub fn scan<S: MemorySource + Sync>(
    source: &S,
    module_base: usize,
    regions: &[Region],
    patterns: &[Pattern],
    _arch: Arch,
) -> (r: ScanResult)
    requires
        ends_fit(regions@),
        bytes_of(regions@, regions@.len() as int) <= usize::MAX,
    ensures
        exists|scans: Seq<RegionScan>|
            #![trigger scan_hits(scans)]
            {
                &&& scans.len() == regions@.len()
                &&& forall|i: int|
                    0 <= i < scans.len() ==> region_scanned(source, 
                        #[trigger] scans[i],
                        regions@[i],
                        patterns@.map_values(|p: Pattern| pattern_spec(p)),
                        module_base,
                    )
                &&& summary_is(r, patterns@, scan_hits(scans))
                &&& r.read_gaps@ == scan_gaps(scans, scans.len() as int)
                &&& partial_reads_reported(r.warnings@, r.read_gaps@)
            },
{
    let compiled = compile(patterns);
    let scans = par_region_scans(source, regions, &compiled, module_base);
    let ghost specs = patterns@.map_values(|p: Pattern| pattern_spec(p));
    proof {
        assert forall|i: int| 0 <= i < scans@.len() implies gap_fits(
            #[trigger] scans@[i].gap,
            regions@[i],
        ) by {
            assert(region_scanned(source, scans@[i], regions@[i], specs, module_base));
        }
        lemma_scan_gaps(scans@, regions@, scans@.len() as int);
    }
    let (hits, gaps) = gather(&scans);
    let mut r = summarize(patterns, &hits);
    let warning = read_gap_warning(gaps.as_slice());
    r.warnings = match warning {
        Some(w) => vec![w],
        None => Vec::new(),
    };
    r.read_gaps = gaps;
    assert(summary_is(r, patterns@, scan_hits(scans@)));
    r
}

/// Every pattern lands in exactly one of the found, unresolved and not-found lists, and each
/// found pattern has exactly one finding.
pub proof fn lemma_outcome_partition(pats: Seq<Pattern>, hits: Seq<Hit>, k: int)
    requires
        0 <= k <= pats.len(),
    ensures
        ({
            let o = outcome_upto(pats, hits, k);
            &&& o.found.len() + o.unresolved.len() + o.not_found.len() == k
            &&& o.findings.len() == o.found.len()
        }),
    decreases k,
{
    if k > 0 {
        lemma_outcome_partition(pats, hits, k - 1);
    }
}

/// A scan reports every pattern once: found, matched but unresolved, or not found, with one
/// finding per found pattern.
pub proof fn lemma_scan_partition(r: ScanResult, pats: Seq<Pattern>, hits: Seq<Hit>)
    requires
        summary_is(r, pats, hits),
    ensures
        r.found@.len() + r.matched_unresolved@.len() + r.not_found@.len() == pats.len(),
        r.findings@.len() == r.found@.len(),
{
    lemma_outcome_partition(pats, hits, pats.len() as int);
    assert(texts(r.found@).len() == r.found@.len());
    assert(texts(r.matched_unresolved@).len() == r.matched_unresolved@.len());
    assert(texts(r.not_found@).len() == r.not_found@.len());
    assert(r.findings@.map_values(|f: Finding| finding_view(f)).len() == r.findings@.len());
}

} // verus!
