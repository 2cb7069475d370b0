//! Memory regions and sources: the address ranges a module occupies, their coalescing into
//! maximal runs, and the sources that byte windows are read from.

use vstd::prelude::*;

use vstd::multiset::Multiset;

use crate::ioerr::{invalid_input_error, io_error_class, IoClass};

verus! {

broadcast use vstd::seq_lib::group_to_multiset_ensures;

/// Something a scan can read bytes from, by absolute address.
pub trait MemorySource {
    /// Whether a read at `address` into a buffer holding `before` may end with `r`, leaving `after`
    /// in the buffer: each source says what its reads give.
    spec fn reads(
        &self,
        address: usize,
        before: Seq<u8>,
        r: std::io::Result<usize>,
        after: Seq<u8>,
    ) -> bool;

    /// Copies up to `buf.len()` bytes starting at `address` into the front of `buf` and returns how
    /// many were copied.
    fn read_into(&self, address: usize, buf: &mut [u8]) -> (r: std::io::Result<usize>)
        ensures
            final(buf)@.len() == old(buf)@.len(),
            r matches Ok(n) ==> n <= old(buf)@.len(),
            self.reads(address, old(buf)@, r, final(buf)@),
    ;
}

/// `n` zero bytes, a fresh read buffer.
pub open spec fn zeros(n: nat) -> Seq<u8> {
    Seq::new(n, |i: int| 0u8)
}

/// What a read leaves to use: the bytes read, or none when it failed.
pub open spec fn kept(r: std::io::Result<usize>, after: Seq<u8>) -> Seq<u8> {
    match r {
        Ok(n) => after.take(n as int),
        Err(_) => Seq::empty(),
    }
}

/// `out` is what `source` gives for a read of `len` bytes at `address` into a fresh buffer.
pub open spec fn read_gives<S: MemorySource>(source: &S, address: usize, len: nat, out: Seq<u8>) -> bool {
    exists|r: std::io::Result<usize>, after: Seq<u8>|
        #[trigger] source.reads(address, zeros(len), r, after) && out == kept(r, after)
}

/// A contiguous address range `[base, base + size)`.
#[derive(Debug, Clone, Copy, PartialEq, Eq, Structural)]
pub struct Region {
    pub base: usize,
    pub size: usize,
}

/// The exclusive end address of `r`.
pub open spec fn region_end(r: Region) -> int {
    r.base + r.size
}

/// Whether address `a` lies in `r`.
pub open spec fn in_region(r: Region, a: int) -> bool {
    r.base <= a < region_end(r)
}

/// Whether some region of `rs` holds address `a`.
pub open spec fn covers(rs: Seq<Region>, a: int) -> bool {
    exists|i: int| 0 <= i < rs.len() && #[trigger] in_region(rs[i], a)
}

/// Every region's end is an address.
pub open spec fn ends_fit(rs: Seq<Region>) -> bool {
    forall|i: int| 0 <= i < rs.len() ==> region_end(#[trigger] rs[i]) <= usize::MAX
}

/// Consecutive regions are in ascending order and separated by a gap of at least one address.
pub open spec fn separated(rs: Seq<Region>) -> bool {
    forall|i: int| 0 <= i < rs.len() - 1 ==> region_end(#[trigger] rs[i]) < rs[i + 1].base
}

/// Region `r` lies within some region of `rs`.
pub open spec fn contained_in(r: Region, rs: Seq<Region>) -> bool {
    exists|j: int| 0 <= j < rs.len() && rs[j].base <= r.base && region_end(r) <= region_end(#[trigger] rs[j])
}

/// The regions that `coalesce` returns for `input`: they cover exactly the addresses the input
/// covers, are ascending with a gap between neighbours, hold every input region, and each starts
/// where some input region starts.
pub open spec fn is_coalescing_of(out: Seq<Region>, input: Seq<Region>) -> bool {
    &&& (out.len() == 0 <==> input.len() == 0)
    &&& separated(out)
    &&& ends_fit(out)
    &&& forall|a: int| covers(out, a) <==> covers(input, a)
    &&& forall|k: int| 0 <= k < input.len() ==> contained_in(#[trigger] input[k], out)
    &&& forall|j: int| 0 <= j < out.len() ==> starts_like_one_of(#[trigger] out[j], input)
}

/// Region `r` starts where some region of `rs` starts.
pub open spec fn starts_like_one_of(r: Region, rs: Seq<Region>) -> bool {
    exists|k: int| 0 <= k < rs.len() && #[trigger] rs[k].base == r.base
}

impl Region {
    pub fn end(&self) -> (r: usize)
        requires
            region_end(*self) <= usize::MAX,
        ensures
            r == region_end(*self),
    {
        self.base + self.size
    }
}

/// The total size of the first `k` regions.
pub open spec fn bytes_of(regions: Seq<Region>, k: int) -> int
    decreases k,
{
    if k <= 0 {
        0
    } else {
        bytes_of(regions, k - 1) + regions[k - 1].size
    }
}

proof fn lemma_bytes_of_nonneg(regions: Seq<Region>, j: int)
    ensures
        0 <= bytes_of(regions, j),
    decreases j,
{
    if j > 0 {
        lemma_bytes_of_nonneg(regions, j - 1);
    }
}

pub proof fn lemma_bytes_of_mono(regions: Seq<Region>, j: int, k: int)
    requires
        0 <= j <= k <= regions.len(),
    ensures
        0 <= bytes_of(regions, j) <= bytes_of(regions, k),
    decreases k - j,
{
    lemma_bytes_of_nonneg(regions, j);
    if j < k {
        lemma_bytes_of_mono(regions, j, k - 1);
    }
}

/// Sorted by base address.
pub open spec fn sorted_by_base(rs: Seq<Region>) -> bool {
    forall|i: int, j: int| 0 <= i < j < rs.len() ==> rs[i].base <= rs[j].base
}

/// The regions of `v`, reordered by ascending base address.
fn sort_by_base(v: Vec<Region>) -> (r: Vec<Region>)
    ensures
        r@.to_multiset() == v@.to_multiset(),
        sorted_by_base(r@),
{
    let mut rest = v;
    let mut sorted: Vec<Region> = Vec::new();
    while rest.len() > 0
        invariant
            sorted@.to_multiset().add(rest@.to_multiset()) == v@.to_multiset(),
            sorted_by_base(sorted@),
            forall|i: int, j: int|
                0 <= i < sorted@.len() && 0 <= j < rest@.len() ==> sorted@[i].base <= rest@[j].base,
        decreases rest@.len(),
    {
        let mut m: usize = 0;
        let mut i: usize = 1;
        while i < rest.len()
            invariant
                0 <= m < i <= rest@.len(),
                forall|t: int| 0 <= t < i ==> rest@[m as int].base <= rest@[t].base,
            decreases rest@.len() - i,
        {
            if rest[i].base < rest[m].base {
                m = i;
            }
            i = i + 1;
        }
        let ghost before = rest@;
        let x = rest.remove(m);
        proof {
            assert(before.remove(m as int).to_multiset() == before.to_multiset().remove(x));
            assert forall|t: int| 0 <= t < rest@.len() implies x.base <= rest@[t].base by {
                if t < m {
                    assert(rest@[t] == before[t]);
                } else {
                    assert(rest@[t] == before[t + 1]);
                }
            }
            assert(before.to_multiset().contains(x)) by {
                assert(before.contains(before[m as int]));
            }
        }
        let ghost sorted_before = sorted@;
        sorted.push(x);
        proof {
            assert(sorted@.to_multiset() == sorted_before.to_multiset().insert(x));
            assert(sorted@.to_multiset().add(rest@.to_multiset()) =~= v@.to_multiset());
            assert forall|i: int, j: int| 0 <= i < j < sorted@.len() implies sorted@[i].base
                <= sorted@[j].base by {
                if j == sorted@.len() - 1 {
                    assert(before.contains(x));
                    assert(before[m as int] == x);
                }
            }
            assert forall|i: int, j: int|
                0 <= i < sorted@.len() && 0 <= j < rest@.len() implies sorted@[i].base
                <= rest@[j].base by {
                if i < sorted@.len() - 1 {
                    if j < m {
                        assert(rest@[j] == before[j]);
                    } else {
                        assert(rest@[j] == before[j + 1]);
                    }
                }
            }
        }
    }
    proof {
        assert(rest@.to_multiset() =~= Multiset::empty());
        assert(sorted@.to_multiset().add(Multiset::empty()) =~= sorted@.to_multiset());
    }
    sorted
}

proof fn lemma_covers_push(rs: Seq<Region>, r: Region, a: int)
    ensures
        covers(rs.push(r), a) <==> (covers(rs, a) || in_region(r, a)),
{
    let w = rs.push(r);
    if covers(rs, a) {
        let i = choose|i: int| 0 <= i < rs.len() && #[trigger] in_region(rs[i], a);
        assert(in_region(w[i], a));
    }
    if in_region(r, a) {
        assert(in_region(w[rs.len() as int], a));
    }
    if covers(w, a) {
        let i = choose|i: int| 0 <= i < w.len() && #[trigger] in_region(w[i], a);
        if i < rs.len() {
            assert(in_region(rs[i], a));
        }
    }
}

/// Sequences holding the same regions, counted with multiplicity, cover the same addresses.
proof fn lemma_covers_same_multiset(x: Seq<Region>, y: Seq<Region>, a: int)
    requires
        x.to_multiset() == y.to_multiset(),
    ensures
        covers(x, a) <==> covers(y, a),
{
    lemma_same_elements(x, y);
    if covers(x, a) {
        let i = choose|i: int| 0 <= i < x.len() && #[trigger] in_region(x[i], a);
        let j = choose|j: int| 0 <= j < y.len() && y[j] == x[i];
        assert(in_region(y[j], a));
    }
    if covers(y, a) {
        let i = choose|i: int| 0 <= i < y.len() && #[trigger] in_region(y[i], a);
        let j = choose|j: int| 0 <= j < x.len() && x[j] == y[i];
        assert(in_region(x[j], a));
    }
}

/// Sequences with the same multiset hold the same elements.
proof fn lemma_same_elements(x: Seq<Region>, y: Seq<Region>)
    requires
        x.to_multiset() == y.to_multiset(),
    ensures
        forall|t: int| 0 <= t < x.len() ==> y.contains(#[trigger] x[t]),
        forall|t: int| 0 <= t < y.len() ==> x.contains(#[trigger] y[t]),
{
    assert forall|t: int| 0 <= t < x.len() implies y.contains(#[trigger] x[t]) by {
        assert(x.contains(x[t]));
        assert(x.to_multiset().count(x[t]) > 0);
        assert(y.to_multiset().count(x[t]) > 0);
    }
    assert forall|t: int| 0 <= t < y.len() implies x.contains(#[trigger] y[t]) by {
        assert(y.contains(y[t]));
        assert(y.to_multiset().count(y[t]) > 0);
        assert(x.to_multiset().count(y[t]) > 0);
    }
}

/// `w` covers exactly what the first `k` regions of `s` cover.
#[verifier::opaque]
spec fn cov_inv(w: Seq<Region>, s: Seq<Region>, k: int) -> bool {
    forall|a: int| covers(w, a) <==> covers(s.take(k), a)
}

/// Each of the first `k` regions of `s` lies within a region of `w`.
#[verifier::opaque]
spec fn cont_inv(w: Seq<Region>, s: Seq<Region>, k: int) -> bool {
    forall|t: int| 0 <= t < k ==> contained_in(#[trigger] s[t], w)
}

/// Each region of `w` starts where one of the first `k` regions of `s` starts.
#[verifier::opaque]
spec fn base_inv(w: Seq<Region>, s: Seq<Region>, k: int) -> bool {
    forall|j: int|
        0 <= j < w.len() ==> exists|t: int| 0 <= t < k && s[t].base == (#[trigger] w[j]).base
}

/// The last region of `w` starts no later than any region of `s` from `k` on.
#[verifier::opaque]
spec fn start_inv(w: Seq<Region>, s: Seq<Region>, k: int) -> bool {
    forall|t: int| k <= t < s.len() ==> w.last().base <= #[trigger] s[t].base
}

/// What holds while `coalesce` walks the sorted regions `s`: `w` (the finished runs followed by the
/// run being grown) is a coalescing of the first `k` of them, and the run being grown starts no
/// later than any region still to come.
spec fn merge_inv(w: Seq<Region>, s: Seq<Region>, k: int) -> bool {
    &&& w.len() >= 1
    &&& 1 <= k <= s.len()
    &&& separated(w)
    &&& ends_fit(w)
    &&& cov_inv(w, s, k)
    &&& cont_inv(w, s, k)
    &&& base_inv(w, s, k)
    &&& start_inv(w, s, k)
}

proof fn lemma_merge_start(s: Seq<Region>)
    requires
        s.len() >= 1,
        ends_fit(s),
        sorted_by_base(s),
    ensures
        merge_inv(seq![s[0]], s, 1),
{
    reveal(cov_inv);
    reveal(cont_inv);
    reveal(base_inv);
    reveal(start_inv);
    let w = seq![s[0]];
    assert(s.take(1) =~= w);
    assert(contained_in(s[0], w)) by {
        assert(w[0] == s[0]);
    }
    assert forall|j: int| 0 <= j < w.len() implies exists|t: int|
        0 <= t < 1 && s[t].base == (#[trigger] w[j]).base by {
        assert(s[0].base == w[j].base);
    }
    assert(ends_fit(w)) by {
        assert(w[0] == s[0]);
    }
}

proof fn lemma_grow_cov(w: Seq<Region>, s: Seq<Region>, k: int, grown: Region)
    requires
        w.len() >= 1,
        0 <= k < s.len(),
        cov_inv(w, s, k),
        w.last().base <= s[k].base <= region_end(w.last()),
        grown.base == w.last().base,
        region_end(grown) == if region_end(w.last()) >= region_end(s[k]) {
            region_end(w.last())
        } else {
            region_end(s[k])
        },
    ensures
        cov_inv(w.drop_last().push(grown), s, k + 1),
{
    reveal(cov_inv);
    let cur = w.last();
    let next = s[k];
    let m = w.drop_last();
    let w2 = m.push(grown);
    assert(w =~= m.push(cur));
    assert forall|a: int| covers(w2, a) <==> covers(s.take(k + 1), a) by {
        lemma_covers_push(m, grown, a);
        lemma_covers_push(m, cur, a);
        lemma_covers_push(s.take(k), next, a);
        assert(s.take(k).push(next) =~= s.take(k + 1));
    }
}

proof fn lemma_grow_cont(w: Seq<Region>, s: Seq<Region>, k: int, grown: Region)
    requires
        w.len() >= 1,
        0 <= k < s.len(),
        cont_inv(w, s, k),
        w.last().base <= s[k].base,
        grown.base == w.last().base,
        region_end(grown) >= region_end(w.last()),
        region_end(grown) >= region_end(s[k]),
    ensures
        cont_inv(w.drop_last().push(grown), s, k + 1),
{
    reveal(cont_inv);
    let w2 = w.drop_last().push(grown);
    assert forall|t: int| 0 <= t < k + 1 implies contained_in(#[trigger] s[t], w2) by {
        if t < k {
            let j = choose|j: int|
                0 <= j < w.len() && w[j].base <= s[t].base && region_end(s[t]) <= region_end(
                    #[trigger] w[j],
                );
            if j < w.len() - 1 {
                assert(w2[j] == w[j]);
            } else {
                assert(w2[j] == grown);
            }
        } else {
            assert(w2[w2.len() - 1] == grown);
        }
    }
}

proof fn lemma_grow_base(w: Seq<Region>, s: Seq<Region>, k: int, grown: Region)
    requires
        w.len() >= 1,
        0 <= k < s.len(),
        base_inv(w, s, k),
        grown.base == w.last().base,
    ensures
        base_inv(w.drop_last().push(grown), s, k + 1),
{
    reveal(base_inv);
    let w2 = w.drop_last().push(grown);
    assert forall|j: int| 0 <= j < w2.len() implies exists|t: int|
        0 <= t < k + 1 && s[t].base == (#[trigger] w2[j]).base by {
        assert(w2[j].base == w[j].base);
        let t = choose|t: int| 0 <= t < k && s[t].base == (#[trigger] w[j]).base;
        assert(0 <= t < k + 1 && s[t].base == w2[j].base);
    }
}

proof fn lemma_grow_start(w: Seq<Region>, s: Seq<Region>, k: int, grown: Region)
    requires
        w.len() >= 1,
        0 <= k < s.len(),
        start_inv(w, s, k),
        grown.base == w.last().base,
    ensures
        start_inv(w.drop_last().push(grown), s, k + 1),
{
    reveal(start_inv);
}

proof fn lemma_grow_sep(w: Seq<Region>, grown: Region)
    requires
        w.len() >= 1,
        separated(w),
        ends_fit(w),
        grown.base == w.last().base,
        region_end(grown) <= usize::MAX,
    ensures
        separated(w.drop_last().push(grown)),
        ends_fit(w.drop_last().push(grown)),
{
    let w2 = w.drop_last().push(grown);
    assert forall|i: int| 0 <= i < w2.len() - 1 implies region_end(#[trigger] w2[i])
        < w2[i + 1].base by {
        assert(w2[i] == w[i]);
        assert(w[i + 1].base == w2[i + 1].base);
    }
    assert forall|i: int| 0 <= i < w2.len() implies region_end(#[trigger] w2[i]) <= usize::MAX by {
        if i < w2.len() - 1 {
            assert(w2[i] == w[i]);
        }
    }
}

proof fn lemma_split_cov(w: Seq<Region>, s: Seq<Region>, k: int)
    requires
        0 <= k < s.len(),
        cov_inv(w, s, k),
    ensures
        cov_inv(w.push(s[k]), s, k + 1),
{
    reveal(cov_inv);
    let next = s[k];
    assert forall|a: int| covers(w.push(next), a) <==> covers(s.take(k + 1), a) by {
        lemma_covers_push(w, next, a);
        lemma_covers_push(s.take(k), next, a);
        assert(s.take(k).push(next) =~= s.take(k + 1));
    }
}

proof fn lemma_split_cont(w: Seq<Region>, s: Seq<Region>, k: int)
    requires
        0 <= k < s.len(),
        cont_inv(w, s, k),
    ensures
        cont_inv(w.push(s[k]), s, k + 1),
{
    reveal(cont_inv);
    let w2 = w.push(s[k]);
    assert forall|t: int| 0 <= t < k + 1 implies contained_in(#[trigger] s[t], w2) by {
        if t < k {
            let j = choose|j: int|
                0 <= j < w.len() && w[j].base <= s[t].base && region_end(s[t]) <= region_end(
                    #[trigger] w[j],
                );
            assert(w2[j] == w[j]);
        } else {
            assert(w2[w2.len() - 1] == s[k]);
        }
    }
}

proof fn lemma_split_base(w: Seq<Region>, s: Seq<Region>, k: int)
    requires
        0 <= k < s.len(),
        base_inv(w, s, k),
    ensures
        base_inv(w.push(s[k]), s, k + 1),
{
    reveal(base_inv);
    let w2 = w.push(s[k]);
    assert forall|j: int| 0 <= j < w2.len() implies exists|t: int|
        0 <= t < k + 1 && s[t].base == (#[trigger] w2[j]).base by {
        if j < w.len() {
            assert(w2[j] == w[j]);
            let t = choose|t: int| 0 <= t < k && s[t].base == (#[trigger] w[j]).base;
            assert(0 <= t < k + 1 && s[t].base == w2[j].base);
        } else {
            assert(s[k].base == w2[j].base);
        }
    }
}

proof fn lemma_split_start(w: Seq<Region>, s: Seq<Region>, k: int)
    requires
        0 <= k < s.len(),
        sorted_by_base(s),
    ensures
        start_inv(w.push(s[k]), s, k + 1),
{
    reveal(start_inv);
    assert forall|t: int| k + 1 <= t < s.len() implies w.push(s[k]).last().base
        <= #[trigger] s[t].base by {
        assert(s[k].base <= s[t].base);
    }
}

proof fn lemma_split_sep(w: Seq<Region>, next: Region)
    requires
        w.len() >= 1,
        separated(w),
        ends_fit(w),
        region_end(w.last()) < next.base,
        region_end(next) <= usize::MAX,
    ensures
        separated(w.push(next)),
        ends_fit(w.push(next)),
{
    let w2 = w.push(next);
    assert forall|i: int| 0 <= i < w2.len() - 1 implies region_end(#[trigger] w2[i])
        < w2[i + 1].base by {
        assert(w2[i] == w[i]);
        if i < w.len() - 1 {
            assert(w2[i + 1] == w[i + 1]);
        }
    }
    assert forall|i: int| 0 <= i < w2.len() implies region_end(#[trigger] w2[i]) <= usize::MAX by {
        if i < w.len() {
            assert(w2[i] == w[i]);
        }
    }
}

/// The final sequence of runs is a coalescing of the sorted regions, hence of the input.
proof fn lemma_merge_finish(o: Seq<Region>, s: Seq<Region>, input: Seq<Region>)
    requires
        merge_inv(o, s, s.len() as int),
        s.to_multiset() == input.to_multiset(),
        s.len() == input.len(),
    ensures
        is_coalescing_of(o, input),
{
    reveal(cov_inv);
    reveal(cont_inv);
    reveal(base_inv);
    lemma_same_elements(s, input);
    assert(s.take(s.len() as int) =~= s);
    assert forall|a: int| covers(o, a) <==> covers(input, a) by {
        lemma_covers_same_multiset(s, input, a);
    }
    assert forall|t: int| 0 <= t < input.len() implies contained_in(#[trigger] input[t], o) by {
        let u = choose|u: int| 0 <= u < s.len() && s[u] == input[t];
        assert(contained_in(s[u], o));
    }
    assert forall|j: int| 0 <= j < o.len() implies starts_like_one_of(#[trigger] o[j], input) by {
        let u = choose|u: int| 0 <= u < s.len() && s[u].base == (#[trigger] o[j]).base;
        let t = choose|t: int| 0 <= t < input.len() && input[t] == s[u];
        assert(input[t].base == o[j].base);
    }
    assert(o.len() >= 1 && input.len() >= 1);
    assert(separated(o));
    assert(ends_fit(o));
}

/// Merge the regions into maximal runs: sorted by base, with overlapping or touching regions joined.
pub fn coalesce(regions: Vec<Region>) -> (out: Vec<Region>)
    requires
        ends_fit(regions@),
    ensures
        is_coalescing_of(out@, regions@),
{
    if regions.len() == 0 {
        return regions;
    }
    let ghost input = regions@;
    let s = sort_by_base(regions);
    proof {
        assert(s@.len() == input.len()) by {
            assert(s@.to_multiset().len() == input.to_multiset().len());
        }
        lemma_same_elements(s@, input);
        assert forall|t: int| 0 <= t < s@.len() implies region_end(#[trigger] s@[t])
            <= usize::MAX by {
            let k = choose|k: int| 0 <= k < input.len() && input[k] == s@[t];
            assert(region_end(input[k]) <= usize::MAX);
        }
        lemma_merge_start(s@);
    }
    let mut merged: Vec<Region> = Vec::new();
    let mut cur = s[0];
    let mut k: usize = 1;
    assert(merged@.push(cur) =~= seq![s@[0]]);
    while k < s.len()
        invariant
            sorted_by_base(s@),
            ends_fit(s@),
            merge_inv(merged@.push(cur), s@, k as int),
        decreases s@.len() - k,
    {
        let ghost w = merged@.push(cur);
        let next = s[k];
        assert(w.last() == cur);
        assert(region_end(cur) <= usize::MAX) by {
            assert(w[w.len() - 1] == cur);
        }
        assert(region_end(next) <= usize::MAX);
        assert(cur.base <= next.base) by {
            reveal(start_inv);
        }
        if next.base <= cur.end() {
            let ce = cur.end();
            let ne = next.end();
            let e = if ce >= ne {
                ce
            } else {
                ne
            };
            cur.size = e - cur.base;
            proof {
                lemma_grow_cov(w, s@, k as int, cur);
                lemma_grow_cont(w, s@, k as int, cur);
                lemma_grow_base(w, s@, k as int, cur);
                lemma_grow_start(w, s@, k as int, cur);
                lemma_grow_sep(w, cur);
                assert(w.drop_last() =~= merged@);
            }
        } else {
            proof {
                lemma_split_cov(w, s@, k as int);
                lemma_split_cont(w, s@, k as int);
                lemma_split_base(w, s@, k as int);
                lemma_split_start(w, s@, k as int);
                lemma_split_sep(w, next);
            }
            merged.push(cur);
            cur = next;
            assert(merged@.push(cur) =~= w.push(next));
        }
        k = k + 1;
    }
    merged.push(cur);
    proof {
        lemma_merge_finish(merged@, s@, input);
    }
    merged
}

/// A memory source over an owned byte buffer mapped at `base`.
pub struct BufferSource {
    base: usize,
    data: Vec<u8>,
}

impl BufferSource {
    pub fn new(base: usize, data: Vec<u8>) -> (r: Self)
        ensures
            r.base() == base,
            r.data() == data@,
    {
        Self { base, data }
    }

    /// The address the buffer is mapped at.
    pub closed spec fn base(&self) -> usize {
        self.base
    }

    /// The buffer's bytes.
    pub closed spec fn data(&self) -> Seq<u8> {
        self.data@
    }
}

impl MemorySource for BufferSource {
    /// A read below the buffer fails with `InvalidInput` and leaves the buffer alone; one at or past
    /// its end reads nothing; otherwise as many bytes as the buffer holds and `buf` takes are copied
    /// to the front of `buf`.
    open spec fn reads(
        &self,
        address: usize,
        before: Seq<u8>,
        r: std::io::Result<usize>,
        after: Seq<u8>,
    ) -> bool {
        if address < self.base() {
            &&& r matches Err(e) && io_error_class(e) == IoClass::InvalidInput
            &&& after == before
        } else {
            let off = address - self.base();
            if off >= self.data().len() {
                &&& r == Ok::<usize, std::io::Error>(0)
                &&& after == before
            } else {
                let n: int = if before.len() <= self.data().len() - off {
                    before.len() as int
                } else {
                    self.data().len() - off
                };
                &&& r == Ok::<usize, std::io::Error>(n as usize)
                &&& after == self.data().subrange(off, off + n) + before.subrange(
                    n,
                    before.len() as int,
                )
            }
        }
    }

    fn read_into(&self, address: usize, buf: &mut [u8]) -> (r: std::io::Result<usize>)
    {
        if address < self.base {
            return Err(invalid_input_error());
        }
        let offset = address - self.base;
        if offset >= self.data.len() {
            return Ok(0);
        }
        let avail = self.data.len() - offset;
        let n = if buf.len() <= avail {
            buf.len()
        } else {
            avail
        };
        let ghost orig = buf@;
        let mut i: usize = 0;
        while i < n
            invariant
                0 <= i <= n <= orig.len(),
                offset + n <= self.data.len(),
                buf@.len() == orig.len(),
                forall|t: int| 0 <= t < i ==> buf@[t] == self.data@[offset + t],
                forall|t: int| i <= t < orig.len() ==> buf@[t] == orig[t],
            decreases n - i,
        {
            buf[i] = self.data[offset + i];
            i = i + 1;
        }
        assert(buf@ =~= self.data@.subrange(offset as int, offset + n) + orig.subrange(
            n as int,
            orig.len() as int,
        ));
        Ok(n)
    }
}

/// In a separated list every region ends before every later region starts.
proof fn lemma_sep_order(s: Seq<Region>, i: int, j: int)
    requires
        separated(s),
        0 <= i < j < s.len(),
    ensures
        region_end(s[i]) < s[j].base,
    decreases j - i,
{
    if j > i + 1 {
        lemma_sep_order(s, i, j - 1);
        assert(region_end(s[j - 1]) < s[j].base);
    }
}

/// The address just past a region of a separated list lies in none of its regions.
proof fn lemma_gap_uncovered(a: Seq<Region>, k: int)
    requires
        separated(a),
        0 <= k < a.len(),
    ensures
        !covers(a, region_end(a[k])),
{
    let x = region_end(a[k]);
    if covers(a, x) {
        let i = choose|i: int| 0 <= i < a.len() && #[trigger] in_region(a[i], x);
        if i < k {
            lemma_sep_order(a, i, k);
        } else if i > k {
            lemma_sep_order(a, k, i);
        }
    }
}

proof fn lemma_inc_lower(f: spec_fn(int) -> int, m: int, n: int, j: int)
    requires
        forall|i: int, k: int| 0 <= i < k < m ==> #[trigger] f(i) < #[trigger] f(k),
        forall|i: int| 0 <= i < m ==> 0 <= #[trigger] f(i) < n,
        0 <= j < m,
    ensures
        j <= f(j),
    decreases j,
{
    if j > 0 {
        lemma_inc_lower(f, m, n, j - 1);
        assert(f(j - 1) < f(j));
    }
}

proof fn lemma_inc_upper(f: spec_fn(int) -> int, m: int, n: int, j: int)
    requires
        forall|i: int, k: int| 0 <= i < k < m ==> #[trigger] f(i) < #[trigger] f(k),
        forall|i: int| 0 <= i < m ==> 0 <= #[trigger] f(i) < n,
        0 <= j < m,
    ensures
        f(j) <= n - m + j,
    decreases m - j,
{
    if j < m - 1 {
        lemma_inc_upper(f, m, n, j + 1);
        assert(f(j) < f(j + 1));
    }
}

/// The index of an input region starting where region `j` of `b` starts.
spec fn start_index(a: Seq<Region>, b: Seq<Region>, j: int) -> int {
    choose|k: int| 0 <= k < a.len() && #[trigger] a[k].base == b[j].base
}

/// The index of a region of `b` holding region `k` of `a`.
spec fn holder_index(a: Seq<Region>, b: Seq<Region>, k: int) -> int {
    choose|j: int|
        0 <= j < b.len() && b[j].base <= a[k].base && region_end(a[k]) <= region_end(#[trigger] b[j])
}

proof fn lemma_start_index(a: Seq<Region>, b: Seq<Region>, j: int)
    requires
        is_coalescing_of(b, a),
        0 <= j < b.len(),
    ensures
        0 <= start_index(a, b, j) < a.len(),
        a[start_index(a, b, j)].base == b[j].base,
{
    assert(starts_like_one_of(b[j], a));
}

proof fn lemma_holder_index(a: Seq<Region>, b: Seq<Region>, k: int)
    requires
        is_coalescing_of(b, a),
        0 <= k < a.len(),
    ensures
        0 <= holder_index(a, b, k) < b.len(),
        b[holder_index(a, b, k)].base <= a[k].base,
        region_end(a[k]) <= region_end(b[holder_index(a, b, k)]),
{
    assert(contained_in(a[k], b));
}

/// Later regions of the coalescing start where later input regions start.
proof fn lemma_start_inc(a: Seq<Region>, b: Seq<Region>, i: int, j: int)
    requires
        separated(a),
        is_coalescing_of(b, a),
        0 <= i < j < b.len(),
    ensures
        start_index(a, b, i) < start_index(a, b, j),
{
    lemma_start_index(a, b, i);
    lemma_start_index(a, b, j);
    lemma_sep_order(b, i, j);
    if start_index(a, b, i) > start_index(a, b, j) {
        lemma_sep_order(a, start_index(a, b, j), start_index(a, b, i));
    }
}

/// Later input regions are held by later regions of the coalescing.
proof fn lemma_holder_inc(a: Seq<Region>, b: Seq<Region>, i: int, k: int)
    requires
        separated(a),
        is_coalescing_of(b, a),
        0 <= i < k < a.len(),
    ensures
        holder_index(a, b, i) < holder_index(a, b, k),
{
    lemma_holder_index(a, b, i);
    lemma_holder_index(a, b, k);
    lemma_sep_order(a, i, k);
    let gi = holder_index(a, b, i);
    let gk = holder_index(a, b, k);
    if gi == gk {
        lemma_gap_uncovered(a, i);
        assert(in_region(b[gi], region_end(a[i])));
        assert(covers(b, region_end(a[i])));
    } else if gi > gk {
        lemma_sep_order(b, gk, gi);
    }
}

/// The coalescing of a separated list has as many regions as the list.
#[verifier::spinoff_prover]
#[verifier::rlimit(60)]
proof fn lemma_same_len(a: Seq<Region>, b: Seq<Region>)
    requires
        separated(a),
        is_coalescing_of(b, a),
    ensures
        a.len() == b.len(),
        forall|j: int| 0 <= j < a.len() ==> start_index(a, b, j) == j && holder_index(a, b, j) == j,
{
    let n = a.len() as int;
    let m = b.len() as int;
    let f = |j: int| start_index(a, b, j);
    let g = |k: int| holder_index(a, b, k);
    assert forall|j: int| 0 <= j < m implies 0 <= #[trigger] f(j) < n by {
        lemma_start_index(a, b, j);
    }
    assert forall|k: int| 0 <= k < n implies 0 <= #[trigger] g(k) < m by {
        lemma_holder_index(a, b, k);
    }
    assert forall|i: int, j: int| 0 <= i < j < m implies #[trigger] f(i) < #[trigger] f(j) by {
        lemma_start_inc(a, b, i, j);
    }
    assert forall|i: int, k: int| 0 <= i < k < n implies #[trigger] g(i) < #[trigger] g(k) by {
        lemma_holder_inc(a, b, i, k);
    }
    if m > 0 {
        lemma_inc_lower(f, m, n, m - 1);
    }
    if n > 0 {
        lemma_inc_lower(g, n, m, n - 1);
    }
    assert forall|j: int| 0 <= j < a.len() implies start_index(a, b, j) == j && holder_index(
        a,
        b,
        j,
    ) == j by {
        lemma_inc_lower(f, m, n, j);
        lemma_inc_upper(f, m, n, j);
        lemma_inc_lower(g, n, m, j);
        lemma_inc_upper(g, n, m, j);
    }
}

/// Where both indices agree, the coalescing's region is the input region.
proof fn lemma_same_at(a: Seq<Region>, b: Seq<Region>, j: int)
    requires
        separated(a),
        is_coalescing_of(b, a),
        0 <= j < a.len(),
        j < b.len(),
        start_index(a, b, j) == j,
        holder_index(a, b, j) == j,
    ensures
        b[j] == a[j],
{
    lemma_start_index(a, b, j);
    lemma_holder_index(a, b, j);
    if region_end(b[j]) > region_end(a[j]) {
        lemma_gap_uncovered(a, j);
        assert(in_region(b[j], region_end(a[j])));
        assert(covers(b, region_end(a[j])));
    }
}

/// A list of regions already ascending with a gap between neighbours is its own and only
/// coalescing: coalescing it again gives it back unchanged.
pub proof fn lemma_coalescing_unique(a: Seq<Region>, b: Seq<Region>)
    requires
        separated(a),
        is_coalescing_of(b, a),
    ensures
        b == a,
{
    lemma_same_len(a, b);
    assert forall|j: int| 0 <= j < a.len() implies b[j] == a[j] by {
        lemma_same_at(a, b, j);
    }
    assert(b =~= a);
}

/// Coalescing is idempotent: the coalescing of a coalesced list is that list.
pub proof fn lemma_coalesce_idempotent(input: Seq<Region>, once: Seq<Region>, twice: Seq<Region>)
    requires
        is_coalescing_of(once, input),
        is_coalescing_of(twice, once),
    ensures
        twice == once,
{
    lemma_coalescing_unique(once, twice);
}

/// A run of addresses covered throughout that starts inside region `j` of a separated list ends
/// within that region: the address just past the region is a gap.
proof fn lemma_covered_run_held(b: Seq<Region>, c: Seq<Region>, k: int, j: int)
    requires
        separated(c),
        0 <= k < b.len(),
        0 <= j < c.len(),
        c[j].base <= b[k].base <= region_end(c[j]),
        forall|a: int| covers(b, a) ==> covers(c, a),
    ensures
        region_end(b[k]) <= region_end(c[j]),
{
    if region_end(c[j]) < region_end(b[k]) {
        let e = region_end(c[j]);
        assert(in_region(b[k], e));
        assert(covers(b, e));
        lemma_gap_uncovered(c, j);
    }
}

/// A region that starts where an input region starts, and whose addresses another separated list
/// covers wherever it covers, lies within the region of that list holding the input region.
proof fn lemma_run_held(input: Seq<Region>, b: Seq<Region>, c: Seq<Region>, k: int) -> (j: int)
    requires
        separated(c),
        0 <= k < b.len(),
        starts_like_one_of(b[k], input),
        forall|t: int| 0 <= t < input.len() ==> contained_in(#[trigger] input[t], c),
        forall|a: int| covers(b, a) ==> covers(c, a),
    ensures
        0 <= j < c.len(),
        c[j].base <= b[k].base,
        region_end(b[k]) <= region_end(c[j]),
{
    let i = choose|i: int| 0 <= i < input.len() && #[trigger] input[i].base == b[k].base;
    assert(contained_in(input[i], c));
    let j = choose|j: int|
        0 <= j < c.len() && c[j].base <= input[i].base && region_end(input[i]) <= region_end(
            #[trigger] c[j],
        );
    lemma_covered_run_held(b, c, k, j);
    j
}

/// Region `j` of a separated list starts where the region `k` of `b` holding its first input
/// region starts, when `b[k]` lies within a region of the list.
proof fn lemma_start_not_inside(b: Seq<Region>, c: Seq<Region>, k: int, j: int, jj: int)
    requires
        separated(c),
        0 <= k < b.len(),
        0 <= j < c.len(),
        0 <= jj < c.len(),
        b[k].base <= c[j].base <= region_end(b[k]),
        c[jj].base <= b[k].base,
        region_end(b[k]) <= region_end(c[jj]),
    ensures
        b[k].base == c[j].base,
{
    if b[k].base < c[j].base {
        if jj < j {
            lemma_sep_order(c, jj, j);
        } else if j < jj {
            lemma_sep_order(c, j, jj);
        }
    }
}

/// A region of a separated list that starts where an input region starts, where every input
/// region lies within a region of `b` and each region of `b` lies within one of the list, starts
/// where a region of `b` starts.
proof fn lemma_run_starts(input: Seq<Region>, b: Seq<Region>, c: Seq<Region>, j: int)
    requires
        separated(c),
        0 <= j < c.len(),
        starts_like_one_of(c[j], input),
        forall|t: int| 0 <= t < input.len() ==> contained_in(#[trigger] input[t], b),
        forall|k: int| 0 <= k < b.len() ==> contained_in(#[trigger] b[k], c),
    ensures
        starts_like_one_of(c[j], b),
{
    let i = choose|i: int| 0 <= i < input.len() && #[trigger] input[i].base == c[j].base;
    assert(contained_in(input[i], b));
    let k = choose|k: int|
        0 <= k < b.len() && b[k].base <= input[i].base && region_end(input[i]) <= region_end(
            #[trigger] b[k],
        );
    assert(contained_in(b[k], c));
    let jj = choose|jj: int|
        0 <= jj < c.len() && c[jj].base <= b[k].base && region_end(b[k]) <= region_end(
            #[trigger] c[jj],
        );
    lemma_start_not_inside(b, c, k, j, jj);
    assert(b[k].base == c[j].base);
}

/// Lists that each cover exactly what a third covers cover the same addresses.
proof fn lemma_same_cover(input: Seq<Region>, b: Seq<Region>, c: Seq<Region>)
    requires
        forall|a: int| covers(b, a) <==> covers(input, a),
        forall|a: int| covers(c, a) <==> covers(input, a),
    ensures
        forall|a: int| covers(c, a) <==> covers(b, a),
{
}

/// Every region of `b` lies within a region of the separated list `c`, when each starts where an
/// input region starts and `c` holds every input region and covers what `b` covers.
proof fn lemma_all_held(input: Seq<Region>, b: Seq<Region>, c: Seq<Region>)
    requires
        separated(c),
        forall|k: int| 0 <= k < b.len() ==> starts_like_one_of(#[trigger] b[k], input),
        forall|t: int| 0 <= t < input.len() ==> contained_in(#[trigger] input[t], c),
        forall|a: int| covers(b, a) <==> covers(input, a),
        forall|a: int| covers(c, a) <==> covers(input, a),
    ensures
        forall|k: int| 0 <= k < b.len() ==> contained_in(#[trigger] b[k], c),
{
    lemma_same_cover(input, b, c);
    assert forall|k: int| 0 <= k < b.len() implies contained_in(#[trigger] b[k], c) by {
        let j = lemma_run_held(input, b, c, k);
        assert(c[j].base <= b[k].base && region_end(b[k]) <= region_end(c[j]));
    }
}

/// Every region of the separated list `c` starts where a region of `b` starts, under the
/// conditions of `lemma_run_starts`.
proof fn lemma_all_start(input: Seq<Region>, b: Seq<Region>, c: Seq<Region>)
    requires
        separated(c),
        forall|j: int| 0 <= j < c.len() ==> starts_like_one_of(#[trigger] c[j], input),
        forall|t: int| 0 <= t < input.len() ==> contained_in(#[trigger] input[t], b),
        forall|k: int| 0 <= k < b.len() ==> contained_in(#[trigger] b[k], c),
    ensures
        forall|j: int| 0 <= j < c.len() ==> starts_like_one_of(#[trigger] c[j], b),
{
    assert forall|j: int| 0 <= j < c.len() implies starts_like_one_of(#[trigger] c[j], b) by {
        lemma_run_starts(input, b, c, j);
    }
}

/// The conditions of a coalescing, gathered.
proof fn lemma_recoalescing(input: Seq<Region>, b: Seq<Region>, c: Seq<Region>)
    requires
        c.len() == 0 <==> b.len() == 0,
        separated(c),
        ends_fit(c),
        forall|a: int| covers(b, a) <==> covers(input, a),
        forall|a: int| covers(c, a) <==> covers(input, a),
        forall|k: int| 0 <= k < b.len() ==> contained_in(#[trigger] b[k], c),
        forall|j: int| 0 <= j < c.len() ==> starts_like_one_of(#[trigger] c[j], b),
    ensures
        is_coalescing_of(c, b),
{
    lemma_same_cover(input, b, c);
}

/// Any two coalescings of one input are the same list.
#[verifier::spinoff_prover]
pub proof fn lemma_coalescing_determined(input: Seq<Region>, b: Seq<Region>, c: Seq<Region>)
    requires
        is_coalescing_of(b, input),
        is_coalescing_of(c, input),
    ensures
        b == c,
{
    lemma_all_held(input, b, c);
    lemma_all_start(input, b, c);
    lemma_recoalescing(input, b, c);
    lemma_coalescing_unique(b, c);
}

/// Coalescing does not depend on the order of its input: lists that hold the same regions,
/// counted with multiplicity, have the same coalescing.
pub proof fn lemma_coalesce_order_free(
    x: Seq<Region>,
    y: Seq<Region>,
    cx: Seq<Region>,
    cy: Seq<Region>,
)
    requires
        x.to_multiset() == y.to_multiset(),
        is_coalescing_of(cx, x),
        is_coalescing_of(cy, y),
    ensures
        cx == cy,
{
    lemma_same_elements(x, y);
    x.to_multiset_ensures();
    y.to_multiset_ensures();
    assert(x.len() == y.len());
    assert forall|a: int| covers(cy, a) <==> covers(x, a) by {
        lemma_covers_same_multiset(x, y, a);
    }
    assert forall|k: int| 0 <= k < x.len() implies contained_in(#[trigger] x[k], cy) by {
        let t = choose|t: int| 0 <= t < y.len() && y[t] == x[k];
        assert(contained_in(y[t], cy));
    }
    assert forall|j: int| 0 <= j < cy.len() implies starts_like_one_of(#[trigger] cy[j], x) by {
        assert(starts_like_one_of(cy[j], y));
        let k = choose|k: int| 0 <= k < y.len() && #[trigger] y[k].base == cy[j].base;
        let t = choose|t: int| 0 <= t < x.len() && x[t] == y[k];
        assert(x[t].base == cy[j].base);
    }
    assert(is_coalescing_of(cy, x));
    lemma_coalescing_determined(x, cx, cy);
}

} // verus!
