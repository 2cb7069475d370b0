//! The masked matcher: every place in a buffer where a signature's fixed bytes all agree.

use vstd::prelude::*;

use crate::pattern::Signature;

verus! {

/// Whether the signature `bytes`/`mask` matches `data` at offset `i`: the whole signature fits and
/// every fixed byte (mask set) equals the byte under it; wildcards match anything.
pub open spec fn fixed_match(data: Seq<u8>, bytes: Seq<u8>, mask: Seq<bool>, i: int) -> bool {
    &&& 0 <= i
    &&& i + bytes.len() <= data.len()
    &&& forall|k: int| 0 <= k < bytes.len() && mask[k] ==> #[trigger] data[i + k] == bytes[k]
}

/// The offsets at `i` or later where the signature matches, ascending.
pub open spec fn match_offsets(data: Seq<u8>, bytes: Seq<u8>, mask: Seq<bool>, i: int) -> Seq<usize>
    decreases data.len() + 1 - i,
{
    if i < 0 || i + bytes.len() > data.len() {
        Seq::empty()
    } else {
        (if fixed_match(data, bytes, mask, i) {
            seq![i as usize]
        } else {
            Seq::empty()
        }) + match_offsets(data, bytes, mask, i + 1)
    }
}

/// Whether a signature can be searched for: a mask for every byte and at least one fixed byte.
pub open spec fn searchable(bytes: Seq<u8>, mask: Seq<bool>) -> bool {
    bytes.len() == mask.len() && exists|k: int| 0 <= k < mask.len() && mask[k]
}

/// A signature ready for searching: as many mask entries as bytes, and at least one fixed byte.
pub struct CompiledPattern {
    bytes: Vec<u8>,
    mask: Vec<bool>,
}

impl View for CompiledPattern {
    type V = (Seq<u8>, Seq<bool>);

    closed spec fn view(&self) -> (Seq<u8>, Seq<bool>) {
        (self.bytes@, self.mask@)
    }
}

impl CompiledPattern {
    /// Compile a signature; `None` when it has no fixed byte to anchor a search on (or its mask
    /// does not cover its bytes).
    pub fn new(sig: &Signature) -> (r: Option<CompiledPattern>)
        ensures
            searchable(sig.bytes@, sig.mask@) <==> r is Some,
            r matches Some(cp) ==> cp@ == (sig.bytes@, sig.mask@),
    {
        if sig.bytes.len() != sig.mask.len() {
            return None;
        }
        let mut i: usize = 0;
        while i < sig.mask.len()
            invariant
                0 <= i <= sig.mask@.len(),
                sig.bytes@.len() == sig.mask@.len(),
                forall|k: int| 0 <= k < i ==> !sig.mask@[k],
            decreases sig.mask@.len() - i,
        {
            if sig.mask[i] {
                let bytes = sig.bytes.clone();
                let mask = sig.mask.clone();
                assert(bytes@ =~= sig.bytes@);
                assert(mask@ =~= sig.mask@);
                assert(mask@[i as int]);
                assert(searchable(bytes@, mask@));
                return Some(CompiledPattern { bytes, mask });
            }
            i = i + 1;
        }
        None
    }

    /// The signature's length in bytes.
    pub fn len(&self) -> (r: usize)
        ensures
            r == self@.0.len(),
            searchable(self@.0, self@.1),
    {
        proof {
            use_type_invariant(self);
        }
        self.bytes.len()
    }

    #[verifier::type_invariant]
    spec fn inv(&self) -> bool {
        searchable(self.bytes@, self.mask@)
    }
}

/// Every offset of `data` at which `cp` matches, ascending; overlapping matches are all reported.
pub fn find_all(data: &[u8], cp: &CompiledPattern) -> (r: Vec<usize>)
    ensures
        r@ == match_offsets(data@, cp@.0, cp@.1, 0),
{
    proof {
        use_type_invariant(cp);
    }
    let bytes = &cp.bytes;
    let mask = &cp.mask;
    let n = bytes.len();
    let mut out: Vec<usize> = Vec::new();
    if data.len() < n {
        return out;
    }
    let len = data.len();
    let last = len - n;
    let mut i: usize = 0;
    while i <= last
        invariant
            0 <= i <= last + 1,
            last + n == len == data@.len(),
            n >= 1,
            n == bytes@.len() == mask@.len(),
            bytes@ == cp@.0,
            mask@ == cp@.1,
            match_offsets(data@, bytes@, mask@, 0) == out@ + match_offsets(
                data@,
                bytes@,
                mask@,
                i as int,
            ),
        decreases last + 1 - i,
    {
        let mut j: usize = 0;
        let mut ok = true;
        while j < n
            invariant
                0 <= j <= n,
                i + n <= len == data@.len(),
                n == bytes@.len() == mask@.len(),
                ok == forall|k: int| 0 <= k < j && mask@[k] ==> data@[i + k] == bytes@[k],
            decreases n - j,
        {
            if mask[j] && data[i + j] != bytes[j] {
                ok = false;
            }
            j = j + 1;
        }
        assert(ok == fixed_match(data@, bytes@, mask@, i as int));
        let ghost before = out@;
        if ok {
            out.push(i);
            assert(out@ + match_offsets(data@, bytes@, mask@, i + 1) =~= before + (seq![i]
                + match_offsets(data@, bytes@, mask@, i + 1)));
        } else {
            assert(before + (Seq::<usize>::empty() + match_offsets(data@, bytes@, mask@, i + 1))
                =~= before + match_offsets(data@, bytes@, mask@, i + 1));
        }
        i = i + 1;
    }
    assert(match_offsets(data@, bytes@, mask@, i as int) =~= Seq::<usize>::empty());
    assert(out@ + Seq::<usize>::empty() =~= out@);
    out
}

/// Every reported offset is a match at or after where the search started.
pub proof fn lemma_match_offsets(data: Seq<u8>, bytes: Seq<u8>, mask: Seq<bool>, i: int)
    requires
        data.len() <= usize::MAX,
    ensures
        forall|t: int|
            0 <= t < match_offsets(data, bytes, mask, i).len() ==> {
                let o = #[trigger] match_offsets(data, bytes, mask, i)[t];
                &&& i <= o
                &&& fixed_match(data, bytes, mask, o as int)
            },
    decreases data.len() + 1 - i,
{
    if i < 0 || i + bytes.len() > data.len() {
    } else {
        lemma_match_offsets(data, bytes, mask, i + 1);
        let head = if fixed_match(data, bytes, mask, i) {
            seq![i as usize]
        } else {
            Seq::<usize>::empty()
        };
        let all = match_offsets(data, bytes, mask, i);
        assert(all == head + match_offsets(data, bytes, mask, i + 1));
        assert forall|t: int| 0 <= t < all.len() implies i <= all[t] && fixed_match(
            data,
            bytes,
            mask,
            all[t] as int,
        ) by {
            if t < head.len() {
                assert(all[t] == i);
            } else {
                assert(all[t] == match_offsets(data, bytes, mask, i + 1)[t - head.len()]);
            }
        }
    }
}

} // verus!
