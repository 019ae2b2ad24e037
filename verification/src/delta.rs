//! Sparse deltas between two vectors of equal dimension.
//!
//! Components are compared by bit pattern: a change is recorded exactly where
//! the two bit patterns differ, so `+0.0` and `-0.0` count as different and a
//! NaN equals itself when its payload is the same.

use crate::vector::Vector;
use crate::wire::{
    get_le, le_decode, le_encode, lemma_le_decode_bound, lemma_le_decode_encode,
    lemma_le_encode_len, lemma_pow256_values, put_le,
};
use vstd::prelude::*;

verus! {

/// Why a delta operation failed.
#[derive(Clone, Copy, Debug, PartialEq, Eq, Structural)]
pub enum DeltaError {
    /// The two operands do not have the same dimension.
    DimensionMismatch,
    /// The bytes are not the encoding of any well-formed delta.
    CorruptDelta,
}

/// One changed component: its index and the bit pattern of its new value.
#[derive(Clone, Copy, Debug, PartialEq, Eq, Structural)]
pub struct DeltaChange {
    pub index: u64,
    pub value: u32,
}

/// The components that differ between a base vector and an updated one.
#[derive(Clone, Debug)]
pub struct VectorDelta {
    generation: u64,
    dimension: u64,
    changes: Vec<DeltaChange>,
}

/// The mathematical content of a [`VectorDelta`].
pub struct DeltaModel {
    pub generation: u64,
    pub dimension: u64,
    pub changes: Seq<DeltaChange>,
}

/// Every recorded index lies below the dimension.
pub open spec fn wf_model(d: DeltaModel) -> bool {
    &&& d.changes.len() <= u64::MAX
    &&& forall|k: int| 0 <= k < d.changes.len() ==> (#[trigger] d.changes[k]).index < d.dimension
}

/// The recorded indices are strictly ascending.
pub open spec fn ascending(changes: Seq<DeltaChange>) -> bool {
    forall|j: int, k: int|
        0 <= j < k < changes.len() ==> (#[trigger] changes[j]).index < (#[trigger] changes[k]).index
}

/// The changes among the first `n` components, in ascending index order.
pub open spec fn diff_changes(base: Seq<u32>, updated: Seq<u32>, n: nat) -> Seq<DeltaChange>
    decreases n,
{
    if n == 0 {
        Seq::empty()
    } else {
        let prev = diff_changes(base, updated, (n - 1) as nat);
        if base[n - 1] != updated[n - 1] {
            prev.push(DeltaChange { index: (n - 1) as u64, value: updated[n - 1] })
        } else {
            prev
        }
    }
}

/// The delta that turns `base` into `updated`.
pub open spec fn diff_model(base: Seq<u32>, updated: Seq<u32>, generation: u64) -> DeltaModel {
    DeltaModel {
        generation,
        dimension: base.len() as u64,
        changes: diff_changes(base, updated, base.len()),
    }
}

/// `base` with each change written over it, in the order recorded.
pub open spec fn apply_changes(base: Seq<u32>, changes: Seq<DeltaChange>) -> Seq<u32>
    decreases changes.len(),
{
    if changes.len() == 0 {
        base
    } else {
        let c = changes.last();
        apply_changes(base, changes.drop_last()).update(c.index as int, c.value)
    }
}

/// Twelve bytes: the index in eight, the value in four.
pub open spec fn change_bytes(c: DeltaChange) -> Seq<u8> {
    le_encode(c.index as nat, 8) + le_encode(c.value as nat, 4)
}

/// The changes one after another, twelve bytes each.
pub open spec fn changes_bytes(changes: Seq<DeltaChange>) -> Seq<u8>
    decreases changes.len(),
{
    if changes.len() == 0 {
        Seq::empty()
    } else {
        changes_bytes(changes.drop_last()) + change_bytes(changes.last())
    }
}

/// Generation, dimension and change count in eight bytes each, then the
/// changes; all integers little-endian.
pub open spec fn encode_spec(d: DeltaModel) -> Seq<u8> {
    le_encode(d.generation as nat, 8) + le_encode(d.dimension as nat, 8) + le_encode(
        d.changes.len(),
        8,
    ) + changes_bytes(d.changes)
}

/// The change held in the `k`-th twelve-byte slot after the header.
pub open spec fn change_at(bytes: Seq<u8>, k: int) -> DeltaChange {
    DeltaChange {
        index: le_decode(bytes.subrange(24 + 12 * k, 32 + 12 * k)) as u64,
        value: le_decode(bytes.subrange(32 + 12 * k, 36 + 12 * k)) as u32,
    }
}

/// The delta that `bytes` encodes, if any: the length must be exactly the
/// header plus one slot per announced change, and every index must lie below
/// the dimension. The order of the indices is not examined.
pub open spec fn decode_spec(bytes: Seq<u8>) -> Option<DeltaModel> {
    if bytes.len() < 24 {
        None
    } else {
        let count = le_decode(bytes.subrange(16, 24));
        let d = DeltaModel {
            generation: le_decode(bytes.subrange(0, 8)) as u64,
            dimension: le_decode(bytes.subrange(8, 16)) as u64,
            changes: Seq::new(count, |k: int| change_at(bytes, k)),
        };
        if bytes.len() == 24 + 12 * count && wf_model(d) {
            Some(d)
        } else {
            None
        }
    }
}

impl View for VectorDelta {
    type V = DeltaModel;

    closed spec fn view(&self) -> DeltaModel {
        DeltaModel {
            generation: self.generation,
            dimension: self.dimension,
            changes: self.changes@,
        }
    }
}

impl VectorDelta {
    /// Every recorded index lies below the dimension.
    pub open spec fn wf(&self) -> bool {
        wf_model(self@)
    }

    /// A delta from its parts; refused when an index reaches the dimension.
    pub fn new(generation: u64, dimension: u64, changes: Vec<DeltaChange>) -> (res: Result<
        VectorDelta,
        DeltaError,
    >)
        ensures
            match res {
                Ok(d) => d.wf() && d@ == (DeltaModel { generation, dimension, changes: changes@ }),
                Err(e) => e == DeltaError::CorruptDelta && !wf_model(
                    DeltaModel { generation, dimension, changes: changes@ },
                ),
            },
    {
        let mut k: usize = 0;
        while k < changes.len()
            invariant
                k <= changes@.len(),
                forall|j: int| 0 <= j < k ==> (#[trigger] changes@[j]).index < dimension,
            decreases changes@.len() - k,
        {
            if changes[k].index >= dimension {
                return Err(DeltaError::CorruptDelta);
            }
            k = k + 1;
        }
        Ok(VectorDelta { generation, dimension, changes })
    }

    /// Compares two vectors component by component and records, in ascending
    /// index order, each index whose bit pattern differs together with the
    /// updated value. The generation is stored as given.
    pub fn from_vectors(base: &Vector, updated: &Vector, generation: u64) -> (res: Result<
        VectorDelta,
        DeltaError,
    >)
        ensures
            base@.len() != updated@.len() ==> res == Err::<VectorDelta, DeltaError>(
                DeltaError::DimensionMismatch,
            ),
            base@.len() == updated@.len() ==> res is Ok && res.unwrap().wf() && res.unwrap()@
                == diff_model(base@, updated@, generation) && ascending(res.unwrap()@.changes),
    {
        let n = base.len();
        if n != updated.len() {
            return Err(DeltaError::DimensionMismatch);
        }
        let mut changes: Vec<DeltaChange> = Vec::new();
        let mut i: usize = 0;
        while i < n
            invariant
                i <= n,
                n == base@.len(),
                n == updated@.len(),
                changes@ == diff_changes(base@, updated@, i as nat),
            decreases n - i,
        {
            let new_value = updated.get(i);
            if base.get(i) != new_value {
                changes.push(DeltaChange { index: i as u64, value: new_value });
            }
            i = i + 1;
        }
        proof {
            lemma_diff_changes(base@, updated@, n as nat);
        }
        Ok(VectorDelta { generation, dimension: n as u64, changes })
    }

    /// The caller's tag for the base version, exactly as given.
    pub fn generation(&self) -> (g: u64)
        ensures
            g == self@.generation,
    {
        self.generation
    }

    /// The dimension of the vectors this delta relates.
    pub fn dimension(&self) -> (d: u64)
        ensures
            d == self@.dimension,
    {
        self.dimension
    }

    /// How many components changed.
    pub fn change_count(&self) -> (n: usize)
        ensures
            n == self@.changes.len(),
    {
        self.changes.len()
    }

    /// The `k`-th recorded change.
    pub fn change(&self, k: usize) -> (c: DeltaChange)
        requires
            k < self@.changes.len(),
        ensures
            c == self@.changes[k as int],
    {
        self.changes[k]
    }

    /// Writes each recorded value over a copy of `base`.
    pub fn apply(&self, base: &Vector) -> (res: Result<Vector, DeltaError>)
        requires
            self.wf(),
        ensures
            base@.len() != self@.dimension ==> res == Err::<Vector, DeltaError>(
                DeltaError::DimensionMismatch,
            ),
            base@.len() == self@.dimension ==> res is Ok && res.unwrap()@ == apply_changes(
                base@,
                self@.changes,
            ),
    {
        let n = base.len();
        if n as u64 != self.dimension {
            return Err(DeltaError::DimensionMismatch);
        }
        let mut out = base.as_f32_bits();
        let mut k: usize = 0;
        while k < self.changes.len()
            invariant
                k <= self.changes@.len(),
                self.wf(),
                n == base@.len(),
                n == self.dimension,
                out@.len() == n,
                out@ == apply_changes(base@, self.changes@.subrange(0, k as int)),
            decreases self.changes@.len() - k,
        {
            let c = self.changes[k];
            proof {
                let next = self.changes@.subrange(0, k + 1);
                assert(next.drop_last() =~= self.changes@.subrange(0, k as int));
                assert(next.last() == c);
                assert(self@.changes[k as int].index < self@.dimension);
                assert(c.index < n);
            }
            out.set(c.index as usize, c.value);
            k = k + 1;
        }
        proof {
            assert(self.changes@.subrange(0, k as int) =~= self.changes@);
        }
        Ok(Vector::from_f32_bits(out))
    }

    /// The wire form of this delta.
    pub fn encode(&self) -> (bytes: Vec<u8>)
        ensures
            bytes@ == encode_spec(self@),
    {
        let mut out: Vec<u8> = Vec::new();
        put_le(&mut out, self.generation, 8);
        put_le(&mut out, self.dimension, 8);
        put_le(&mut out, self.changes.len() as u64, 8);
        let ghost header = out@;
        let mut k: usize = 0;
        while k < self.changes.len()
            invariant
                k <= self.changes@.len(),
                out@ == header + changes_bytes(self.changes@.subrange(0, k as int)),
            decreases self.changes@.len() - k,
        {
            let c = self.changes[k];
            let ghost before = out@;
            put_le(&mut out, c.index, 8);
            put_le(&mut out, c.value as u64, 4);
            proof {
                let next = self.changes@.subrange(0, k + 1);
                assert(next.drop_last() =~= self.changes@.subrange(0, k as int));
                assert(next.last() == c);
                assert(out@ =~= header + changes_bytes(next));
            }
            k = k + 1;
        }
        proof {
            assert(self.changes@.subrange(0, k as int) =~= self.changes@);
            assert(header =~= le_encode(self.generation as nat, 8) + le_encode(
                self.dimension as nat,
                8,
            ) + le_encode(self.changes@.len(), 8));
        }
        out
    }

    /// Reads a delta back from its wire form.
    pub fn decode(bytes: &[u8]) -> (res: Result<VectorDelta, DeltaError>)
        ensures
            match decode_spec(bytes@) {
                Some(d) => res is Ok && res.unwrap()@ == d && res.unwrap().wf(),
                None => res == Err::<VectorDelta, DeltaError>(DeltaError::CorruptDelta),
            },
    {
        let n = bytes.len();
        if n < 24 {
            return Err(DeltaError::CorruptDelta);
        }
        let generation = get_le(bytes, 0, 8);
        let dimension = get_le(bytes, 8, 8);
        let count = get_le(bytes, 16, 8);
        let body = n - 24;
        if body % 12 != 0 || (body / 12) as u64 != count {
            return Err(DeltaError::CorruptDelta);
        }
        let slots = body / 12;
        let ghost model = decode_spec_candidate(bytes@);
        let mut changes: Vec<DeltaChange> = Vec::new();
        let mut k: usize = 0;
        while k < slots
            invariant
                k <= slots,
                n == bytes@.len(),
                n == 24 + 12 * slots,
                model == decode_spec_candidate(bytes@),
                model.changes.len() == slots,
                model.dimension == dimension,
                changes@ == model.changes.subrange(0, k as int),
                forall|j: int| 0 <= j < k ==> (#[trigger] model.changes[j]).index < dimension,
            decreases slots - k,
        {
            let pos = 24 + 12 * k;
            let index = get_le(bytes, pos, 8);
            let value = get_le(bytes, pos + 8, 4);
            proof {
                lemma_le_decode_bound(bytes@.subrange(pos + 8, pos + 12));
                lemma_pow256_values();
                assert(model.changes[k as int] == change_at(bytes@, k as int));
            }
            let c = DeltaChange { index, value: value as u32 };
            if index >= dimension {
                proof {
                    assert(!((#[trigger] model.changes[k as int]).index < model.dimension));
                }
                return Err(DeltaError::CorruptDelta);
            }
            changes.push(c);
            proof {
                assert(changes@ =~= model.changes.subrange(0, k + 1));
            }
            k = k + 1;
        }
        proof {
            assert(changes@ =~= model.changes);
        }
        Ok(VectorDelta { generation, dimension, changes })
    }
}

/// What `bytes` would decode to if its length and indices are in order.
pub open spec fn decode_spec_candidate(bytes: Seq<u8>) -> DeltaModel {
    DeltaModel {
        generation: le_decode(bytes.subrange(0, 8)) as u64,
        dimension: le_decode(bytes.subrange(8, 16)) as u64,
        changes: Seq::new(le_decode(bytes.subrange(16, 24)), |k: int| change_at(bytes, k)),
    }
}

/// The changes that a comparison records are ascending, lie below `n`, and
/// number at most `n`.
pub proof fn lemma_diff_changes(base: Seq<u32>, updated: Seq<u32>, n: nat)
    requires
        n <= base.len(),
        n <= updated.len(),
        n <= usize::MAX,
    ensures
        diff_changes(base, updated, n).len() <= n,
        ascending(diff_changes(base, updated, n)),
        forall|k: int|
            0 <= k < diff_changes(base, updated, n).len() ==> {
                let c = #[trigger] diff_changes(base, updated, n)[k];
                &&& c.index < n
                &&& c.value == updated[c.index as int]
                &&& base[c.index as int] != c.value
            },
    decreases n,
{
    if n > 0 {
        lemma_diff_changes(base, updated, (n - 1) as nat);
    }
}

/// Applying the delta from `base` to `updated` to `base` gives `updated`.
pub proof fn lemma_apply_diff(base: Seq<u32>, updated: Seq<u32>)
    requires
        base.len() == updated.len(),
        base.len() <= usize::MAX,
    ensures
        apply_changes(base, diff_changes(base, updated, base.len())) == updated,
{
    lemma_apply_diff_prefix(base, updated, base.len());
    assert(apply_changes(base, diff_changes(base, updated, base.len())) =~= updated);
}

proof fn lemma_apply_diff_prefix(base: Seq<u32>, updated: Seq<u32>, n: nat)
    requires
        base.len() == updated.len(),
        n <= base.len(),
        base.len() <= usize::MAX,
    ensures
        apply_changes(base, diff_changes(base, updated, n)).len() == base.len(),
        forall|i: int|
            0 <= i < n ==> apply_changes(base, diff_changes(base, updated, n))[i] == updated[i],
        forall|i: int|
            n <= i < base.len() ==> apply_changes(base, diff_changes(base, updated, n))[i]
                == base[i],
    decreases n,
{
    if n > 0 {
        let prev = diff_changes(base, updated, (n - 1) as nat);
        lemma_apply_diff_prefix(base, updated, (n - 1) as nat);
        if base[n - 1] != updated[n - 1] {
            let c = DeltaChange { index: (n - 1) as u64, value: updated[n - 1] };
            assert(prev.push(c).drop_last() =~= prev);
            assert(prev.push(c).last() == c);
        }
    }
}

/// A sequence of changes takes twelve bytes each.
pub proof fn lemma_changes_bytes_len(changes: Seq<DeltaChange>)
    ensures
        changes_bytes(changes).len() == 12 * changes.len(),
    decreases changes.len(),
{
    if changes.len() > 0 {
        lemma_changes_bytes_len(changes.drop_last());
        lemma_le_encode_len(changes.last().index as nat, 8);
        lemma_le_encode_len(changes.last().value as nat, 4);
    }
}

proof fn lemma_changes_bytes_slot(changes: Seq<DeltaChange>, k: int)
    requires
        0 <= k < changes.len(),
    ensures
        changes_bytes(changes).len() == 12 * changes.len(),
        changes_bytes(changes).subrange(12 * k, 12 * k + 8) == le_encode(
            changes[k].index as nat,
            8,
        ),
        changes_bytes(changes).subrange(12 * k + 8, 12 * k + 12) == le_encode(
            changes[k].value as nat,
            4,
        ),
    decreases changes.len(),
{
    let all = changes_bytes(changes);
    let front = changes_bytes(changes.drop_last());
    let last = changes.last();
    lemma_changes_bytes_len(changes);
    lemma_changes_bytes_len(changes.drop_last());
    lemma_le_encode_len(last.index as nat, 8);
    lemma_le_encode_len(last.value as nat, 4);
    if k == changes.len() - 1 {
        assert(all.subrange(12 * k, 12 * k + 8) =~= le_encode(last.index as nat, 8));
        assert(all.subrange(12 * k + 8, 12 * k + 12) =~= le_encode(last.value as nat, 4));
    } else {
        lemma_changes_bytes_slot(changes.drop_last(), k);
        assert(all.subrange(12 * k, 12 * k + 8) =~= front.subrange(12 * k, 12 * k + 8));
        assert(all.subrange(12 * k + 8, 12 * k + 12) =~= front.subrange(12 * k + 8, 12 * k + 12));
    }
}

/// Decoding the encoding of a well-formed delta gives back its generation,
/// its dimension and its list of changes.
pub proof fn lemma_decode_encode(d: DeltaModel)
    requires
        wf_model(d),
    ensures
        decode_spec(encode_spec(d)) == Some(d),
{
    let bytes = encode_spec(d);
    let count = d.changes.len();
    lemma_le_encode_len(d.generation as nat, 8);
    lemma_le_encode_len(d.dimension as nat, 8);
    lemma_le_encode_len(count, 8);
    lemma_changes_bytes_len(d.changes);
    lemma_pow256_values();
    lemma_le_decode_encode(d.generation as nat, 8);
    lemma_le_decode_encode(d.dimension as nat, 8);
    lemma_le_decode_encode(count, 8);
    assert(bytes.subrange(0, 8) =~= le_encode(d.generation as nat, 8));
    assert(bytes.subrange(8, 16) =~= le_encode(d.dimension as nat, 8));
    assert(bytes.subrange(16, 24) =~= le_encode(count, 8));
    let got = decode_spec_candidate(bytes);
    assert(got.changes.len() == count);
    assert forall|k: int| 0 <= k < count implies got.changes[k] == d.changes[k] by {
        let c = d.changes[k];
        lemma_changes_bytes_slot(d.changes, k);
        let body = changes_bytes(d.changes);
        assert(bytes.subrange(24 + 12 * k, 32 + 12 * k) =~= body.subrange(12 * k, 12 * k + 8));
        assert(bytes.subrange(32 + 12 * k, 36 + 12 * k) =~= body.subrange(
            12 * k + 8,
            12 * k + 12,
        ));
        lemma_le_decode_encode(c.index as nat, 8);
        lemma_le_decode_encode(c.value as nat, 4);
    }
    assert(got.changes =~= d.changes);
    assert(got == d);
}

/// A delta computed from two vectors survives the wire and, applied to the
/// first vector, gives the second.
pub proof fn lemma_delta_transport(base: Seq<u32>, updated: Seq<u32>, generation: u64)
    requires
        base.len() == updated.len(),
        base.len() <= usize::MAX,
    ensures
        wf_model(diff_model(base, updated, generation)),
        ascending(diff_model(base, updated, generation).changes),
        decode_spec(encode_spec(diff_model(base, updated, generation))) == Some(
            diff_model(base, updated, generation),
        ),
        apply_changes(base, diff_model(base, updated, generation).changes) == updated,
{
    lemma_diff_changes(base, updated, base.len());
    lemma_decode_encode(diff_model(base, updated, generation));
    lemma_apply_diff(base, updated);
}

} // verus!
