//! Fixed-dimension embedding vectors.

use vstd::prelude::*;

verus! {

/// An immutable, fixed-length sequence of single-precision floats, each held
/// as its IEEE-754 bit pattern.
#[derive(Clone, Debug)]
pub struct Vector {
    bits: Vec<u32>,
}

impl View for Vector {
    type V = Seq<u32>;

    closed spec fn view(&self) -> Seq<u32> {
        self.bits@
    }
}

impl Vector {
    /// Wraps the bit patterns of a sequence of floats; the dimension is the
    /// input length, and zero-length input is accepted.
    pub fn from_f32_bits(values: Vec<u32>) -> (v: Vector)
        ensures
            v@ == values@,
    {
        Vector { bits: values }
    }

    /// The bit patterns of the components, in order.
    pub fn as_f32_bits(&self) -> (out: Vec<u32>)
        ensures
            out@ == self@,
    {
        let mut out: Vec<u32> = Vec::new();
        let mut i: usize = 0;
        while i < self.bits.len()
            invariant
                i <= self.bits@.len(),
                out@ == self.bits@.subrange(0, i as int),
            decreases self.bits@.len() - i,
        {
            out.push(self.bits[i]);
            proof {
                assert(out@ =~= self.bits@.subrange(0, i + 1));
            }
            i = i + 1;
        }
        proof {
            assert(out@ =~= self.bits@);
        }
        out
    }

    /// The dimension.
    pub fn len(&self) -> (n: usize)
        ensures
            n == self@.len(),
    {
        self.bits.len()
    }

    /// The bit pattern of component `i`.
    pub fn get(&self, i: usize) -> (b: u32)
        requires
            i < self@.len(),
        ensures
            b == self@[i as int],
    {
        self.bits[i]
    }
}

} // verus!
