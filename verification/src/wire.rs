//! Little-endian fixed-width integers on the wire.

use vstd::prelude::*;

verus! {

/// 256 to the power `n`.
pub open spec fn pow256(n: nat) -> nat
    decreases n,
{
    if n == 0 {
        1
    } else {
        256 * pow256((n - 1) as nat)
    }
}

/// The `width` low-order bytes of `x`, least significant first.
pub open spec fn le_encode(x: nat, width: nat) -> Seq<u8>
    decreases width,
{
    if width == 0 {
        Seq::empty()
    } else {
        seq![(x % 256) as u8] + le_encode(x / 256, (width - 1) as nat)
    }
}

/// The number whose little-endian digits in base 256 are `bytes`.
pub open spec fn le_decode(bytes: Seq<u8>) -> nat
    decreases bytes.len(),
{
    if bytes.len() == 0 {
        0
    } else {
        bytes[0] as nat + 256 * le_decode(bytes.subrange(1, bytes.len() as int))
    }
}

/// The powers of 256 up to the eighth.
pub proof fn lemma_pow256_values()
    ensures
        pow256(0) == 1,
        pow256(1) == 0x100,
        pow256(2) == 0x1_0000,
        pow256(3) == 0x100_0000,
        pow256(4) == 0x1_0000_0000,
        pow256(5) == 0x100_0000_0000,
        pow256(6) == 0x1_0000_0000_0000,
        pow256(7) == 0x100_0000_0000_0000,
        pow256(8) == 0x1_0000_0000_0000_0000,
{
    reveal_with_fuel(pow256, 10);
}

/// An encoding has as many bytes as its width.
pub proof fn lemma_le_encode_len(x: nat, width: nat)
    ensures
        le_encode(x, width).len() == width,
    decreases width,
{
    if width > 0 {
        lemma_le_encode_len(x / 256, (width - 1) as nat);
    }
}

/// Decoding undoes encoding whenever the number fits the width.
pub proof fn lemma_le_decode_encode(x: nat, width: nat)
    requires
        x < pow256(width),
    ensures
        le_decode(le_encode(x, width)) == x,
    decreases width,
{
    if width > 0 {
        let rest = le_encode(x / 256, (width - 1) as nat);
        let all = le_encode(x, width);
        lemma_le_encode_len(x / 256, (width - 1) as nat);
        lemma_le_decode_encode(x / 256, (width - 1) as nat);
        assert(all.subrange(1, all.len() as int) =~= rest);
        assert(all[0] == (x % 256) as u8);
    }
}

/// A byte string stands for a number below 256 to the power of its length.
pub proof fn lemma_le_decode_bound(bytes: Seq<u8>)
    ensures
        le_decode(bytes) < pow256(bytes.len()),
    decreases bytes.len(),
{
    if bytes.len() > 0 {
        lemma_le_decode_bound(bytes.subrange(1, bytes.len() as int));
    }
}

/// The two's-complement bit pattern of a signed integer.
pub open spec fn i64_bits(i: i64) -> u64 {
    if i >= 0 {
        i as u64
    } else {
        (i + 0x1_0000_0000_0000_0000) as u64
    }
}

/// The signed integer that a two's-complement bit pattern stands for.
pub open spec fn bits_i64(u: u64) -> i64 {
    if u < 0x8000_0000_0000_0000 {
        u as i64
    } else {
        (u - 0x1_0000_0000_0000_0000) as i64
    }
}

/// The two's-complement bit pattern of a signed integer.
pub fn i64_to_bits(i: i64) -> (u: u64)
    ensures
        u == i64_bits(i),
        bits_i64(u) == i,
{
    if i >= 0 {
        i as u64
    } else {
        ((i - i64::MIN) as u64) + 0x8000_0000_0000_0000
    }
}

/// The signed integer that a two's-complement bit pattern stands for.
pub fn bits_to_i64(u: u64) -> (i: i64)
    ensures
        i == bits_i64(u),
        i64_bits(i) == u,
{
    if u < 0x8000_0000_0000_0000 {
        u as i64
    } else {
        ((u - 0x8000_0000_0000_0000) as i64) + i64::MIN
    }
}

/// Appends the `width` low-order bytes of `x`, least significant first.
pub fn put_le(out: &mut Vec<u8>, x: u64, width: usize)
    requires
        width <= 8,
    ensures
        final(out)@ == old(out)@ + le_encode(x as nat, width as nat),
{
    let mut rest: u64 = x;
    let mut k: usize = 0;
    while k < width
        invariant
            k <= width <= 8,
            out@ + le_encode(rest as nat, (width - k) as nat) =~= old(out)@ + le_encode(
                x as nat,
                width as nat,
            ),
        decreases width - k,
    {
        let ghost before = out@;
        let b: u8 = (rest % 256) as u8;
        out.push(b);
        proof {
            let tail = le_encode((rest / 256) as nat, (width - k - 1) as nat);
            assert(le_encode(rest as nat, (width - k) as nat) =~= seq![b] + tail);
            assert(before.push(b) + tail =~= before + (seq![b] + tail));
        }
        rest = rest / 256;
        k = k + 1;
    }
}

/// Reads `width` bytes at `pos` as a little-endian number.
pub fn get_le(bytes: &[u8], pos: usize, width: usize) -> (r: u64)
    requires
        width <= 8,
        pos + width <= bytes@.len(),
    ensures
        r as nat == le_decode(bytes@.subrange(pos as int, pos + width)),
{
    let n = bytes.len();
    let mut acc: u64 = 0;
    let mut k: usize = 0;
    while k < width
        invariant
            k <= width <= 8,
            n == bytes@.len(),
            pos + width <= n,
            acc as nat == le_decode(bytes@.subrange(pos + width - k, pos + width)),
            (acc as nat) < pow256(k as nat),
        decreases width - k,
    {
        let b: u8 = bytes[pos + width - 1 - k];
        proof {
            let sub = bytes@.subrange(pos + width - k - 1, pos + width);
            assert(sub.subrange(1, sub.len() as int) =~= bytes@.subrange(
                pos + width - k,
                pos + width,
            ));
            assert(sub[0] == b);
            lemma_pow256_values();
            lemma_pow256_monotonic((k + 1) as nat, 8);
        }
        acc = acc * 256 + b as u64;
        k = k + 1;
    }
    acc
}

/// Powers of 256 grow with the exponent.
pub proof fn lemma_pow256_monotonic(a: nat, b: nat)
    requires
        a <= b,
    ensures
        pow256(a) <= pow256(b),
    decreases b,
{
    if a < b {
        lemma_pow256_monotonic(a, (b - 1) as nat);
    }
}

} // verus!
