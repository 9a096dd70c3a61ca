//! Fixed-width integers on the wire: little-endian, exact width, negative
//! numbers in two's complement.

use vstd::prelude::*;
use vstd::arithmetic::div_mod::lemma_div_denominator;
use vstd::arithmetic::div_mod::lemma_fundamental_div_mod;

verus! {

/// 256 to the power `n`: the number of values that `n` bytes can hold.
pub open spec fn pow256(n: nat) -> nat
    decreases n,
{
    if n == 0 {
        1
    } else {
        256 * pow256((n - 1) as nat)
    }
}

/// The `width` low bytes of `value`, least significant first.
pub open spec fn le_bytes(value: nat, width: nat) -> Seq<u8>
    decreases width,
{
    if width == 0 {
        Seq::empty()
    } else {
        seq![(value % 256) as u8] + le_bytes(value / 256, (width - 1) as nat)
    }
}

/// The number that `bytes` hold, least significant byte first.
pub open spec fn le_value(bytes: Seq<u8>) -> nat
    decreases bytes.len(),
{
    if bytes.len() == 0 {
        0
    } else {
        bytes[0] as nat + 256 * le_value(bytes.skip(1))
    }
}

/// The unsigned number whose `width` bytes are the two's complement of `x`.
pub open spec fn twos_complement(x: int, width: nat) -> nat {
    if x >= 0 {
        x as nat
    } else {
        (x + pow256(width)) as nat
    }
}

/// The signed number that `n` stands for in two's complement of `width` bytes.
pub open spec fn from_twos_complement(n: nat, width: nat) -> int {
    if 2 * n < pow256(width) {
        n as int
    } else {
        n - pow256(width)
    }
}

/// Whether `x` fits a signed integer of `width` bytes.
pub open spec fn fits_signed(x: int, width: nat) -> bool {
    -(pow256(width) as int) <= 2 * x < pow256(width)
}

/// The powers of 256 for the widths in use.
pub proof fn lemma_pow256_values()
    ensures
        pow256(0) == 1,
        pow256(1) == 0x100,
        pow256(2) == 0x1_0000,
        pow256(4) == 0x1_0000_0000,
        pow256(8) == 0x1_0000_0000_0000_0000,
{
    reveal_with_fuel(pow256, 9);
}

/// A power of 256 is positive.
pub proof fn lemma_pow256_positive(n: nat)
    ensures
        pow256(n) > 0,
    decreases n,
{
    if n > 0 {
        lemma_pow256_positive((n - 1) as nat);
    }
}

/// `le_bytes` gives exactly `width` bytes.
pub proof fn lemma_le_bytes_len(value: nat, width: nat)
    ensures
        le_bytes(value, width).len() == width,
    decreases width,
{
    if width > 0 {
        lemma_le_bytes_len(value / 256, (width - 1) as nat);
    }
}

/// One byte more of the same number is one byte appended.
pub proof fn lemma_le_bytes_push(value: nat, width: nat)
    ensures
        le_bytes(value, width + 1) == le_bytes(value, width).push(
            ((value / pow256(width)) % 256) as u8,
        ),
    decreases width,
{
    if width == 0 {
        assert(pow256(0) == 1);
        assert(le_bytes(value / 256, 0) =~= Seq::<u8>::empty());
        assert(le_bytes(value, 1) =~= seq![(value % 256) as u8]);
        assert(le_bytes(value, 0) =~= Seq::<u8>::empty());
        assert(le_bytes(value, 1) =~= le_bytes(value, 0).push((value % 256) as u8));
    } else {
        let w = (width - 1) as nat;
        lemma_le_bytes_push(value / 256, w);
        lemma_pow256_positive(w);
        lemma_div_denominator(value as int, 256, pow256(w) as int);
        assert(pow256(width) == 256 * pow256(w));
        assert((value / 256) / pow256(w) == value / pow256(width));
        assert(le_bytes(value, width + 1) =~= seq![(value % 256) as u8] + le_bytes(
            value / 256,
            width,
        ));
        assert(le_bytes(value, width + 1) =~= le_bytes(value, width).push(
            ((value / pow256(width)) % 256) as u8,
        ));
    }
}

/// What `n` bytes hold is below 256 to the `n`.
pub proof fn lemma_le_value_bound(bytes: Seq<u8>)
    ensures
        le_value(bytes) < pow256(bytes.len()),
    decreases bytes.len(),
{
    if bytes.len() > 0 {
        lemma_le_value_bound(bytes.skip(1));
        let rest = le_value(bytes.skip(1));
        let p = pow256((bytes.len() - 1) as nat);
        assert(rest + 1 <= p);
        assert(256 * (rest + 1) <= 256 * p) by (nonlinear_arith)
            requires
                rest + 1 <= p,
        ;
    }
}

/// Reading back the bytes of a number that fits gives the number.
pub proof fn lemma_le_value_of_bytes(value: nat, width: nat)
    requires
        value < pow256(width),
    ensures
        le_value(le_bytes(value, width)) == value,
    decreases width,
{
    if width > 0 {
        let w = (width - 1) as nat;
        let bytes = le_bytes(value, width);
        assert(value / 256 < pow256(w)) by (nonlinear_arith)
            requires
                value < 256 * pow256(w),
        ;
        lemma_le_value_of_bytes(value / 256, w);
        assert(bytes.skip(1) =~= le_bytes(value / 256, w));
        assert(bytes[0] == (value % 256) as u8);
        lemma_fundamental_div_mod(value as int, 256);
    }
}

/// Writing the number that bytes hold, in as many bytes, gives the bytes.
pub proof fn lemma_le_bytes_of_value(bytes: Seq<u8>)
    ensures
        le_bytes(le_value(bytes), bytes.len()) == bytes,
    decreases bytes.len(),
{
    if bytes.len() == 0 {
        assert(le_bytes(0, 0) =~= bytes);
    } else {
        let rest = le_value(bytes.skip(1));
        let value = le_value(bytes);
        lemma_le_bytes_of_value(bytes.skip(1));
        assert(value == bytes[0] as nat + 256 * rest);
        assert(value % 256 == bytes[0] as nat && value / 256 == rest) by (nonlinear_arith)
            requires
                value == bytes[0] as nat + 256 * rest,
                bytes[0] < 256,
        ;
        assert(le_bytes(value, bytes.len()) =~= seq![bytes[0]] + bytes.skip(1));
        assert(seq![bytes[0]] + bytes.skip(1) =~= bytes);
    }
}

/// Two's complement and its inverse cancel on every number that fits.
pub proof fn lemma_twos_complement_inverse(x: int, width: nat)
    requires
        fits_signed(x, width),
    ensures
        twos_complement(x, width) < pow256(width),
        from_twos_complement(twos_complement(x, width), width) == x,
{
}

/// What comes out of two's complement fits, and goes back to where it came
/// from.
pub proof fn lemma_from_twos_complement_inverse(n: nat, width: nat)
    requires
        n < pow256(width),
    ensures
        fits_signed(from_twos_complement(n, width), width),
        twos_complement(from_twos_complement(n, width), width) == n,
{
}

/// Appends the `width` low bytes of `value` to `out`, least significant first.
pub(crate) fn write_le(out: &mut Vec<u8>, value: u64, width: usize)
    ensures
        final(out)@ == old(out)@ + le_bytes(value as nat, width as nat),
{
    let mut rest: u64 = value;
    let mut i: usize = 0;
    proof {
        assert(pow256(0) == 1);
        assert(le_bytes(value as nat, 0) =~= Seq::<u8>::empty());
        assert(out@ =~= old(out)@ + le_bytes(value as nat, 0));
    }
    while i < width
        invariant
            i <= width,
            out@ == old(out)@ + le_bytes(value as nat, i as nat),
            rest == value as nat / pow256(i as nat),
        decreases width - i,
    {
        let byte: u8 = (rest % 256) as u8;
        proof {
            lemma_le_bytes_push(value as nat, i as nat);
            lemma_pow256_positive(i as nat);
            lemma_div_denominator(value as int, pow256(i as nat) as int, 256);
            assert(pow256((i + 1) as nat) == 256 * pow256(i as nat));
            assert(pow256(i as nat) * 256 == pow256((i + 1) as nat));
            assert((old(out)@ + le_bytes(value as nat, i as nat)).push(byte) =~= old(out)@
                + le_bytes(value as nat, i as nat).push(byte));
        }
        out.push(byte);
        rest = rest / 256;
        i += 1;
    }
}

/// Reads the number that the `width` bytes from `pos` on hold.
pub(crate) fn read_le(data: &[u8], pos: usize, width: usize) -> (value: u64)
    requires
        width <= 8,
        pos + width <= data@.len(),
    ensures
        value == le_value(data@.subrange(pos as int, pos + width)),
{
    let ghost bytes = data@.subrange(pos as int, pos + width);
    let len: usize = data.len();
    let mut value: u64 = 0;
    let mut i: usize = width;
    proof {
        lemma_pow256_values();
        assert(bytes.skip(width as int) =~= Seq::<u8>::empty());
    }
    while i > 0
        invariant
            i <= width <= 8,
            pos + width <= data@.len() == len,
            bytes == data@.subrange(pos as int, pos + width),
            value == le_value(bytes.skip(i as int)),
        decreases i,
    {
        i -= 1;
        proof {
            let tail = bytes.skip(i as int);
            assert(tail.skip(1) =~= bytes.skip(i + 1));
            assert(tail[0] == data@[pos + i]);
            lemma_le_value_bound(tail);
            lemma_pow256_bound(tail.len());
        }
        value = value * 256 + data[pos + i] as u64;
    }
    proof {
        assert(bytes.skip(0) =~= bytes);
    }
    value
}

/// Up to eight bytes hold at most 64 bits.
pub proof fn lemma_pow256_bound(n: nat)
    requires
        n <= 8,
    ensures
        pow256(n) <= 0x1_0000_0000_0000_0000,
{
    reveal_with_fuel(pow256, 9);
}

/// The two's complement of `x` in `width` bytes.
pub(crate) fn to_unsigned(x: i64, width: usize) -> (n: u64)
    requires
        width == 1 || width == 2 || width == 4 || width == 8,
        fits_signed(x as int, width as nat),
    ensures
        n == twos_complement(x as int, width as nat),
        n < pow256(width as nat),
{
    proof {
        lemma_pow256_values();
    }
    if x >= 0 {
        x as u64
    } else if width == 1 {
        (x + 0x100) as u64
    } else if width == 2 {
        (x + 0x1_0000) as u64
    } else if width == 4 {
        (x + 0x1_0000_0000) as u64
    } else {
        ((x + 1 + i64::MAX) as u64) + 0x8000_0000_0000_0000u64
    }
}

/// The signed number that `n` stands for in two's complement of `width` bytes.
pub(crate) fn to_signed(n: u64, width: usize) -> (x: i64)
    requires
        width == 1 || width == 2 || width == 4 || width == 8,
        n < pow256(width as nat),
    ensures
        x == from_twos_complement(n as nat, width as nat),
        fits_signed(x as int, width as nat),
{
    proof {
        lemma_pow256_values();
    }
    if width == 1 {
        if n < 0x80 {
            n as i64
        } else {
            n as i64 - 0x100
        }
    } else if width == 2 {
        if n < 0x8000 {
            n as i64
        } else {
            n as i64 - 0x1_0000
        }
    } else if width == 4 {
        if n < 0x8000_0000 {
            n as i64
        } else {
            n as i64 - 0x1_0000_0000
        }
    } else if n < 0x8000_0000_0000_0000 {
        n as i64
    } else {
        (n - 0x8000_0000_0000_0000u64) as i64 - 1 - i64::MAX
    }
}

} // verus!
