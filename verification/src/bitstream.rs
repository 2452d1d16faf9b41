//! Bit streams: bytes and 3-bit cells both read as MSB-first bit sequences.
//!
//! These are the mathematical models of the packing done by the encoder
//! (bytes -> cells) and the unpacking done by the decoder (cells -> bytes),
//! together with the law that unpacking undoes packing.

use vstd::prelude::*;
use vstd::arithmetic::power2::{pow2, lemma2_to64, lemma_pow2_adds, lemma_pow2_pos};
use vstd::arithmetic::div_mod::lemma_fundamental_div_mod_converse;
use vstd::bits::{low_bits_mask, lemma_u32_shr_is_div, lemma_u32_shl_is_mul, lemma_u32_low_bits_mask_is_mod};

verus! {

/// Bit `k` (MSB first) of a byte sequence; positions outside the bytes read
/// as 0.
pub open spec fn byte_bit(bytes: Seq<u8>, k: int) -> nat {
    if 0 <= k < 8 * bytes.len() {
        ((bytes[k / 8] >> ((7 - k % 8) as u8)) & 1) as nat
    } else {
        0
    }
}

/// Bit `k` (MSB first) of a sequence of 3-bit cells (only the low 3 bits of
/// each cell count); positions outside the cells read as 0.
pub open spec fn cell_bit(cells: Seq<u8>, k: int) -> nat {
    if 0 <= k < 3 * cells.len() {
        (((cells[k / 3] & 7) >> ((2 - k % 3) as u8)) & 1) as nat
    } else {
        0
    }
}

/// The number formed by the `n` bits `f(start) .. f(start + n - 1)`, most
/// significant first.
pub open spec fn bits_value(f: spec_fn(int) -> nat, start: int, n: nat) -> nat
    decreases n,
{
    if n == 0 {
        0
    } else {
        2 * bits_value(f, start, (n - 1) as nat) + f(start + n - 1)
    }
}

/// Cell `i` of the packing of `bytes`: bits `3i .. 3i + 3` of the byte stream,
/// zero-padded past its end.
pub open spec fn packed_cell(bytes: Seq<u8>, i: int) -> u8 {
    bits_value(|k: int| byte_bit(bytes, k), 3 * i, 3) as u8
}

/// The first `n` cells of the packing of `bytes` at 3 bits per cell.
pub open spec fn spec_pack(bytes: Seq<u8>, n: nat) -> Seq<u8> {
    Seq::new(n, |i: int| packed_cell(bytes, i))
}

/// Byte `j` of the unpacking of `cells`: bits `8j .. 8j + 8` of the cell
/// stream.
pub open spec fn unpacked_byte(cells: Seq<u8>, j: int) -> u8 {
    bits_value(|k: int| cell_bit(cells, k), 8 * j, 8) as u8
}

/// Number of bytes the unpacking yields: the whole bytes the cells hold, at
/// most `target`.
pub open spec fn unpacked_len(cells: Seq<u8>, target: nat) -> nat {
    let avail = (3 * cells.len() / 8) as nat;
    if target < avail { target } else { avail }
}

/// The unpacking of `cells` into at most `target` bytes.
pub open spec fn spec_unpack(cells: Seq<u8>, target: nat) -> Seq<u8> {
    Seq::new(unpacked_len(cells, target), |j: int| unpacked_byte(cells, j))
}

pub proof fn lemma_bit_le_1(bytes: Seq<u8>, cells: Seq<u8>, k: int)
    ensures
        byte_bit(bytes, k) <= 1,
        cell_bit(cells, k) <= 1,
{
    if 0 <= k < 8 * bytes.len() {
        let b = bytes[k / 8];
        let s = (7 - k % 8) as u8;
        assert((b >> s) & 1 <= 1) by (bit_vector);
    }
    if 0 <= k < 3 * cells.len() {
        let c = cells[k / 3];
        let s = (2 - k % 3) as u8;
        assert(((c & 7) >> s) & 1 <= 1) by (bit_vector);
    }
}

/// A value of `n` bits is below `2^n`.
pub proof fn lemma_bits_value_bound(f: spec_fn(int) -> nat, start: int, n: nat)
    requires
        forall|k: int| #[trigger] f(k) <= 1,
    ensures
        bits_value(f, start, n) < pow2(n),
    decreases n,
{
    reveal(pow2);
    if n == 0 {
        lemma2_to64();
    } else {
        lemma_bits_value_bound(f, start, (n - 1) as nat);
        lemma_pow2_adds((n - 1) as nat, 1);
        lemma2_to64();
    }
}

/// Splitting a bit run: the first `a` bits are the high part, the next `b`
/// bits the low part.
pub proof fn lemma_bits_value_split(f: spec_fn(int) -> nat, start: int, a: nat, b: nat)
    ensures
        bits_value(f, start, a + b) == bits_value(f, start, a) * pow2(b) + bits_value(
            f,
            start + a,
            b,
        ),
    decreases b,
{
    if b == 0 {
        lemma2_to64();
        let x = bits_value(f, start, a);
        assert(x * pow2(0) == x) by (nonlinear_arith) requires pow2(0) == 1;
        assert((a + b) as nat == a);
    } else {
        let b1 = (b - 1) as nat;
        lemma_bits_value_split(f, start, a, b1);
        lemma_pow2_adds(b1, 1);
        lemma2_to64();
        let x = bits_value(f, start, a);
        let p = pow2(b1);
        let y = bits_value(f, start + a, b1);
        assert(pow2(b) == p * 2);
        assert((a + b1) as nat == (a + b - 1) as nat);
        assert(bits_value(f, start, a + b1) == x * p + y);
        assert(2 * (x * p + y) == x * (p * 2) + 2 * y) by (nonlinear_arith);
        assert(bits_value(f, start, a + b) == 2 * bits_value(f, start, a + b1) + f(
            start + a + b1,
        ));
        assert(bits_value(f, start + a, b) == 2 * y + f(start + a + b1));
        assert(x * pow2(b) == x * (p * 2));
    }
}

/// Bits that all read as 0 make the value 0.
pub proof fn lemma_bits_value_zero(f: spec_fn(int) -> nat, start: int, n: nat)
    requires
        forall|k: int| start <= k < start + n ==> #[trigger] f(k) == 0,
    ensures
        bits_value(f, start, n) == 0,
    decreases n,
{
    if n > 0 {
        lemma_bits_value_zero(f, start, (n - 1) as nat);
    }
}

/// Two bit sources that agree on a run give the same value.
pub proof fn lemma_bits_value_ext(f: spec_fn(int) -> nat, g: spec_fn(int) -> nat, start: int, n: nat)
    requires
        forall|k: int| start <= k < start + n ==> #[trigger] f(k) == g(k),
    ensures
        bits_value(f, start, n) == bits_value(g, start, n),
    decreases n,
{
    if n > 0 {
        lemma_bits_value_ext(f, g, start, (n - 1) as nat);
    }
}

/// The 8 stream bits of a byte give back the byte.
pub proof fn lemma_byte_bits(bytes: Seq<u8>, j: int)
    requires
        0 <= j < bytes.len(),
    ensures
        bits_value(|k: int| byte_bit(bytes, k), 8 * j, 8) == bytes[j],
{
    let f = |k: int| byte_bit(bytes, k);
    let b = bytes[j];
    reveal_with_fuel(bits_value, 9);
    assert(f(8 * j) == ((b >> 7u8) & 1));
    assert(f(8 * j + 1) == ((b >> 6u8) & 1));
    assert(f(8 * j + 2) == ((b >> 5u8) & 1));
    assert(f(8 * j + 3) == ((b >> 4u8) & 1));
    assert(f(8 * j + 4) == ((b >> 3u8) & 1));
    assert(f(8 * j + 5) == ((b >> 2u8) & 1));
    assert(f(8 * j + 6) == ((b >> 1u8) & 1));
    assert(f(8 * j + 7) == ((b >> 0u8) & 1));
    assert(b == 128 * ((b >> 7u8) & 1) + 64 * ((b >> 6u8) & 1) + 32 * ((b >> 5u8) & 1) + 16 * ((b
        >> 4u8) & 1) + 8 * ((b >> 3u8) & 1) + 4 * ((b >> 2u8) & 1) + 2 * ((b >> 1u8) & 1) + ((b
        >> 0u8) & 1)) by (bit_vector);
}

/// The 3 stream bits of a cell give back its low 3 bits.
pub proof fn lemma_cell_bits(cells: Seq<u8>, i: int)
    requires
        0 <= i < cells.len(),
    ensures
        bits_value(|k: int| cell_bit(cells, k), 3 * i, 3) == cells[i] & 7,
{
    let f = |k: int| cell_bit(cells, k);
    let c = cells[i];
    reveal_with_fuel(bits_value, 4);
    assert(f(3 * i) == (((c & 7) >> 2u8) & 1));
    assert(f(3 * i + 1) == (((c & 7) >> 1u8) & 1));
    assert(f(3 * i + 2) == (((c & 7) >> 0u8) & 1));
    assert(c & 7 == 4 * (((c & 7) >> 2u8) & 1) + 2 * (((c & 7) >> 1u8) & 1) + (((c & 7) >> 0u8)
        & 1)) by (bit_vector);
}

/// A packed cell holds 3 bits, so it is below 8.
pub proof fn lemma_packed_cell_small(bytes: Seq<u8>, i: int)
    ensures
        bits_value(|k: int| byte_bit(bytes, k), 3 * i, 3) < 8,
        packed_cell(bytes, i) < 8,
{
    let f = |k: int| byte_bit(bytes, k);
    assert forall|k: int| #[trigger] f(k) <= 1 by {
        lemma_bit_le_1(bytes, Seq::empty(), k);
    }
    lemma_bits_value_bound(f, 3 * i, 3);
    lemma2_to64();
}

/// Reading the cell stream of a packing gives back the byte stream.
pub proof fn lemma_pack_stream(bytes: Seq<u8>, n: nat, k: int)
    requires
        0 <= k < 3 * n,
    ensures
        cell_bit(spec_pack(bytes, n), k) == byte_bit(bytes, k),
{
    let cells = spec_pack(bytes, n);
    let i = k / 3;
    let t = k % 3;
    let f = |q: int| byte_bit(bytes, q);
    lemma_packed_cell_small(bytes, i);
    reveal_with_fuel(bits_value, 4);
    let a = f(3 * i);
    let b = f(3 * i + 1);
    let d = f(3 * i + 2);
    lemma_bit_le_1(bytes, Seq::empty(), 3 * i);
    lemma_bit_le_1(bytes, Seq::empty(), 3 * i + 1);
    lemma_bit_le_1(bytes, Seq::empty(), 3 * i + 2);
    let c = cells[i];
    assert(c == 4 * a + 2 * b + d);
    let a8 = a as u8;
    let b8 = b as u8;
    let d8 = d as u8;
    assert(c == 4 * a8 + 2 * b8 + d8);
    assert(a8 <= 1 && b8 <= 1 && d8 <= 1 && c == 4 * a8 + 2 * b8 + d8 ==> ((c & 7) >> 2u8) & 1
        == a8 && ((c & 7) >> 1u8) & 1 == b8 && ((c & 7) >> 0u8) & 1 == d8) by (bit_vector);
    assert(k == 3 * i + t);
}

/// Unpacking undoes packing: when the cells hold at least as many bits as the
/// bytes, `unpack(pack(bytes, n), bytes.len()) == bytes`.
pub proof fn lemma_unpack_pack(bytes: Seq<u8>, n: nat)
    requires
        8 * bytes.len() <= 3 * n,
    ensures
        spec_unpack(spec_pack(bytes, n), bytes.len()) == bytes,
{
    let cells = spec_pack(bytes, n);
    let out = spec_unpack(cells, bytes.len());
    assert(unpacked_len(cells, bytes.len()) == bytes.len());
    assert forall|j: int| 0 <= j < bytes.len() implies #[trigger] out[j] == bytes[j] by {
        let f = |k: int| cell_bit(cells, k);
        let g = |k: int| byte_bit(bytes, k);
        assert forall|k: int| 8 * j <= k < 8 * j + 8 implies #[trigger] f(k) == g(k) by {
            lemma_pack_stream(bytes, n, k);
        }
        lemma_bits_value_ext(f, g, 8 * j, 8);
        lemma_byte_bits(bytes, j);
    }
    assert(out =~= bytes);
}

/// `x >> s` and `x & ((1 << s) - 1)` split `x = q * 2^s + r` (with `r < 2^s`)
/// into `q` and `r`.
pub proof fn lemma_shift_split(x: u32, s: u32, q: nat, r: nat)
    requires
        s < 32,
        r < pow2(s as nat),
        x == q * pow2(s as nat) + r,
    ensures
        x >> s == q,
        x & (((1u32 << s) - 1) as u32) == r,
        (1u32 << s) >= 1,
{
    lemma_pow2_pos(s as nat);
    lemma_u32_shr_is_div(x, s);
    lemma_fundamental_div_mod_converse(x as int, pow2(s as nat) as int, q as int, r as int);
    vstd::bits::lemma_u32_pow2_no_overflow(s as nat);
    lemma_u32_shl_is_mul(1, s);
    assert(((1u32 << s) - 1) as u32 == low_bits_mask(s as nat) as u32);
    lemma_u32_low_bits_mask_is_mod(x, s as nat);
}

} // verus!
