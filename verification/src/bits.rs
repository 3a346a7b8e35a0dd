//! Bit sequences: the module grid and the encoded bit stream, held in the
//! bit vectors of the `bitvec` crate, and bit access to byte buffers, most
//! significant bit first.
use vstd::prelude::*;
use bitvec::order::{Lsb0, Msb0};
use bitvec::vec::BitVec;
use bitvec::view::{BitView, AsMutBits};
use itertools::Itertools;

verus! {

/// A grid of modules, one bit each, held in a `bitvec` bit vector.
#[verifier::external_body]
pub struct Grid {
    bits: BitVec<usize, Lsb0>,
}

/// A stream of bits, held in a `bitvec` bit vector over bytes, most
/// significant bit first.
#[verifier::external_body]
pub struct BitStream {
    bits: BitVec<u8, Msb0>,
}

/// The bits held by a grid bit vector.
pub uninterp spec fn grid_bits(v: Grid) -> Seq<bool>;

/// The bits held by a stream bit vector.
pub uninterp spec fn stream_bits(v: BitStream) -> Seq<bool>;

/// The longest bit vector `bitvec` can hold.
pub open spec fn max_bits() -> nat {
    (usize::MAX / 8) as nat
}

/// A grid of `len` bits, all clear.
///
/// Calls `BitVec::repeat(false, len)` (what `bitvec![0; len]` expands to),
/// which holds `len` bits equal to `false`; it panics above `max_bits()`.
#[verifier::external_body]
pub(crate) fn grid_new(len: usize) -> (g: Grid)
    requires
        len <= max_bits(),
    ensures
        grid_bits(g) == Seq::new(len as nat, |i: int| false),
{
    Grid { bits: BitVec::repeat(false, len) }
}

/// Writes bit `index` of the grid.
///
/// Calls `BitSlice::set`, which replaces the bit at `index` and panics when
/// `index` is out of bounds.
#[verifier::external_body]
pub(crate) fn grid_set(g: &mut Grid, index: usize, value: bool)
    requires
        index < grid_bits(*old(g)).len(),
    ensures
        grid_bits(*final(g)) == grid_bits(*old(g)).update(index as int, value),
{
    g.bits.set(index, value);
}

/// Reads bit `index` of the grid.
///
/// Indexes the bit slice (`Index<usize>`), which returns the bit at `index`
/// and panics when `index` is out of bounds.
#[verifier::external_body]
pub(crate) fn grid_get(g: &Grid, index: usize) -> (b: bool)
    requires
        index < grid_bits(*g).len(),
    ensures
        b == grid_bits(*g)[index as int],
{
    g.bits[index]
}

/// The number of bits in the grid.
///
/// Calls `BitVec::len`.
#[verifier::external_body]
pub(crate) fn grid_len(g: &Grid) -> (n: usize)
    ensures
        n == grid_bits(*g).len(),
{
    g.bits.len()
}

impl Grid {
    /// The number of modules in the grid.
    pub fn len(&self) -> (n: usize)
        ensures
            n == grid_bits(*self).len(),
    {
        grid_len(self)
    }

    /// The module at `index`, counted row by row.
    pub fn get(&self, index: usize) -> (b: bool)
        requires
            index < grid_bits(*self).len(),
        ensures
            b == grid_bits(*self)[index as int],
    {
        grid_get(self, index)
    }
}

/// An empty bit stream.
///
/// Calls `BitVec::new`, which holds no bits.
#[verifier::external_body]
pub(crate) fn stream_new() -> (s: BitStream)
    ensures
        stream_bits(s) == Seq::<bool>::empty(),
{
    BitStream { bits: BitVec::new() }
}

/// Appends a bit to the stream.
///
/// Calls `BitVec::push`, which appends `value`; it panics when the length
/// would pass `max_bits()`.
#[verifier::external_body]
pub(crate) fn stream_push(s: &mut BitStream, value: bool)
    requires
        stream_bits(*old(s)).len() < max_bits(),
    ensures
        stream_bits(*final(s)) == stream_bits(*old(s)).push(value),
{
    s.bits.push(value);
}

/// The number of bits in the stream.
///
/// Calls `BitVec::len`.
#[verifier::external_body]
pub(crate) fn stream_len(s: &BitStream) -> (n: usize)
    ensures
        n == stream_bits(*s).len(),
{
    s.bits.len()
}

/// The value of bit `j` (0 = most significant) of the byte `x`.
pub open spec fn msb_bit_of(x: u8, j: int) -> bool {
    (x >> ((7 - j) as u8)) & 1u8 == 1u8
}

/// Bit `i` of the bytes `bytes`, taken most significant bit first.
pub open spec fn byte_bit(bytes: Seq<u8>, i: int) -> bool {
    msb_bit_of(bytes[i / 8], i % 8)
}

/// The byte whose bits, most significant first, are `bits[8k .. 8k + 8]`.
pub open spec fn pack_byte(bits: Seq<bool>, k: int) -> u8 {
    (if bits[8 * k] { 0x80u8 } else { 0u8 })
    | (if bits[8 * k + 1] { 0x40u8 } else { 0u8 })
    | (if bits[8 * k + 2] { 0x20u8 } else { 0u8 })
    | (if bits[8 * k + 3] { 0x10u8 } else { 0u8 })
    | (if bits[8 * k + 4] { 0x08u8 } else { 0u8 })
    | (if bits[8 * k + 5] { 0x04u8 } else { 0u8 })
    | (if bits[8 * k + 6] { 0x02u8 } else { 0u8 })
    | (if bits[8 * k + 7] { 0x01u8 } else { 0u8 })
}

/// The bytes that hold `bits`, eight to a byte, most significant bit first.
pub open spec fn pack_bytes(bits: Seq<bool>) -> Seq<u8> {
    Seq::new(bits.len() / 8, |k: int| pack_byte(bits, k))
}

/// The bytes underlying the stream.
///
/// Calls `BitVec::into_vec`, which hands back the memory elements that hold
/// the bits; with the `Msb0` order bit `i` of the stream is bit `7 - i % 8`
/// of byte `i / 8`. When the length is a multiple of 8 there are no unused
/// bits in the last byte.
#[verifier::external_body]
pub(crate) fn stream_into_bytes(s: BitStream) -> (bytes: Vec<u8>)
    requires
        stream_bits(s).len() % 8 == 0,
    ensures
        bytes@ == pack_bytes(stream_bits(s)),
{
    s.bits.into_vec()
}

/// Reads bit `index` of `bytes`, most significant bit first.
///
/// Indexes the `Msb0` bit view of the slice (`BitView::view_bits`), which
/// maps bit `index` to bit `7 - index % 8` of byte `index / 8`; it panics
/// when `index` is out of bounds or the slice is too long to view.
#[verifier::external_body]
pub(crate) fn get_byte_bit(bytes: &[u8], index: usize) -> (b: bool)
    requires
        index < 8 * bytes@.len(),
        8 * bytes@.len() <= max_bits(),
    ensures
        b == byte_bit(bytes@, index as int),
{
    bytes.view_bits::<Msb0>()[index]
}

/// The byte `x` with bit `j` (0 = most significant) set to `value`.
pub open spec fn with_msb_bit(x: u8, j: int, value: bool) -> u8 {
    if value {
        x | (0x80u8 >> (j as u8))
    } else {
        x & !(0x80u8 >> (j as u8))
    }
}

/// Writes bit `index` of `bytes`, most significant bit first.
///
/// Calls `BitSlice::set` on the `Msb0` bit view of the buffer
/// (`AsMutBits::as_mut_bits`), which writes bit `7 - index % 8` of byte
/// `index / 8`; it panics when `index` is out of bounds.
#[verifier::external_body]
pub(crate) fn set_byte_bit(bytes: &mut Vec<u8>, index: usize, value: bool)
    requires
        index < 8 * old(bytes)@.len(),
        8 * old(bytes)@.len() <= max_bits(),
    ensures
        final(bytes)@ == old(bytes)@.update(
            index as int / 8,
            with_msb_bit(old(bytes)@[index as int / 8], index as int % 8, value),
        ),
{
    bytes.as_mut_bits::<Msb0>().set(index, value);
}

/// The pairs `(x, y)` with `x < a` and `y < b`, ordered by `x` first.
///
/// Collects `(0..a).cartesian_product(0..b)` from `itertools`, which yields
/// for each `x` in turn every `y` in turn.
#[verifier::external_body]
pub(crate) fn cartesian_pairs(a: usize, b: usize) -> (pairs: Vec<(usize, usize)>)
    requires
        a * b <= usize::MAX,
    ensures
        pairs.len() == a * b,
        forall|k: int| 0 <= k < a * b ==> #[trigger] pairs@[k] == ((k / b as int) as usize, (k % b as int) as usize),
{
    (0..a).cartesian_product(0..b).collect()
}

/// Reading bit `j` of a packed byte gives back the bit that was packed.
proof fn lemma_pack_byte_bits(b0: bool, b1: bool, b2: bool, b3: bool, b4: bool, b5: bool, b6: bool, b7: bool)
    ensures
        ({
            let x = (if b0 { 0x80u8 } else { 0u8 }) | (if b1 { 0x40u8 } else { 0u8 }) | (if b2 { 0x20u8 } else { 0u8 })
                | (if b3 { 0x10u8 } else { 0u8 }) | (if b4 { 0x08u8 } else { 0u8 }) | (if b5 { 0x04u8 } else { 0u8 })
                | (if b6 { 0x02u8 } else { 0u8 }) | (if b7 { 0x01u8 } else { 0u8 });
            &&& ((x >> 7u8) & 1u8 == 1u8) == b0
            &&& ((x >> 6u8) & 1u8 == 1u8) == b1
            &&& ((x >> 5u8) & 1u8 == 1u8) == b2
            &&& ((x >> 4u8) & 1u8 == 1u8) == b3
            &&& ((x >> 3u8) & 1u8 == 1u8) == b4
            &&& ((x >> 2u8) & 1u8 == 1u8) == b5
            &&& ((x >> 1u8) & 1u8 == 1u8) == b6
            &&& ((x >> 0u8) & 1u8 == 1u8) == b7
        }),
{
    let x = (if b0 { 0x80u8 } else { 0u8 }) | (if b1 { 0x40u8 } else { 0u8 }) | (if b2 { 0x20u8 } else { 0u8 })
        | (if b3 { 0x10u8 } else { 0u8 }) | (if b4 { 0x08u8 } else { 0u8 }) | (if b5 { 0x04u8 } else { 0u8 })
        | (if b6 { 0x02u8 } else { 0u8 }) | (if b7 { 0x01u8 } else { 0u8 });
    assert(((x >> 7u8) & 1u8 == 1u8) == b0 && ((x >> 6u8) & 1u8 == 1u8) == b1 && ((x >> 5u8) & 1u8 == 1u8) == b2
        && ((x >> 4u8) & 1u8 == 1u8) == b3 && ((x >> 3u8) & 1u8 == 1u8) == b4 && ((x >> 2u8) & 1u8 == 1u8) == b5
        && ((x >> 1u8) & 1u8 == 1u8) == b6 && ((x >> 0u8) & 1u8 == 1u8) == b7) by (bit_vector)
        requires
            x == (if b0 { 0x80u8 } else { 0u8 }) | (if b1 { 0x40u8 } else { 0u8 }) | (if b2 { 0x20u8 } else { 0u8 })
                | (if b3 { 0x10u8 } else { 0u8 }) | (if b4 { 0x08u8 } else { 0u8 }) | (if b5 { 0x04u8 } else { 0u8 })
                | (if b6 { 0x02u8 } else { 0u8 }) | (if b7 { 0x01u8 } else { 0u8 }),
    ;
}

/// Packing bits into bytes and reading them back, most significant bit
/// first, gives the bits back.
pub proof fn lemma_pack_bytes_bits(bits: Seq<bool>)
    requires
        bits.len() % 8 == 0,
    ensures
        pack_bytes(bits).len() * 8 == bits.len(),
        forall|i: int| 0 <= i < bits.len() ==> byte_bit(pack_bytes(bits), i) == #[trigger] bits[i],
{
    assert forall|i: int| 0 <= i < bits.len() implies byte_bit(pack_bytes(bits), i) == #[trigger] bits[i] by {
        let k = i / 8;
        let j = i % 8;
        lemma_pack_byte_bits(
            bits[8 * k],
            bits[8 * k + 1],
            bits[8 * k + 2],
            bits[8 * k + 3],
            bits[8 * k + 4],
            bits[8 * k + 5],
            bits[8 * k + 6],
            bits[8 * k + 7],
        );
        assert(pack_bytes(bits)[k] == pack_byte(bits, k));
        assert(i == 8 * k + j);
    }
}

} // verus!
