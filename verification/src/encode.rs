//! Encoding of the input bytes into data codewords, in byte mode.
use vstd::prelude::*;
use crate::bits::{
    lemma_pack_bytes_bits,
    byte_bit, get_byte_bit, max_bits, pack_bytes, stream_bits, stream_into_bytes, stream_len,
    stream_new, stream_push, BitStream,
};
use crate::versions::{
    find_version_spec, find_version_with_data_capacity, group_byte_count_bits, group_count,
    group_last, group_start, lemma_capacity_search_finds, search_len, skipped_capacity,
    version_groups, Version,
};

verus! {

/// Why the input could not be encoded.
#[derive(Debug, Clone, Copy, PartialEq, Eq, Structural)]
pub enum EncodeError {
    /// The input does not fit in any version.
    DataTooLong,
}

/// The `len` low bits of `n`, most significant first.
pub open spec fn count_bits(n: usize, len: nat) -> Seq<bool> {
    Seq::new(len, |j: int| (n >> ((len - 1 - j) as usize)) & 1usize == 1usize)
}

/// The bit stream of `data` in byte mode with a character count indicator of
/// `count_len` bits: the mode indicator `0100`, the length of `data`, the
/// bits of `data`, and the terminator `0000`.
pub open spec fn encoded_bits(data: Seq<u8>, count_len: nat) -> Seq<bool> {
    seq![false, true, false, false] + count_bits(data.len() as usize, count_len) + Seq::new(
        8 * data.len(),
        |i: int| byte_bit(data, i),
    ) + seq![false, false, false, false]
}

/// The number of data codewords asked of a version for `n` bytes of input
/// in a group whose count indicator has `count_len` bits: twice the
/// number of bytes of the bit stream.
pub open spec fn needed_capacity(n: nat, count_len: nat) -> nat {
    ((4 + count_len + 8 * n + 4) / 8 * 2) as nat
}

/// The version group and the version index `encode_data` picks for `n` bytes,
/// trying the groups from `g` on.
pub open spec fn encode_choice(n: nat, g: nat) -> Option<(nat, nat)>
    decreases group_count() - g,
{
    if g >= group_count() {
        None
    } else {
        match find_version_spec(
            needed_capacity(n, group_byte_count_bits(g)),
            group_start(g),
            group_last(g),
        ) {
            Some(p) => Some((g, p)),
            None => encode_choice(n, g + 1),
        }
    }
}

/// Every input shorter than 256 bytes fits a version: if none of the first
/// group does, version 35, which the search over the second group reaches,
/// holds it.
proof fn lemma_encode_choice_some(n: nat)
    requires
        n < 256,
    ensures
        encode_choice(n, 0) is Some,
{
    reveal_with_fuel(encode_choice, 3);
    if encode_choice(n, 0) is None {
        let cap = needed_capacity(n, group_byte_count_bits(1));
        assert(cap <= 516);
        assert(skipped_capacity(9, 25) == 986);
        lemma_capacity_search_finds(cap, 9, search_len(9, 25), 0, 25);
    }
}

/// Bit `j` of the `c`-bit field that holds `n`, most significant first.
pub open spec fn length_bit(n: usize, c: int, j: int) -> bool {
    (n >> ((c - 1 - j) as usize)) & 1usize == 1usize
}

/// The bytes of the encoding, read bit by bit, most significant first: the
/// mode indicator `0100`, the `c` bits of the length, every bit of the
/// input in order, and the terminator `0000`.
pub proof fn lemma_encoded_bytes(raw: Seq<u8>, c: nat)
    requires
        c == 8 || c == 16,
    ensures
        ({
            let bytes = pack_bytes(encoded_bits(raw, c));
            let n = raw.len();
            &&& bytes.len() == n + 1 + c / 8
            &&& 8 * (bytes.len() - n) - 8 == c
            &&& !byte_bit(bytes, 0) && byte_bit(bytes, 1) && !byte_bit(bytes, 2) && !byte_bit(bytes, 3)
            &&& forall|j: int| 0 <= j < c ==> byte_bit(bytes, 4 + j) == #[trigger] length_bit(n as usize, c as int, j)
            &&& forall|i: int| 0 <= i < 8 * n ==> byte_bit(bytes, 4 + c + i) == #[trigger] byte_bit(raw, i)
            &&& !byte_bit(bytes, (4 + c + 8 * n) as int) && !byte_bit(bytes, (5 + c + 8 * n) as int)
            &&& !byte_bit(bytes, (6 + c + 8 * n) as int) && !byte_bit(bytes, (7 + c + 8 * n) as int)
        }),
{
    let bits = encoded_bits(raw, c);
    let n = raw.len();
    assert(bits.len() == 8 + c + 8 * n);
    assert(bits.len() % 8 == 0);
    lemma_pack_bytes_bits(bits);
    assert forall|j: int| 0 <= j < c implies byte_bit(pack_bytes(bits), 4 + j) == #[trigger] length_bit(n as usize, c as int, j) by {
        assert(bits[4 + j] == count_bits(n as usize, c)[j]);
    }
    assert forall|i: int| 0 <= i < 8 * n implies byte_bit(pack_bytes(bits), 4 + c + i) == #[trigger] byte_bit(raw, i) by {
        assert(bits[4 + c + i] == byte_bit(raw, i));
    }
    assert(!bits[(4 + c + 8 * n) as int] && !bits[(5 + c + 8 * n) as int] && !bits[(6 + c + 8 * n) as int] && !bits[(7 + c + 8 * n) as int]);
    assert(!bits[0] && bits[1] && !bits[2] && !bits[3]);
}

fn push_bits_of(stream: &mut BitStream, n: usize, len: usize)
    requires
        len <= 16,
        stream_bits(*old(stream)).len() + len < max_bits(),
    ensures
        stream_bits(*final(stream)) == stream_bits(*old(stream)) + count_bits(n, len as nat),
{
    let ghost before = stream_bits(*stream);
    let mut j: usize = 0;
    while j < len
        invariant
            j <= len,
            len <= 16,
            before.len() + len < max_bits(),
            stream_bits(*stream) == before + count_bits(n, len as nat).take(j as int),
        decreases len - j,
    {
        let bit = (n >> (len - 1 - j)) & 1 == 1;
        stream_push(stream, bit);
        assert(count_bits(n, len as nat).take(j + 1) == count_bits(n, len as nat).take(j as int).push(bit));
        j += 1;
    }
    assert(count_bits(n, len as nat).take(len as int) == count_bits(n, len as nat));
}

/// Encodes `raw_data` in byte mode, trying the version groups in turn, and
/// returns the bytes of the bit stream with the version picked for it.
/// Every input short enough for the character count indicator of the first
/// group fits some version, so the result is never an error.
pub fn encode_data(raw_data: &[u8]) -> (r: Result<(Vec<u8>, Version), EncodeError>)
    requires
        raw_data.len() < 256,
    ensures
        r is Ok,
        r matches Ok((bytes, version)) ==> {
            let (g, p) = encode_choice(raw_data@.len(), 0).unwrap();
            &&& bytes@ == pack_bytes(encoded_bits(raw_data@, group_byte_count_bits(g)))
            &&& version.index() == p
        },
        r matches Ok((bytes, version)) ==> ({
            let n = raw_data@.len();
            let c = 8 * (bytes@.len() - n) - 8;
            &&& bytes@.len() == n + 2 || bytes@.len() == n + 3
            &&& !byte_bit(bytes@, 0) && byte_bit(bytes@, 1) && !byte_bit(bytes@, 2) && !byte_bit(bytes@, 3)
            &&& forall|j: int| 0 <= j < c ==> byte_bit(bytes@, 4 + j) == #[trigger] length_bit(raw_data.len(), c, j)
            &&& forall|i: int| 0 <= i < 8 * n ==> byte_bit(bytes@, 4 + c + i) == #[trigger] byte_bit(raw_data@, i)
            &&& !byte_bit(bytes@, (4 + c + 8 * n) as int) && !byte_bit(bytes@, (5 + c + 8 * n) as int)
            &&& !byte_bit(bytes@, (6 + c + 8 * n) as int) && !byte_bit(bytes@, (7 + c + 8 * n) as int)
        }),
{
    proof {
        lemma_encode_choice_some(raw_data@.len());
    }
    let groups = version_groups();
    let n = raw_data.len();
    let mut g: usize = 0;
    while g < groups.len()
        invariant
            n == raw_data@.len(),
            n < 256,
            g <= groups.len(),
            groups.len() == group_count(),
            forall|k: int|
                0 <= k < group_count() ==> {
                    &&& (#[trigger] groups@[k]).range.start.index() == group_start(k as nat)
                    &&& groups@[k].range.last.index() == group_last(k as nat)
                    &&& groups@[k].byte_count_indicator_length == group_byte_count_bits(k as nat)
                },
            encode_choice(n as nat, 0) == encode_choice(n as nat, g as nat),
        decreases groups.len() - g,
    {
        let group = groups[g];
        let len = group.byte_count_indicator_length;

        let mut result = stream_new();
        // byte mode indicator
        stream_push(&mut result, false);
        stream_push(&mut result, true);
        stream_push(&mut result, false);
        stream_push(&mut result, false);
        push_bits_of(&mut result, n, len);
        let ghost header = stream_bits(result);
        let mut i: usize = 0;
        while i < 8 * n
            invariant
                i <= 8 * n,
                n == raw_data@.len(),
                n < 256,
                header.len() == 4 + len,
                len <= 16,
                stream_bits(result) == header + Seq::new(8 * n as nat, |t: int| byte_bit(raw_data@, t)).take(i as int),
            decreases 8 * n - i,
        {
            let bit = get_byte_bit(raw_data, i);
            stream_push(&mut result, bit);
            assert(Seq::new(8 * n as nat, |t: int| byte_bit(raw_data@, t)).take(i + 1)
                == Seq::new(8 * n as nat, |t: int| byte_bit(raw_data@, t)).take(i as int).push(bit));
            i += 1;
        }
        assert(Seq::new(8 * n as nat, |t: int| byte_bit(raw_data@, t)).take(8 * n as int)
            == Seq::new(8 * n as nat, |t: int| byte_bit(raw_data@, t)));
        // terminator
        stream_push(&mut result, false);
        stream_push(&mut result, false);
        stream_push(&mut result, false);
        stream_push(&mut result, false);
        assert(stream_bits(result) == encoded_bits(raw_data@, len as nat));
        let total = stream_len(&result);

        if let Some(version) = find_version_with_data_capacity(total / 8 * 2, group.range) {
            let bytes = stream_into_bytes(result);
            proof {
                lemma_encoded_bytes(raw_data@, len as nat);
            }
            return Ok((bytes, version));
        }
        g += 1;
    }
    Err(EncodeError::DataTooLong)
}

} // verus!
