use vstd::prelude::*;
use bitvec::order::Lsb0;
use bitvec::vec::BitVec;
use crate::error::HuffmanError;

verus! {

/// Bit `j` of `byte`, counting from the least significant bit.
pub open spec fn bit_of(byte: u8, j: int) -> bool {
    (byte >> (j as u8)) & 1u8 == 1u8
}

/// `bytes` hold `bits` packed eight to a byte: bit `k` of the stream is bit
/// `k % 8` of byte `k / 8`; the unused high bits of the last byte are free.
pub open spec fn packs(bytes: Seq<u8>, bits: Seq<bool>) -> bool {
    &&& bytes.len() == (bits.len() + 7) / 8
    &&& forall|k: int| 0 <= k < bits.len() ==> #[trigger] bits[k] == bit_of(bytes[k / 8], k % 8)
}

/// The first `n` bits held by `bytes`.
pub open spec fn unpacked(bytes: Seq<u8>, n: int) -> Seq<bool> {
    Seq::new(n as nat, |k: int| bit_of(bytes[k / 8], k % 8))
}

/// Relies on bitvec's `BitVec<u8, Lsb0>`: collecting bools appends them in
/// order, bit `k` going to bit `k % 8` (from the least significant) of element
/// `k / 8`; it panics past `usize::MAX >> 3` bits; `into_vec` hands out exactly
/// the elements that hold live bits.
#[verifier::external_body]
fn bits_to_bytes(bits: &Vec<bool>) -> (r: Vec<u8>)
    requires
        bits@.len() <= usize::MAX / 8,
    ensures
        packs(r@, bits@),
{
    let bv: BitVec<u8, Lsb0> = bits.iter().copied().collect();
    bv.into_vec()
}

/// Relies on bitvec's `BitVec::<u8, Lsb0>::from_vec`: the bit-vector spans
/// every bit of the bytes, bit `k` being bit `k % 8` (from the least
/// significant) of byte `k / 8`; it panics past `usize::MAX >> 3` bits.
#[verifier::external_body]
fn bytes_to_bits(bytes: &Vec<u8>) -> (r: Vec<bool>)
    requires
        bytes@.len() * 8 <= usize::MAX / 8,
    ensures
        r@ == unpacked(bytes@, (bytes@.len() * 8) as int),
{
    BitVec::<u8, Lsb0>::from_vec(bytes.clone()).iter().by_vals().collect()
}

/// Packs a bit stream into bytes, eight bits to a byte, the first bit of
/// the stream in the least significant bit of the first byte.
pub fn pack_bits(bits: &Vec<bool>) -> (r: Vec<u8>)
    requires
        bits@.len() <= usize::MAX / 8,
    ensures
        packs(r@, bits@),
{
    bits_to_bytes(bits)
}

/// The first `bit_len` bits held by `bytes`, read in the order that
/// `pack_bits` writes them. It fails when the bytes hold fewer bits.
pub fn unpack_bits(bytes: &Vec<u8>, bit_len: usize) -> (r: Result<Vec<bool>, HuffmanError>)
    requires
        bytes@.len() * 8 <= usize::MAX / 8,
    ensures
        bit_len <= bytes@.len() * 8 <==> r is Ok,
        r matches Ok(bits) ==> bits@ == unpacked(bytes@, bit_len as int),
        r is Err ==> r == Err::<Vec<bool>, HuffmanError>(HuffmanError::IncompleteCode),
{
    if bit_len > bytes.len() * 8 {
        return Err(HuffmanError::IncompleteCode);
    }
    let all = bytes_to_bits(bytes);
    let mut bits: Vec<bool> = Vec::new();
    let mut k: usize = 0;
    while k < bit_len
        invariant
            k <= bit_len,
            bit_len <= all@.len(),
            all@ == unpacked(bytes@, (bytes@.len() * 8) as int),
            bits@ == unpacked(bytes@, k as int),
        decreases bit_len - k,
    {
        bits.push(all[k]);
        k = k + 1;
        proof {
            assert(bits@ =~= unpacked(bytes@, k as int));
        }
    }
    Ok(bits)
}

/// Unpacking what was packed gives back the bit stream.
pub proof fn lemma_pack_round_trip(bytes: Seq<u8>, bits: Seq<bool>)
    requires
        packs(bytes, bits),
    ensures
        bits.len() <= bytes.len() * 8,
        unpacked(bytes, bits.len() as int) == bits,
{
    assert(unpacked(bytes, bits.len() as int) =~= bits);
}

} // verus!
