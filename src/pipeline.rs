use vstd::prelude::*;
use crate::builder::{build, greedy_tree};
use crate::codec::{decode_huffman, encode_huffman, encode_seq, lemma_round_trip};
use crate::error::HuffmanError;
use crate::freq::{freq_chars, frequencies, is_frequency_table};
use crate::packing::{unpack_bits, unpacked};
use crate::tree::HuffmanTree;

verus! {

/// Counts the characters of `input`, builds the code tree from those
/// counts and encodes `input` with it. Fails only on an empty input.
pub fn process(input: &str) -> (r: Result<(HuffmanTree, Vec<bool>, Vec<(char, u64)>), HuffmanError>)
    ensures
        input@.len() == 0 <==> r is Err,
        r is Err ==> r->Err_0 == HuffmanError::EmptyAlphabet,
        r matches Ok((tree, bits, freqs)) ==> {
            &&& tree.wf()
            &&& is_frequency_table(freqs@, input@)
            &&& greedy_tree(tree.nodes@, freqs@)
            &&& tree.nodes@.len() == 2 * freqs@.len() - 1
            &&& tree.root == tree.nodes@.len() - 1
            &&& tree.alphabet() == freq_chars(freqs@)
            &&& bits@ == encode_seq(tree.codes(), input@)
            &&& tree.decode_bits(bits@) == Some(input@)
        },
{
    let freqs = frequencies(input);
    proof {
        if input@.len() > 0 {
            assert(input@.contains(input@[0]));
            assert(freq_chars(freqs@).contains(input@[0]));
        }
        if freqs@.len() > 0 {
            assert(freq_chars(freqs@).contains(freqs@[0].0));
        }
        assert(usize::MAX <= u64::MAX);
    }
    let tree = match build(&freqs) {
        Ok(t) => t,
        Err(e) => {
            return Err(e);
        },
    };
    proof {
        assert forall|k: int| 0 <= k < input@.len() implies #[trigger] tree.alphabet().contains(input@[k]) by {
            assert(input@.contains(input@[k]));
        }
        lemma_round_trip(&tree, input@);
    }
    let bits = match encode_huffman(&tree, input) {
        Ok(b) => b,
        Err(e) => {
            return Err(e);
        },
    };
    Ok((tree, bits, freqs))
}

/// Decodes the first `bit_len` bits held by `bytes` (packed as `pack_bits`
/// packs them). Fails when the bytes hold fewer bits, or when those bits do
/// not end on a code boundary.
pub fn decode_packed(tree: &HuffmanTree, bytes: &Vec<u8>, bit_len: usize) -> (r: Result<String, HuffmanError>)
    requires
        tree.wf(),
        bytes@.len() * 8 <= usize::MAX / 8,
    ensures
        bit_len > bytes@.len() * 8 ==> r == Err::<String, HuffmanError>(HuffmanError::IncompleteCode),
        bit_len <= bytes@.len() * 8 ==> match tree.decode_bits(unpacked(bytes@, bit_len as int)) {
            Some(s) => r is Ok && r->Ok_0@ == s,
            None => r == Err::<String, HuffmanError>(HuffmanError::IncompleteCode),
        },
{
    let bits = match unpack_bits(bytes, bit_len) {
        Ok(b) => b,
        Err(e) => {
            return Err(e);
        },
    };
    decode_huffman(tree, &bits)
}

} // verus!
