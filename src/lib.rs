//! Huffman coding over characters: a greedy prefix-code tree built from
//! symbol weights, the code table derived from it, and an encoder and a
//! decoder between character sequences and bit streams.

pub mod builder;
pub mod codec;
pub mod codes;
pub mod container;
pub mod error;
pub mod freq;
pub mod packing;
pub mod pipeline;
pub mod queue;
pub mod tree;

pub use builder::build;
pub use codec::{decode_huffman, encode_huffman};
pub use codes::{code_table, CodeTable};
pub use container::{read_container, write_container};
pub use error::HuffmanError;
pub use freq::frequencies;
pub use packing::{pack_bits, unpack_bits};
pub use pipeline::{decode_packed, process};
pub use tree::{tree_height, HuffmanTree, Node};
