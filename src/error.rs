use vstd::prelude::*;

verus! {

/// The ways in which the coding engine can fail.
#[derive(Debug, Clone, PartialEq, Eq)]
pub enum HuffmanError {
    /// A tree was asked for with no symbols to build it from.
    EmptyAlphabet,
    /// The input to encode holds symbols that have no code; each such
    /// occurrence is listed, in input order.
    UnknownSymbol(Vec<char>),
    /// The bit stream does not end on a code boundary, or is shorter than
    /// the bit length it claims.
    IncompleteCode,
    /// Stored bytes do not hold a well-formed container: a frequency table,
    /// a bit length and a payload.
    MalformedContainer,
}

/// Which kind of failure an error is.
pub open spec fn error_kind(e: HuffmanError) -> int {
    match e {
        HuffmanError::EmptyAlphabet => 0,
        HuffmanError::UnknownSymbol(_) => 1,
        HuffmanError::IncompleteCode => 2,
        HuffmanError::MalformedContainer => 3,
    }
}

/// The description of each kind of failure.
pub open spec fn message_text(e: HuffmanError) -> Seq<char> {
    match e {
        HuffmanError::EmptyAlphabet => "Cannot build a huffman tree from an empty alphabet"@,
        HuffmanError::UnknownSymbol(_) => "Could not find corresponding binary code for the given key"@,
        HuffmanError::IncompleteCode => "The encoded bits do not end on a complete code"@,
        HuffmanError::MalformedContainer => "The stored bytes do not hold a well-formed encoded file"@,
    }
}

/// Errors of different kinds have different descriptions.
pub proof fn lemma_messages_differ(a: HuffmanError, b: HuffmanError)
    requires
        error_kind(a) != error_kind(b),
    ensures
        message_text(a) != message_text(b),
{
    reveal_strlit("Cannot build a huffman tree from an empty alphabet");
    reveal_strlit("Could not find corresponding binary code for the given key");
    reveal_strlit("The encoded bits do not end on a complete code");
    reveal_strlit("The stored bytes do not hold a well-formed encoded file");
    assert(message_text(a).len() != message_text(b).len());
}

impl HuffmanError {
    /// A human-readable description of the error.
    pub fn message(&self) -> (r: &'static str)
        ensures
            r@ == message_text(*self),
            *self is EmptyAlphabet ==> r@ == "Cannot build a huffman tree from an empty alphabet"@,
            *self is UnknownSymbol ==> r@ == "Could not find corresponding binary code for the given key"@,
            *self is IncompleteCode ==> r@ == "The encoded bits do not end on a complete code"@,
            *self is MalformedContainer ==> r@ == "The stored bytes do not hold a well-formed encoded file"@,
    {
        match self {
            HuffmanError::EmptyAlphabet => "Cannot build a huffman tree from an empty alphabet",
            HuffmanError::UnknownSymbol(_) => "Could not find corresponding binary code for the given key",
            HuffmanError::IncompleteCode => "The encoded bits do not end on a complete code",
            HuffmanError::MalformedContainer => "The stored bytes do not hold a well-formed encoded file",
        }
    }
}

} // verus!
