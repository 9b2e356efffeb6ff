//! The errors of the trie.
use rlp::DecoderError;
use vstd::prelude::*;

verus! {

/// The error of the list decoder, `rlp::DecoderError`: carried through, never
/// looked into.
#[verifier::external_type_specification]
#[verifier::external_body]
pub struct ExDecoderError(rlp::DecoderError);

/// What went wrong in an operation of the trie.
#[derive(Debug)]
pub enum TrieError {
    /// The list decoder refused a stored blob.
    Decoder(DecoderError),
    /// A stored blob decoded to something that is no node.
    InvalidData,
    /// The store holds nothing under the root digest asked for.
    InvalidStateRoot,
    /// No trie could be built or read from the nodes of a proof.
    InvalidProof,
}

/// The kind of an error, without what the decoder reported.
pub enum ErrorKind {
    Decoder,
    InvalidData,
    InvalidStateRoot,
    InvalidProof,
}

impl TrieError {
    /// The kind of this error.
    pub open spec fn kind(&self) -> ErrorKind {
        match self {
            TrieError::Decoder(_) => ErrorKind::Decoder,
            TrieError::InvalidData => ErrorKind::InvalidData,
            TrieError::InvalidStateRoot => ErrorKind::InvalidStateRoot,
            TrieError::InvalidProof => ErrorKind::InvalidProof,
        }
    }
}

/// The message for an error of the decoder: the words "trie error: " and
/// then the error as `rlp::DecoderError` writes itself for debugging.
#[verifier::external_body]
fn decoder_message(error: &DecoderError) -> (r: String) {
    format!("trie error: {:?}", error)
}

impl TrieError {
    /// The message of this error, for people to read.
    pub fn message(&self) -> (r: String)
        ensures
            self is InvalidData ==> r@ == "trie error: invalid data"@,
            self is InvalidStateRoot ==> r@ == "trie error: invalid state root"@,
            self is InvalidProof ==> r@ == "trie error: invalid proof"@,
    {
        match self {
            TrieError::Decoder(err) => decoder_message(err),
            TrieError::InvalidData => "trie error: invalid data".to_owned(),
            TrieError::InvalidStateRoot => "trie error: invalid state root".to_owned(),
            TrieError::InvalidProof => "trie error: invalid proof".to_owned(),
        }
    }
}

impl From<DecoderError> for TrieError {
    fn from(error: DecoderError) -> (r: TrieError) {
        TrieError::Decoder(error)
    }
}

impl vstd::std_specs::convert::FromSpecImpl<DecoderError> for TrieError {
    open spec fn obeys_from_spec() -> bool {
        true
    }

    open spec fn from_spec(error: DecoderError) -> TrieError {
        TrieError::Decoder(error)
    }
}

} // verus!
