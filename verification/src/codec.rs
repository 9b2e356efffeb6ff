//! The recursive list encoding in which nodes are stored, as far as the trie
//! uses it: byte strings and lists are written, and the shape, the elements
//! and the payload of an encoded item are read.
use rlp::DecoderError;
use rlp::Prototype;
use rlp::Rlp;
use rlp::RlpStream;
use vstd::prelude::*;

verus! {

/// What an encoded item is: nothing, a byte string with the length of its
/// payload, or a list with the number of its elements.
pub enum Shape {
    Null,
    Data(usize),
    List(usize),
}

/// The encoding of a byte string as one item.
pub uninterp spec fn encoded_bytes(data: Seq<u8>) -> Seq<u8>;

/// The encoding of the list whose elements, each already encoded, make up
/// `payload` one after the other.
pub uninterp spec fn encoded_list(payload: Seq<u8>) -> Seq<u8>;

/// The shape that the decoder finds in `data`, where it finds one.
pub uninterp spec fn shape_of(data: Seq<u8>) -> Option<Shape>;

/// The encoding of the element at `index` of the list encoded in `data`,
/// where the decoder finds one.
pub uninterp spec fn element_of(data: Seq<u8>, index: usize) -> Option<Seq<u8>>;

/// The payload of the item encoded in `data`, where the decoder finds one.
pub uninterp spec fn payload_of(data: Seq<u8>) -> Option<Seq<u8>>;

/// The encoding of the empty byte string: the constant `rlp::NULL_RLP`, the
/// single byte 0x80.
#[verifier::external_body]
pub(crate) fn null_rlp() -> (r: Vec<u8>)
    ensures
        r@ == seq![0x80u8],
{
    rlp::NULL_RLP.to_vec()
}

/// Encodes a byte string as one item: `RlpStream::append` on a fresh stream,
/// then `RlpStream::out`. The result depends on the bytes alone.
#[verifier::external_body]
pub(crate) fn encode_bytes(data: &[u8]) -> (r: Vec<u8>)
    ensures
        r@ == encoded_bytes(data@),
{
    let mut stream = RlpStream::new();
    stream.append(&data);
    stream.out()
}

/// Encodes a list from the encodings of its `count` elements, laid end to
/// end in `payload`: `RlpStream::new_list`, one `RlpStream::append_raw` that
/// notes all the elements, then `RlpStream::out`. The stream is finished
/// because as many elements are noted as were announced, and at least one.
/// The result, a header for the payload's length and the payload, depends on
/// the payload alone.
#[verifier::external_body]
pub(crate) fn encode_list(payload: &[u8], count: usize) -> (r: Vec<u8>)
    requires
        count > 0,
    ensures
        r@ == encoded_list(payload@),
{
    let mut stream = RlpStream::new_list(count);
    stream.append_raw(payload, count);
    stream.out()
}

/// The shape of the item in `data`: `Rlp::prototype`, with each of its three
/// answers carried over as it is. The answer depends on the bytes alone.
#[verifier::external_body]
pub(crate) fn prototype(data: &[u8]) -> (r: Result<Shape, DecoderError>)
    ensures
        r is Ok == shape_of(data@) is Some,
        r is Ok ==> r->Ok_0 == shape_of(data@)->Some_0,
{
    match Rlp::new(data).prototype()? {
        Prototype::Null => Ok(Shape::Null),
        Prototype::Data(n) => Ok(Shape::Data(n)),
        Prototype::List(n) => Ok(Shape::List(n)),
    }
}

/// The encoding of the element at `index` of the list in `data`: `Rlp::at`,
/// then `Rlp::as_raw` of what it found. It fails where `data` is no list or
/// has no such element. The element is a part of the list's payload, which
/// follows a header of at least one byte: it is shorter than `data`.
#[verifier::external_body]
pub(crate) fn element_at(data: &[u8], index: usize) -> (r: Result<Vec<u8>, DecoderError>)
    ensures
        r is Ok == element_of(data@, index) is Some,
        r is Ok ==> r->Ok_0@ == element_of(data@, index)->Some_0,
        r is Ok ==> r->Ok_0@.len() < data@.len(),
{
    Ok(Rlp::new(data).at(index)?.as_raw().to_vec())
}

/// The payload of the item in `data`: `Rlp::data`. It fails where the header
/// is malformed or announces more bytes than there are.
#[verifier::external_body]
pub(crate) fn payload(data: &[u8]) -> (r: Result<Vec<u8>, DecoderError>)
    ensures
        r is Ok == payload_of(data@) is Some,
        r is Ok ==> r->Ok_0@ == payload_of(data@)->Some_0,
{
    Ok(Rlp::new(data).data()?.to_vec())
}

/// Whether the item is the empty byte string or the empty list: what
/// `Rlp::is_empty` tests, a first byte that is 0x80 or 0xc0.
pub fn is_empty_item(data: &[u8]) -> (r: bool)
    ensures
        r == (data@.len() > 0 && (data@[0] == 0xc0 || data@[0] == 0x80)),
{
    data.len() > 0 && (data[0] == 0xc0 || data[0] == 0x80)
}

} // verus!
