//! Content hashes.

use vstd::prelude::*;
use vstd::string::*;
use vstd::utf8::*;

use crate::document::BlockKind;

verus! {

/// The BLAKE3 hash of a byte sequence.
pub uninterp spec fn blake3_hash(bytes: Seq<u8>) -> Seq<u8>;

/// `blake3::hash`: the hash of the bytes, which depends on them alone.
#[verifier::external_body]
fn hash_bytes(bytes: &[u8]) -> (r: [u8; 32])
    ensures
        r@ == blake3_hash(bytes@),
{
    *blake3::hash(bytes).as_bytes()
}

/// The bytes that a block's content hash is taken over: kind tag, a zero byte,
/// normalized content.
pub open spec fn hashed_bytes(kind: BlockKind, content: Seq<char>) -> Seq<u8> {
    encode_utf8(kind.name()) + seq![0u8] + encode_utf8(content)
}

/// The content hash of a block.
pub fn content_hash(kind: BlockKind, normalized_content: &str) -> (r: [u8; 32])
    ensures
        r@ == blake3_hash(hashed_bytes(kind, normalized_content@)),
{
    let mut bytes: Vec<u8> = kind.tag().as_bytes_vec();
    bytes.push(0);
    let mut content: Vec<u8> = normalized_content.as_bytes_vec();
    bytes.append(&mut content);
    assert(bytes@ =~= hashed_bytes(kind, normalized_content@));
    hash_bytes(bytes.as_slice())
}

} // verus!
