//! Hashes of contents, by which changes are told.
use crate::lines::bytes_of;
use crate::text::{hexadecimal, hexadecimal_text};
use vstd::prelude::*;

verus! {

/// The 128 bit XXH3 hash of some bytes, as `xxhash_rust::xxh3::xxh3_128` gives
/// it.
pub uninterp spec fn xxh3(bytes: Seq<u8>) -> u128;

/// `xxhash_rust::xxh3::xxh3_128` computes a hash that is a function of the bytes
/// alone.
pub assume_specification[ xxhash_rust::xxh3::xxh3_128 ](input: &[u8]) -> (hash: u128)
    ensures
        hash == xxh3(input@),
;

/// The hash of a text: thirty-two hexadecimal digits.
pub open spec fn text_hash(text: Seq<char>) -> Seq<char> {
    hexadecimal(xxh3(bytes_of(text)) as nat, 32)
}

/// The hash of a text: thirty-two hexadecimal digits.
pub fn hash_text(text: &str) -> (hash: String)
    ensures
        hash@ == text_hash(text@),
{
    hexadecimal_text(xxhash_rust::xxh3::xxh3_128(text.as_bytes()))
}

/// What is hashed of an external content: its language, its text and its
/// metadata, line by line.
pub open spec fn content_payload(
    content: Seq<char>,
    language: Seq<char>,
    metadata: Option<Seq<char>>,
) -> Seq<char> {
    language + "\n"@ + content + match metadata {
        Some(metadata) => "\n"@ + metadata,
        None => Seq::empty(),
    }
}

/// The hash of an external content.
pub open spec fn content_hash(
    content: Seq<char>,
    language: Seq<char>,
    metadata: Option<Seq<char>>,
) -> Seq<char> {
    text_hash(content_payload(content, language, metadata))
}

/// The hash of an external content with its language and its metadata.
pub fn hash_content(content: &str, language: &str, metadata: &Option<String>) -> (hash: String)
    ensures
        hash@ == content_hash(content@, language@, crate::types::text_view(*metadata)),
{
    let mut payload: String = language.to_owned();
    payload.push_str("\n");
    payload.push_str(content);
    let ghost front = payload@;
    match metadata {
        Some(metadata) => {
            payload.push_str("\n");
            payload.push_str(metadata.as_str());
            assert(payload@ =~= front + ("\n"@ + metadata@));
        },
        None => {
            assert(payload@ =~= front + Seq::<char>::empty());
        },
    }
    hash_text(payload.as_str())
}

} // verus!
