//! The trusted boundary to outside crates. Each function here makes one
//! outside call; Verus believes the stated contract without reading the
//! body, so every contract is kept to what the called crate's source or
//! documentation plainly shows.

use vstd::prelude::*;

use sha3::Digest;

verus! {

/// The Keccak-256 digest of a byte sequence. The digest is a function of
/// the input alone; no statement here says what it is on given bytes.
pub uninterp spec fn keccak256_of(data: Seq<u8>) -> Seq<u8>;

/// Relies on sha3's `Keccak256`: a Keccak-256 digest is exactly 32 bytes
/// and depends only on the input.
#[verifier::external_body]
pub fn keccak256(data: &Vec<u8>) -> (r: Vec<u8>)
    ensures
        r@ == keccak256_of(data@),
        r@.len() == 32,
{
    sha3::Keccak256::digest(data.as_slice()).to_vec()
}

/// The lowercase hexadecimal digit for a value below sixteen.
pub open spec fn hex_digit(n: int) -> char {
    seq!['0', '1', '2', '3', '4', '5', '6', '7', '8', '9', 'a', 'b', 'c', 'd', 'e', 'f'][n]
}

/// Lowercase hexadecimal encoding: two digits per byte, high nibble
/// first.
pub open spec fn hex_of(data: Seq<u8>) -> Seq<char>
    decreases data.len(),
{
    if data.len() == 0 {
        Seq::empty()
    } else {
        seq![
            hex_digit(data.first() as int / 16),
            hex_digit(data.first() as int % 16),
        ] + hex_of(data.drop_first())
    }
}

/// The encoding writes two digits per byte.
pub proof fn lemma_hex_of_len(data: Seq<u8>)
    ensures
        hex_of(data).len() == 2 * data.len(),
    decreases data.len(),
{
    if data.len() > 0 {
        lemma_hex_of_len(data.drop_first());
    }
}

/// Relies on hex::encode: lowercase hexadecimal, high nibble first, two
/// digits per byte.
#[verifier::external_body]
pub fn hex_encode(data: &Vec<u8>) -> (r: String)
    ensures
        r@ == hex_of(data@),
{
    hex::encode(data.as_slice())
}

/// Relies on uuid's `Uuid::new_v4` and its `Display` form: a random
/// version-4 UUID printed in the hyphenated format, which is exactly 36
/// characters. The value is random: nothing relates two calls.
#[verifier::external_body]
pub fn fresh_id() -> (r: String)
    ensures
        r@.len() == 36,
{
    uuid::Uuid::new_v4().to_string()
}

/// Relies on chrono's `Utc::now`: the current Unix timestamp in seconds.
/// Nothing can be promised of the clock's reading.
#[verifier::external_body]
pub fn current_timestamp() -> (r: u64) {
    chrono::Utc::now().timestamp() as u64
}

} // verus!
