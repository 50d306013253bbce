//! The hash by which the contents of a file are compared.
use sha2::Digest;
use vstd::prelude::*;

verus! {

/// The SHA-256 digest of some bytes, as `sha2` computes it.
pub uninterp spec fn sha256(data: Seq<u8>) -> Seq<u8>;

/// The lower-case hexadecimal digit for a number below sixteen.
pub open spec fn hex_digit(n: int) -> char {
    if n < 10 {
        ('0' as int + n) as char
    } else {
        ('a' as int + (n - 10)) as char
    }
}

/// Two lower-case hexadecimal digits for each byte, the high half first.
pub open spec fn hex_text(data: Seq<u8>) -> Seq<char> {
    Seq::new(
        2 * data.len(),
        |i: int|
            if i % 2 == 0 {
                hex_digit(data[i / 2] as int / 16)
            } else {
                hex_digit(data[i / 2] as int % 16)
            },
    )
}

/// The hash of the contents of a file.
pub open spec fn hash_of(contents: Seq<u8>) -> Seq<char> {
    hex_text(sha256(contents))
}

/// `sha2::Sha256::digest`: the SHA-256 digest of the data, which has 32 bytes.
#[verifier::external_body]
fn sha256_digest(data: &[u8]) -> (r: Vec<u8>)
    ensures
        r@ == sha256(data@),
        r@.len() == 32,
{
    sha2::Sha256::digest(data).to_vec()
}

/// `hex::encode`: two lower-case hexadecimal digits for each byte.
#[verifier::external_body]
fn hex_encode(data: &Vec<u8>) -> (r: String)
    ensures
        r@ == hex_text(data@),
{
    hex::encode(data)
}

/// The hash of the contents of a file: its SHA-256 digest in hexadecimal digits.
pub fn calculate_hash(contents: &[u8]) -> (r: String)
    ensures
        r@ == hash_of(contents@),
        is_hash(r@),
{
    let digest = sha256_digest(contents);
    let text = hex_encode(&digest);
    proof {
        lemma_hex_text(digest@);
    }
    text
}

/// The character is a lower-case hexadecimal digit.
pub open spec fn is_hex_digit(c: char) -> bool {
    '0' <= c <= '9' || 'a' <= c <= 'f'
}

/// A hash: sixty-four lower-case hexadecimal digits.
pub open spec fn is_hash(s: Seq<char>) -> bool {
    s.len() == 64 && forall|i: int| 0 <= i < 64 ==> is_hex_digit(#[trigger] s[i])
}

/// Every file of the table is recorded with a hash.
pub open spec fn all_hashes(table: Map<Seq<char>, Seq<char>>) -> bool {
    forall|k: Seq<char>| #[trigger] table.contains_key(k) ==> is_hash(table[k])
}

/// Hexadecimal text is made of hexadecimal digits.
pub proof fn lemma_hex_text(data: Seq<u8>)
    ensures
        hex_text(data).len() == 2 * data.len(),
        forall|i: int| 0 <= i < 2 * data.len() ==> is_hex_digit(#[trigger] hex_text(data)[i]),
{
    assert forall|i: int| 0 <= i < 2 * data.len() implies is_hex_digit(
        #[trigger] hex_text(data)[i],
    ) by {
        let byte = data[i / 2] as int;
        assert(0 <= byte / 16 < 16);
        assert(0 <= byte % 16 < 16);
        assert forall|n: int| 0 <= n < 16 implies is_hex_digit(#[trigger] hex_digit(n)) by {}
    }
}

} // verus!
