//! Stable lookup keys for wallet addresses.

use sha2::{Digest, Sha256};
use vstd::prelude::*;
use vstd::string::*;

verus! {

/// The SHA-256 digest of a sequence of bytes.
pub uninterp spec fn sha256(data: Seq<u8>) -> Seq<u8>;

/// Calls `Sha256::digest` of the sha2 crate, which hashes `data` in one go, and hands
/// the digest on as a vector. The contract names the digest and says that it has 32
/// bytes, the output size that the crate fixes for SHA-256. Neither is proved.
#[verifier::external_body]
fn sha256_digest(data: &[u8]) -> (digest: Vec<u8>)
    ensures
        digest@ == sha256(data@),
        digest@.len() == 32,
{
    Sha256::digest(data).to_vec()
}

/// The lower-case hexadecimal digit for a number from 0 to 15.
pub open spec fn hex_digit(nibble: int) -> char {
    "0123456789abcdef"@[nibble]
}

/// `bytes` in lower-case hexadecimal: two digits for each byte, the high half first.
pub open spec fn hex_lower(bytes: Seq<u8>) -> Seq<char> {
    Seq::new(
        2 * bytes.len(),
        |i: int|
            if i % 2 == 0 {
                hex_digit(bytes[i / 2] as int / 16)
            } else {
                hex_digit(bytes[i / 2] as int % 16)
            },
    )
}

/// Writes `bytes` in lower-case hexadecimal ([`hex_lower`]).
pub fn to_hex(bytes: &[u8]) -> (text: String)
    ensures
        text@ == hex_lower(bytes@),
{
    let digits = "0123456789abcdef";
    proof {
        reveal_strlit("0123456789abcdef");
        assert(is_ascii(digits)) by {
            reveal_strlit("0123456789abcdef");
            assert forall|i: int| 0 <= i < digits@.len() implies (digits@[i] as nat) < 128 by {
                assert(digits@ =~= seq![
                    '0',
                    '1',
                    '2',
                    '3',
                    '4',
                    '5',
                    '6',
                    '7',
                    '8',
                    '9',
                    'a',
                    'b',
                    'c',
                    'd',
                    'e',
                    'f',
                ]);
            }
        }
    }
    let mut text = String::new();
    let mut i: usize = 0;
    while i < bytes.len()
        invariant
            i <= bytes@.len(),
            digits@ == "0123456789abcdef"@,
            digits@.len() == 16,
            is_ascii(digits),
            text@ == hex_lower(bytes@.take(i as int)),
        decreases bytes@.len() - i,
    {
        let byte: u8 = bytes[i];
        let high: usize = (byte / 16) as usize;
        let low: usize = (byte % 16) as usize;
        let ghost before = text@;
        text.append(digits.substring_ascii(high, high + 1));
        text.append(digits.substring_ascii(low, low + 1));
        proof {
            assert(text@ =~= before.push(hex_digit(byte as int / 16)).push(
                hex_digit(byte as int % 16),
            ));
            assert(bytes@.take(i + 1) =~= bytes@.take(i as int).push(byte));
            assert(text@ =~= hex_lower(bytes@.take(i + 1)));
        }
        i = i + 1;
    }
    proof {
        assert(bytes@.take(bytes@.len() as int) =~= bytes@);
    }
    text
}

/// The key under which a wallet is looked up: the SHA-256 digest of the address's
/// UTF-8 bytes, as 64 lower-case hexadecimal digits.
pub fn hash_wallet_address(address: &str) -> (key: String)
    ensures
        key@ == hex_lower(sha256(address.spec_bytes())),
        key@.len() == 64,
{
    let digest = sha256_digest(address.as_bytes());
    to_hex(digest.as_slice())
}

} // verus!
