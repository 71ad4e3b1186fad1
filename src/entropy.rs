use vstd::prelude::*;
use vstd::utf8::encode_utf8;

verus! {

/// The HMAC-SHA256 of `msg` under `key`.
pub uninterp spec fn hmac_sha256_of(key: Seq<u8>, msg: Seq<u8>) -> Seq<u8>;

/// The lowercase hexadecimal digit of a value below 16.
pub open spec fn hex_digit(d: u8) -> char {
    seq!['0', '1', '2', '3', '4', '5', '6', '7', '8', '9', 'a', 'b', 'c', 'd', 'e', 'f'][d as int]
}

/// Two lowercase hexadecimal digits for each byte, high half first.
pub open spec fn hex_of(bytes: Seq<u8>) -> Seq<char>
    decreases bytes.len(),
{
    if bytes.len() == 0 {
        seq![]
    } else {
        hex_of(bytes.drop_last()) + seq![hex_digit(bytes.last() / 16), hex_digit(bytes.last() % 16)]
    }
}

/// Relies on hmac_sha256::HMAC::mac: the 32-byte HMAC-SHA256 of the message
/// under the key.
#[verifier::external_body]
fn hmac(key: &[u8], msg: &[u8]) -> (r: Vec<u8>)
    ensures
        r@ == hmac_sha256_of(key@, msg@),
        r@.len() == 32,
{
    hmac_sha256::HMAC::mac(msg, key).to_vec()
}

/// Relies on hex::encode: two lowercase hexadecimal digits for each byte.
#[verifier::external_body]
fn to_hex(bytes: &[u8]) -> (r: String)
    ensures
        r@ == hex_of(bytes@),
{
    hex::encode(bytes)
}

/// The message that an app's entropy is derived from: `app:identifier`.
pub open spec fn entropy_message(app_id: Seq<char>, identifier: Seq<char>) -> Seq<char> {
    app_id + seq![':'] + identifier
}

/// Entropy that an app derives from the platform's seed: the HMAC-SHA256,
/// under the seed, of `app:identifier`, in hexadecimal. It is the same on
/// every call with the same arguments, and differs between apps.
pub fn derive_entropy(seed: &str, app_id: &str, identifier: &str) -> (r: String)
    ensures
        r@ == hex_of(hmac_sha256_of(encode_utf8(seed@), encode_utf8(entropy_message(app_id@, identifier@)))),
        r@.len() == 64,
{
    proof {
        reveal_strlit(":");
    }
    let msg = String::from_str(app_id).concat(":").concat(identifier);
    assert(msg@ =~= entropy_message(app_id@, identifier@));
    let mac = hmac(seed.as_bytes(), msg.as_str().as_bytes());
    let r = to_hex(mac.as_slice());
    proof {
        lemma_hex_len(mac@);
    }
    r
}

proof fn lemma_hex_len(bytes: Seq<u8>)
    ensures
        hex_of(bytes).len() == 2 * bytes.len(),
    decreases bytes.len(),
{
    if bytes.len() > 0 {
        lemma_hex_len(bytes.drop_last());
    }
}

} // verus!
