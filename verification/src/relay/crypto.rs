//! Tunnel encryption: ChaCha20-Poly1305 with a 32-byte pre-shared key.
//!
//! Each packet is sealed under the nonce derived from its 16-bit sequence
//! number: the number in little-endian order followed by ten zero bytes.
//! The sealed form is the encrypted body followed by a 16-byte tag.
use vstd::prelude::*;

use chacha20poly1305::aead::{Aead, KeyInit};

use crate::relay::fec_codec::{le16, zeros};

verus! {

/// Bytes the authentication tag adds to a sealed message.
pub const TAG_SIZE: usize = 16;

/// Messages must be shorter than this (ChaCha20's 32-bit block counter).
pub const MAX_MESSAGE: u64 = 274_877_906_880;

/// What `ChaCha20Poly1305::encrypt` gives for `plaintext` under `key` and
/// `nonce` (no associated data).
pub uninterp spec fn chacha_seal(key: Seq<u8>, nonce: Seq<u8>, plaintext: Seq<u8>) -> Seq<u8>;

/// Messages the cipher accepts, and whose sealed form fits in memory.
pub open spec fn sealable(plaintext: Seq<u8>) -> bool {
    &&& plaintext.len() < MAX_MESSAGE
    &&& plaintext.len() + TAG_SIZE <= isize::MAX
}

/// Whether `plaintext` can be sealed.
pub fn can_seal(plaintext: &[u8]) -> (b: bool)
    ensures
        b == sealable(plaintext@),
{
    (plaintext.len() as u64) < MAX_MESSAGE && plaintext.len() <= (isize::MAX as usize) - TAG_SIZE
}

/// The nonce of the packet with sequence number `seq`.
pub open spec fn packet_nonce(seq: u16) -> Seq<u8> {
    le16(seq) + zeros(10)
}

/// The value of an ASCII hexadecimal digit (either case), if `c` is one.
pub open spec fn hex_value(c: u8) -> Option<u8> {
    if 48 <= c <= 57 {
        Some((c - 48) as u8)
    } else if 97 <= c <= 102 {
        Some((c - 87) as u8)
    } else if 65 <= c <= 70 {
        Some((c - 55) as u8)
    } else {
        None
    }
}

/// `text` is 64 hexadecimal digits.
pub open spec fn is_hex_key(text: Seq<u8>) -> bool {
    &&& text.len() == 64
    &&& forall|i: int| 0 <= i < 64 ==> (#[trigger] hex_value(text[i])) is Some
}

/// Byte `i` of the key written as `text`: two digits, high nibble first.
pub open spec fn hex_key_byte(text: Seq<u8>, i: int) -> u8 {
    (hex_value(text[2 * i])->0 * 16 + hex_value(text[2 * i + 1])->0) as u8
}

fn hex_digit(c: u8) -> (r: Option<u8>)
    ensures
        r == hex_value(c),
{
    if 48 <= c && c <= 57 {
        Some(c - 48)
    } else if 97 <= c && c <= 102 {
        Some(c - 87)
    } else if 65 <= c && c <= 70 {
        Some(c - 55)
    } else {
        None
    }
}

/// Reads a 32-byte pre-shared key written as 64 hexadecimal digits;
/// `None` on any other text.
pub fn key_from_hex(text: &[u8]) -> (r: Option<[u8; 32]>)
    ensures
        r is Some <==> is_hex_key(text@),
        r matches Some(key) ==> forall|i: int| 0 <= i < 32 ==> #[trigger] key@[i] == hex_key_byte(text@, i),
{
    if text.len() != 64 {
        return None;
    }
    let mut key: [u8; 32] = [0u8; 32];
    let mut i: usize = 0;
    while i < 32
        invariant
            0 <= i <= 32,
            text@.len() == 64,
            key@.len() == 32,
            forall|k: int| 0 <= k < 2 * i ==> (#[trigger] hex_value(text@[k])) is Some,
            forall|k: int| 0 <= k < i ==> #[trigger] key@[k] == hex_key_byte(text@, k),
        decreases 32 - i,
    {
        let hi = match hex_digit(text[2 * i]) {
            Some(v) => v,
            None => return None,
        };
        let lo = match hex_digit(text[2 * i + 1]) {
            Some(v) => v,
            None => return None,
        };
        key.set(i, hi * 16 + lo);
        i = i + 1;
    }
    Some(key)
}

/// Error of the AEAD cipher.
#[verifier::external_type_specification]
#[verifier::external_body]
pub struct ExAeadError(chacha20poly1305::Error);

/// Seals `plaintext` with `ChaCha20Poly1305::new(key).encrypt(nonce, plaintext)`.
///
/// Claimed of the crate: the call succeeds for every message shorter than
/// `MAX_MESSAGE` bytes (it refuses only what would overflow the 32-bit block
/// counter) whose sealed form can be allocated, and the result is the
/// encrypted body followed by the 16-byte tag.
#[verifier::external_body]
fn aead_seal(key: &[u8; 32], nonce: &[u8; 12], plaintext: &[u8]) -> (r: Result<
    Vec<u8>,
    chacha20poly1305::Error,
>)
    requires
        sealable(plaintext@),
    ensures
        r is Ok,
        r matches Ok(ct) ==> ct@ == chacha_seal(key@, nonce@, plaintext@),
        r matches Ok(ct) ==> ct@.len() == plaintext@.len() + TAG_SIZE,
{
    let cipher = chacha20poly1305::ChaCha20Poly1305::new(chacha20poly1305::Key::from_slice(key));
    cipher.encrypt(chacha20poly1305::Nonce::from_slice(nonce), plaintext)
}

/// Opens `ciphertext` with `ChaCha20Poly1305::new(key).decrypt(nonce, ciphertext)`.
///
/// Claimed of the crate: the call succeeds only when the tag authenticates
/// the body under `key` and `nonce`, and then returns the message whose
/// sealed form is `ciphertext`; the sealed form of any accepted message
/// opens to that message.
#[verifier::external_body]
fn aead_open(key: &[u8; 32], nonce: &[u8; 12], ciphertext: &[u8]) -> (r: Result<
    Vec<u8>,
    chacha20poly1305::Error,
>)
    ensures
        r is Err ==> forall|p: Seq<u8>| sealable(p) ==> #[trigger] chacha_seal(key@, nonce@, p) != ciphertext@,
        r matches Ok(q) ==> sealable(q@) && chacha_seal(key@, nonce@, q@) == ciphertext@,
        r matches Ok(q) ==> forall|p: Seq<u8>| sealable(p) && #[trigger] chacha_seal(key@, nonce@, p) == ciphertext@ ==> q@ == p,
{
    let cipher = chacha20poly1305::ChaCha20Poly1305::new(chacha20poly1305::Key::from_slice(key));
    cipher.decrypt(chacha20poly1305::Nonce::from_slice(nonce), ciphertext)
}

/// A sealed packet failed to authenticate.
#[derive(Debug)]
pub struct DecryptError;

impl DecryptError {
    /// The message that explains the failure.
    pub fn message(&self) -> (s: String)
        ensures
            s@ == "authentication failed"@,
    {
        proof {
            reveal_strlit("authentication failed");
        }
        String::from_str("authentication failed")
    }
}

/// The cipher state of one tunnel: its pre-shared key.
pub struct TunnelCrypto {
    key: [u8; 32],
}

impl TunnelCrypto {
    /// The key the tunnel seals with.
    pub closed spec fn key(&self) -> Seq<u8> {
        self.key@
    }

    pub fn new(key: &[u8; 32]) -> (c: Self)
        ensures
            c.key() == key@,
    {
        TunnelCrypto { key: *key }
    }

    /// Seals the payload of the packet with sequence number `seq`.
    pub fn encrypt(&self, seq: u16, plaintext: &[u8]) -> (ct: Vec<u8>)
        requires
            sealable(plaintext@),
        ensures
            ct@ == chacha_seal(self.key(), packet_nonce(seq), plaintext@),
            ct@.len() == plaintext@.len() + TAG_SIZE,
    {
        let nonce = packet_nonce_bytes(seq);
        match aead_seal(&self.key, &nonce, plaintext) {
            Ok(ct) => ct,
            Err(_) => Vec::new(),
        }
    }

    /// Opens the sealed payload of the packet with sequence number `seq`:
    /// `Ok` with the message exactly when `ciphertext` is the sealed form of
    /// some message under this key and that nonce.
    pub fn decrypt(&self, seq: u16, ciphertext: &[u8]) -> (r: Result<Vec<u8>, DecryptError>)
        ensures
            r matches Ok(q) ==> sealable(q@) && chacha_seal(self.key(), packet_nonce(seq), q@)
                == ciphertext@,
            forall|p: Seq<u8>|
                sealable(p) && #[trigger] chacha_seal(self.key(), packet_nonce(seq), p) == ciphertext@
                    ==> (r matches Ok(q) && q@ == p),
    {
        let nonce = packet_nonce_bytes(seq);
        match aead_open(&self.key, &nonce, ciphertext) {
            Ok(p) => Ok(p),
            Err(_) => Err(DecryptError),
        }
    }
}

/// The nonce bytes of the packet with sequence number `seq`.
fn packet_nonce_bytes(seq: u16) -> (n: [u8; 12])
    ensures
        n@ == packet_nonce(seq),
{
    let n: [u8; 12] = [(seq % 256) as u8, (seq / 256) as u8, 0, 0, 0, 0, 0, 0, 0, 0, 0, 0];
    assert(n@ =~= packet_nonce(seq));
    n
}

} // verus!
