//! The cryptographic primitives the encrypted store is built on.
//!
//! Each primitive is an outside call behind a trusted wrapper whose contract
//! names its result: the Argon2id key of a password and salt, the AES-256
//! counter-mode keystream, and the HMAC-SHA-256 tag. Everything layered on
//! top — the envelope, the pipeline, the rotation — is verified against
//! these names.
use vstd::prelude::*;

verus! {

/// The 32-byte key that Argon2id (64 MiB memory, 3 passes, 1 lane) derives
/// from a password and a salt.
pub uninterp spec fn argon2id_key(password: Seq<u8>, salt: Seq<u8>) -> Seq<u8>;

/// The keystream of AES-256 in counter mode under a key and a 16-byte
/// nonce, truncated to `len` bytes.
pub uninterp spec fn aes256_ctr_stream(key: Seq<u8>, nonce: Seq<u8>, len: int) -> Seq<u8>;

/// The 32-byte HMAC-SHA-256 tag of a message under a key.
pub uninterp spec fn hmac_sha256(key: Seq<u8>, data: Seq<u8>) -> Seq<u8>;

/// `data` XOR-ed with the counter-mode keystream: encryption and decryption
/// alike.
pub open spec fn ctr_xor(key: Seq<u8>, nonce: Seq<u8>, data: Seq<u8>) -> Seq<u8> {
    Seq::new(data.len(), |i: int| data[i] ^ aes256_ctr_stream(key, nonce, data.len() as int)[i])
}

/// Applying the keystream twice gives the plaintext back.
pub proof fn lemma_ctr_involution(key: Seq<u8>, nonce: Seq<u8>, data: Seq<u8>)
    ensures
        ctr_xor(key, nonce, ctr_xor(key, nonce, data)) == data,
{
    let once = ctr_xor(key, nonce, data);
    let twice = ctr_xor(key, nonce, once);
    assert forall|i: int| 0 <= i < data.len() implies twice[i] == data[i] by {
        let s = aes256_ctr_stream(key, nonce, data.len() as int);
        assert(once[i] == data[i] ^ s[i]);
        assert(twice[i] == (data[i] ^ s[i]) ^ s[i]);
        assert(forall|a: u8, b: u8| (a ^ b) ^ b == a) by (bit_vector);
    }
    assert(twice =~= data);
}

/// Relies on `argon2::Argon2::hash_password_into` with the Argon2id
/// algorithm and fixed parameters (65536 KiB memory, 3 passes, 1 lane,
/// 32-byte output): the key is a function of password and salt alone, and
/// with a 16-byte salt the call fails only for a password longer than the
/// algorithm's 2^32 - 1 byte limit.
#[verifier::external_body]
pub(crate) fn derive_key_raw(password: &[u8], salt: &[u8]) -> (r: Option<Vec<u8>>)
    requires
        salt@.len() == 16,
    ensures
        match r {
            Some(k) => k@ == argon2id_key(password@, salt@) && k@.len() == 32 && password@.len()
                <= 0xFFFF_FFFF,
            None => password@.len() > 0xFFFF_FFFF,
        },
{
    let params = match argon2::Params::new(65536, 3, 1, None) {
        Ok(p) => p,
        Err(_) => return None,
    };
    let alg = argon2::Argon2::new(argon2::Algorithm::Argon2id, argon2::Version::V0x13, params);
    let mut key = vec![0u8; 32];
    match alg.hash_password_into(password, salt, &mut key) {
        Ok(()) => Some(key),
        Err(_) => None,
    }
}

/// Relies on `ctr::Ctr128BE<aes::Aes256>` (AES-256 in counter mode, big
/// endian 128-bit counter): `apply_keystream` XOR-s the buffer with a
/// keystream that is a function of key and nonce alone.
#[verifier::external_body]
pub(crate) fn apply_ctr(key: &[u8], nonce: &[u8], data: &mut Vec<u8>)
    requires
        key@.len() == 32,
        nonce@.len() == 16,
    ensures
        aes256_ctr_stream(key@, nonce@, old(data)@.len() as int).len() == old(data)@.len(),
        final(data)@ == ctr_xor(key@, nonce@, old(data)@),
{
    let mut cipher: ctr::Ctr128BE<aes::Aes256> = ctr::cipher::KeyIvInit::new_from_slices(
        key,
        nonce,
    ).expect("lengths are fixed by the caller");
    ctr::cipher::StreamCipher::apply_keystream(&mut cipher, data.as_mut_slice());
}

/// Relies on `hmac::Hmac<sha2::Sha256>`: the tag is 32 bytes and a function
/// of key and message alone; any key length is accepted.
#[verifier::external_body]
pub(crate) fn hmac_tag(key: &[u8], data: &[u8]) -> (r: Vec<u8>)
    ensures
        r@ == hmac_sha256(key@, data@),
        r@.len() == 32,
{
    let mut mac = <hmac::Hmac<sha2::Sha256> as hmac::Mac>::new_from_slice(key).expect(
        "HMAC accepts any key length",
    );
    hmac::Mac::update(&mut mac, data);
    hmac::Mac::finalize(mac).into_bytes().to_vec()
}

/// Relies on `hmac::Mac::verify_slice`: a constant-time comparison that
/// accepts exactly the full 32-byte tag of the message under the key.
#[verifier::external_body]
pub(crate) fn hmac_verify(key: &[u8], data: &[u8], tag: &[u8]) -> (r: bool)
    ensures
        r == (tag@ == hmac_sha256(key@, data@)),
{
    let mut mac = <hmac::Hmac<sha2::Sha256> as hmac::Mac>::new_from_slice(key).expect(
        "HMAC accepts any key length",
    );
    hmac::Mac::update(&mut mac, data);
    hmac::Mac::verify_slice(mac, tag).is_ok()
}

/// Relies on `rand::rngs::OsRng::fill_bytes`: fills the buffer from the
/// operating system's entropy source. Nothing is assumed of the values.
/// If that source itself fails, the call aborts the process — an
/// environmental condition, not a function of any input.
#[verifier::external_body]
pub(crate) fn fill_random(buf: &mut Vec<u8>)
    ensures
        final(buf)@.len() == old(buf)@.len(),
{
    rand::RngCore::fill_bytes(&mut rand::rngs::OsRng, buf.as_mut_slice());
}

/// Relies on `zeroize::Zeroize` for byte slices: overwrites every byte with
/// zero through writes the compiler will not elide.
#[verifier::external_body]
pub(crate) fn wipe(buf: &mut Vec<u8>)
    ensures
        final(buf)@.len() == old(buf)@.len(),
        forall|i: int| 0 <= i < final(buf)@.len() ==> final(buf)@[i] == 0,
{
    zeroize::Zeroize::zeroize(buf.as_mut_slice());
}

} // verus!
