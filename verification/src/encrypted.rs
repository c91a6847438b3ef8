//! The atomic-commit store for an encrypted aggregate.
//!
//! The persisted bytes are an authenticated-encryption envelope: a fixed
//! salt, a fresh nonce for every encryption, the counter-mode ciphertext of
//! the serialized aggregate, and an HMAC tag over the ciphertext that is
//! checked before any plaintext is released. The symmetric key is derived
//! from a password and the salt by a memory-hard KDF, held for the lifetime
//! of the open store, and replaced — with the buffers of the old key wiped —
//! on password rotation. A failed tag check is reported as one
//! undiscriminated decryption failure, whether the password was wrong or
//! the bytes were tampered with.
use vstd::prelude::*;

use crate::atomic::{lemma_staging_distinct, staging_of, staging_path, PendingWrite};
use crate::crypto::{
    aes256_ctr_stream, apply_ctr, argon2id_key, ctr_xor, derive_key_raw, fill_random, hmac_sha256,
    hmac_tag, hmac_verify, lemma_ctr_involution, wipe,
};
use crate::doc::{Doc, DocModel};
use crate::json::{json_of, json_parse, parse_json, print_json};
use crate::text::{chars_vec, string_from_chars, string_from_utf8};
use crate::DbError;
use vstd::string::StringSliceAdditionalSpecFns;

verus! {

/// The length of the KDF salt, in bytes.
pub const SALT_LEN: usize = 16;

/// The length of the counter-mode nonce, in bytes.
pub const NONCE_LEN: usize = 16;

/// The length of the authentication tag, in bytes.
pub const TAG_LEN: usize = 32;

/// The envelope: everything the encrypted store ever persists.
///
/// The salt is fixed per database and regenerated only on password
/// rotation; the nonce is fresh for every encryption; the tag binds the
/// ciphertext, and is verified before any plaintext is returned.
pub struct EncryptedData {
    salt: Vec<u8>,
    nonce: Vec<u8>,
    ciphertext: Vec<u8>,
    hmac: Vec<u8>,
}

/// The byte encoding of an envelope: salt, nonce and tag at fixed offsets,
/// the ciphertext as the remainder.
pub open spec fn envelope_of(salt: Seq<u8>, nonce: Seq<u8>, tag: Seq<u8>, ct: Seq<u8>) -> Seq<
    u8,
> {
    salt + nonce + tag + ct
}

impl EncryptedData {
    /// The lengths of the fixed fields are right.
    pub open spec fn wf(&self) -> bool {
        self.salt_spec().len() == SALT_LEN && self.nonce_spec().len() == NONCE_LEN
            && self.hmac_spec().len() == TAG_LEN
    }

    /// The stored salt.
    pub closed spec fn salt_spec(&self) -> Seq<u8> {
        self.salt@
    }

    /// The stored nonce.
    pub closed spec fn nonce_spec(&self) -> Seq<u8> {
        self.nonce@
    }

    /// The stored ciphertext.
    pub closed spec fn ciphertext_spec(&self) -> Seq<u8> {
        self.ciphertext@
    }

    /// The stored tag.
    pub closed spec fn hmac_spec(&self) -> Seq<u8> {
        self.hmac@
    }

    /// Serialize the envelope.
    pub fn encode(&self) -> (r: Vec<u8>)
        requires
            self.wf(),
        ensures
            r@ == envelope_of(
                self.salt_spec(),
                self.nonce_spec(),
                self.hmac_spec(),
                self.ciphertext_spec(),
            ),
    {
        let mut out = copy_bytes(self.salt.as_slice());
        let mut nonce = copy_bytes(self.nonce.as_slice());
        let mut tag = copy_bytes(self.hmac.as_slice());
        let mut ct = copy_bytes(self.ciphertext.as_slice());
        out.append(&mut nonce);
        out.append(&mut tag);
        out.append(&mut ct);
        out
    }

    /// Deserialize an envelope.
    ///
    /// Fails exactly when the bytes are too short to hold the fixed
    /// fields; the remainder, of any length, is the ciphertext.
    pub fn decode(bytes: &[u8]) -> (r: Option<EncryptedData>)
        ensures
            bytes@.len() < SALT_LEN + NONCE_LEN + TAG_LEN ==> r is None,
            bytes@.len() >= SALT_LEN + NONCE_LEN + TAG_LEN ==> (r matches Some(e) && e.wf()
                && e.salt_spec() == bytes@.subrange(0, SALT_LEN as int) && e.nonce_spec()
                == bytes@.subrange(SALT_LEN as int, (SALT_LEN + NONCE_LEN) as int)
                && e.hmac_spec() == bytes@.subrange(
                (SALT_LEN + NONCE_LEN) as int,
                (SALT_LEN + NONCE_LEN + TAG_LEN) as int,
            ) && e.ciphertext_spec() == bytes@.skip((SALT_LEN + NONCE_LEN + TAG_LEN) as int)),
    {
        let n = bytes.len();
        if n < SALT_LEN + NONCE_LEN + TAG_LEN {
            return None;
        }
        let mut rest = vstd::slice::slice_to_vec(bytes);
        let mut nonce_on = rest.split_off(SALT_LEN);
        let salt = rest;
        let mut tag_on = nonce_on.split_off(NONCE_LEN);
        let nonce = nonce_on;
        let ciphertext = tag_on.split_off(TAG_LEN);
        let hmac = tag_on;
        proof {
            assert(salt@ =~= bytes@.subrange(0, SALT_LEN as int));
            assert(nonce@ =~= bytes@.subrange(SALT_LEN as int, (SALT_LEN + NONCE_LEN) as int));
            assert(hmac@ =~= bytes@.subrange(
                (SALT_LEN + NONCE_LEN) as int,
                (SALT_LEN + NONCE_LEN + TAG_LEN) as int,
            ));
            assert(ciphertext@ =~= bytes@.skip((SALT_LEN + NONCE_LEN + TAG_LEN) as int));
        }
        Some(EncryptedData { salt, nonce, ciphertext, hmac })
    }
}

/// An owned copy of a byte slice.
fn copy_bytes(src: &[u8]) -> (r: Vec<u8>)
    ensures
        r@ == src@,
{
    vstd::slice::slice_to_vec(src)
}

/// A fresh buffer of `SALT_LEN` or `NONCE_LEN` random bytes.
fn random_bytes(len: usize) -> (r: Vec<u8>)
    ensures
        r@.len() == len,
{
    let mut buf: Vec<u8> = Vec::new();
    let mut i: usize = 0;
    while i < len
        invariant
            buf@.len() == i,
            0 <= i <= len,
        decreases len - i,
    {
        buf.push(0u8);
        i = i + 1;
    }
    fill_random(&mut buf);
    buf
}

/// An aggregate that an encrypted store can persist.
///
/// The aggregate describes itself as a document, exactly as for the
/// plaintext store; inside the envelope it travels in the compact
/// representation. The provided methods are the encryption pipeline and
/// are verified here against their contracts; an implementation that
/// overrides them in unverified code forfeits those guarantees.
pub trait EncryptedDataStore: Sized {
    /// The default aggregate of a newly created store.
    fn fresh() -> Self;

    /// Render the aggregate as a document.
    fn to_doc(&self, human: bool) -> Doc;

    /// Rebuild the aggregate from a document.
    fn from_doc(d: &Doc, human: bool) -> Option<Self>;

    /// Seal the aggregate in an envelope under `key`, with a fresh nonce.
    fn encrypt(&self, key: &[u8], salt: &[u8]) -> (r: EncryptedData)
        requires
            key@.len() == 32,
            salt@.len() == SALT_LEN,
        ensures
            r.wf(),
            r.salt_spec() == salt@,
            r.hmac_spec() == hmac_sha256(key@, r.ciphertext_spec()),
            exists|dd: DocModel|
                r.ciphertext_spec() == ctr_xor(
                    key@,
                    r.nonce_spec(),
                    vstd::utf8::encode_utf8(#[trigger] json_of(dd)),
                ),
    {
        let nonce = random_bytes(NONCE_LEN);
        let d = self.to_doc(false);
        let cs = print_json(&d);
        let s = string_from_chars(&cs);
        let mut ct = vstd::slice::slice_to_vec(s.as_str().as_bytes());
        apply_ctr(key, nonce.as_slice(), &mut ct);
        let tag = hmac_tag(key, ct.as_slice());
        let salt_copy = copy_bytes(salt);
        EncryptedData { salt: salt_copy, nonce, ciphertext: ct, hmac: tag }
    }

    /// Open an envelope under `key`.
    ///
    /// The tag is verified first: a mismatch — wrong password, tampering or
    /// rot — is one undiscriminated `AuthenticationFailure`, before any
    /// plaintext exists. A verified envelope whose plaintext does not
    /// decode is `CorruptData`.
    fn decrypt(encrypted: &EncryptedData, key: &[u8]) -> (r: Result<Self, DbError>)
        requires
            key@.len() == 32,
            encrypted.wf(),
        ensures
            (encrypted.hmac_spec() != hmac_sha256(key@, encrypted.ciphertext_spec())) <==> r
                == Err::<Self, DbError>(DbError::AuthenticationFailure),
            ({
                let plain = ctr_xor(key@, encrypted.nonce_spec(), encrypted.ciphertext_spec());
                &&& (encrypted.hmac_spec() == hmac_sha256(key@, encrypted.ciphertext_spec())
                    && !vstd::utf8::valid_utf8(plain) ==> r == Err::<Self, DbError>(
                    DbError::CorruptData,
                ))
                &&& (encrypted.hmac_spec() == hmac_sha256(key@, encrypted.ciphertext_spec())
                    && vstd::utf8::valid_utf8(plain) && json_parse(
                    vstd::utf8::decode_utf8(plain),
                ) is None ==> r == Err::<Self, DbError>(DbError::CorruptData))
                &&& (r is Err ==> r == Err::<Self, DbError>(DbError::AuthenticationFailure) || r
                    == Err::<Self, DbError>(DbError::CorruptData))
            }),
    {
        if !hmac_verify(key, encrypted.ciphertext.as_slice(), encrypted.hmac.as_slice()) {
            return Err(DbError::AuthenticationFailure);
        }
        let mut plain = copy_bytes(encrypted.ciphertext.as_slice());
        apply_ctr(key, encrypted.nonce.as_slice(), &mut plain);
        let text = match string_from_utf8(plain) {
            Some(t) => t,
            None => {
                return Err(DbError::CorruptData);
            },
        };
        let cs = chars_vec(text.as_str());
        let d = match parse_json(&cs) {
            Some(d) => d,
            None => {
                return Err(DbError::CorruptData);
            },
        };
        match Self::from_doc(&d, false) {
            Some(x) => Ok(x),
            None => Err(DbError::CorruptData),
        }
    }

    /// Seal and serialize: the bytes a commit writes.
    fn save_encrypted(&self, key: &[u8], salt: &[u8]) -> (r: Vec<u8>)
        requires
            key@.len() == 32,
            salt@.len() == SALT_LEN,
        ensures
            exists|nonce: Seq<u8>, ct: Seq<u8>|
                {
                    &&& r@ == #[trigger] envelope_of(salt@, nonce, hmac_sha256(key@, ct), ct)
                    &&& nonce.len() == NONCE_LEN
                    &&& hmac_sha256(key@, ct).len() == TAG_LEN
                    &&& exists|dd: DocModel|
                        ct == ctr_xor(key@, nonce, vstd::utf8::encode_utf8(#[trigger] json_of(dd)))
                },
    {
        let e = self.encrypt(key, salt);
        e.encode()
    }

    /// Deserialize and open: how a load reads the bytes of a snapshot.
    fn load_encrypted(bytes: &[u8], key: &[u8]) -> (r: Result<Self, DbError>)
        requires
            key@.len() == 32,
        ensures
            bytes@.len() < SALT_LEN + NONCE_LEN + TAG_LEN ==> r == Err::<Self, DbError>(
                DbError::CorruptData,
            ),
            bytes@.len() >= SALT_LEN + NONCE_LEN + TAG_LEN ==> {
                let tag = bytes@.subrange(
                    (SALT_LEN + NONCE_LEN) as int,
                    (SALT_LEN + NONCE_LEN + TAG_LEN) as int,
                );
                let ct = bytes@.skip((SALT_LEN + NONCE_LEN + TAG_LEN) as int);
                (tag != hmac_sha256(key@, ct)) <==> r == Err::<Self, DbError>(
                    DbError::AuthenticationFailure,
                )
            },
            r is Err ==> r == Err::<Self, DbError>(DbError::AuthenticationFailure) || r == Err::<
                Self,
                DbError,
            >(DbError::CorruptData),
    {
        let e = match EncryptedData::decode(bytes) {
            Some(e) => e,
            None => {
                return Err(DbError::CorruptData);
            },
        };
        Self::decrypt(&e, key)
    }
}

/// The key material of a prepared password rotation, to be installed once
/// the rotated snapshot is durably on disk.
pub struct Rekey {
    key: Vec<u8>,
    salt: Vec<u8>,
}

impl Rekey {
    /// The new symmetric key.
    pub closed spec fn key_spec(&self) -> Seq<u8> {
        self.key@
    }

    /// The new salt.
    pub closed spec fn salt_spec(&self) -> Seq<u8> {
        self.salt@
    }

    /// The lengths are right.
    pub open spec fn wf(&self) -> bool {
        self.key_spec().len() == 32 && self.salt_spec().len() == SALT_LEN
    }
}

/// The encrypted store: the aggregate, the snapshot paths, and the key
/// material under which every commit is sealed.
pub struct EncryptedAtomicDatabase<T: EncryptedDataStore> {
    path: String,
    tmp: String,
    data: T,
    key: Vec<u8>,
    salt: Vec<u8>,
}

impl<T: EncryptedDataStore> EncryptedAtomicDatabase<T> {
    /// The target path of the snapshot.
    pub closed spec fn target(&self) -> Seq<char> {
        self.path@
    }

    /// The held symmetric key.
    pub closed spec fn key_spec(&self) -> Seq<u8> {
        self.key@
    }

    /// The held salt.
    pub closed spec fn salt_spec(&self) -> Seq<u8> {
        self.salt@
    }

    /// The aggregate the store holds.
    pub closed spec fn aggregate(&self) -> T {
        self.data
    }

    /// The staging path is derived from the target and the key material
    /// has the right lengths.
    pub closed spec fn wf(&self) -> bool {
        self.tmp@ == staging_of(self.path@) && self.key@.len() == 32 && self.salt@.len()
            == SALT_LEN
    }

    /// Open an existing encrypted snapshot with a password.
    ///
    /// The salt read from the envelope and the password derive the key; the
    /// envelope must then authenticate under it. A leftover staging file
    /// aborts the open, as for the plaintext store. A wrong password and a
    /// tampered file fail the same way, and the file is not touched.
    pub fn load(path: &str, file_bytes: &[u8], staging_exists: bool, password: &str) -> (r:
        Result<Self, DbError>)
        ensures
            staging_exists ==> r == Err::<Self, DbError>(DbError::AlreadyExists),
            !staging_exists && file_bytes@.len() < SALT_LEN + NONCE_LEN + TAG_LEN ==> r == Err::<
                Self,
                DbError,
            >(DbError::CorruptData),
            !staging_exists && file_bytes@.len() >= SALT_LEN + NONCE_LEN + TAG_LEN ==> {
                let salt = file_bytes@.subrange(0, SALT_LEN as int);
                let tag = file_bytes@.subrange(
                    (SALT_LEN + NONCE_LEN) as int,
                    (SALT_LEN + NONCE_LEN + TAG_LEN) as int,
                );
                let ct = file_bytes@.skip((SALT_LEN + NONCE_LEN + TAG_LEN) as int);
                let key = argon2id_key(password.spec_bytes(), salt);
                &&& (password.spec_bytes().len() > 0xFFFF_FFFF <==> r == Err::<Self, DbError>(
                    DbError::KeyDerivationFailure,
                ))
                &&& (password.spec_bytes().len() <= 0xFFFF_FFFF ==> ((tag != hmac_sha256(
                    key,
                    ct,
                )) <==> r == Err::<Self, DbError>(DbError::AuthenticationFailure)))
                &&& (r matches Ok(db) ==> db.wf() && db.target() == path@ && db.key_spec() == key
                    && db.salt_spec() == salt)
            },
            r == Err::<Self, DbError>(DbError::AlreadyExists) ==> staging_exists,
    {
        if staging_exists {
            return Err(DbError::AlreadyExists);
        }
        let e = match EncryptedData::decode(file_bytes) {
            Some(e) => e,
            None => {
                return Err(DbError::CorruptData);
            },
        };
        let key = match derive_key_raw(password.as_bytes(), e.salt.as_slice()) {
            Some(k) => k,
            None => {
                return Err(DbError::KeyDerivationFailure);
            },
        };
        let data = match T::decrypt(&e, key.as_slice()) {
            Ok(x) => x,
            Err(err) => {
                return Err(err);
            },
        };
        let tmp = staging_path(path);
        let salt = copy_bytes(e.salt.as_slice());
        Ok(
            EncryptedAtomicDatabase {
                path: own_path(path),
                tmp,
                data,
                key,
                salt,
            },
        )
    }

    /// Create a fresh encrypted snapshot at a path.
    ///
    /// A new random salt is fixed for the database, the key is derived from
    /// it and the password, and the default aggregate is sealed; the
    /// returned [`PendingWrite`] materializes it. A leftover staging file
    /// and an occupied target path both abort: a create never overwrites.
    pub fn create_new(path: &str, staging_exists: bool, target_exists: bool, password: &str) -> (r:
        Result<(Self, PendingWrite), DbError>)
        ensures
            staging_exists || target_exists ==> r == Err::<(Self, PendingWrite), DbError>(
                DbError::AlreadyExists,
            ),
            !staging_exists && !target_exists ==> match r {
                Ok((db, plan)) => {
                    &&& db.wf()
                    &&& db.target() == path@
                    &&& db.key_spec() == argon2id_key(password.spec_bytes(), db.salt_spec())
                    &&& plan.target_path@ == path@
                    &&& plan.staging_path@ == staging_of(path@)
                    &&& plan.staging_path@ != plan.target_path@
                    &&& sealed_snapshot(plan.bytes@, db.key_spec(), db.salt_spec())
                },
                Err(e) => e == DbError::KeyDerivationFailure && password.spec_bytes().len()
                    > 0xFFFF_FFFF,
            },
    {
        if staging_exists || target_exists {
            return Err(DbError::AlreadyExists);
        }
        let salt = random_bytes(SALT_LEN);
        let key = match derive_key_raw(password.as_bytes(), salt.as_slice()) {
            Some(k) => k,
            None => {
                return Err(DbError::KeyDerivationFailure);
            },
        };
        let tmp = staging_path(path);
        let db = EncryptedAtomicDatabase {
            path: own_path(path),
            tmp,
            data: T::fresh(),
            key,
            salt,
        };
        proof {
            lemma_staging_distinct(path@);
        }
        let plan = db.commit();
        Ok((db, plan))
    }

    /// Adopt an encrypted blob: verify that the password opens it, then
    /// persist it at a path of its own.
    ///
    /// The blob travels as a string whose bytes are the envelope; its salt
    /// becomes the database's salt. An occupied target path and a leftover
    /// staging file both abort; a malformed blob is `CorruptData`, a
    /// password that does not authenticate it is `AuthenticationFailure` —
    /// exactly as for a load of the same bytes.
    pub fn create_from_str(
        data: &str,
        path: &str,
        staging_exists: bool,
        target_exists: bool,
        password: &str,
    ) -> (r: Result<(Self, PendingWrite), DbError>)
        ensures
            staging_exists || target_exists ==> r == Err::<(Self, PendingWrite), DbError>(
                DbError::AlreadyExists,
            ),
            !staging_exists && !target_exists && data.spec_bytes().len() < SALT_LEN + NONCE_LEN
                + TAG_LEN ==> r == Err::<(Self, PendingWrite), DbError>(DbError::CorruptData),
            !staging_exists && !target_exists && data.spec_bytes().len() >= SALT_LEN + NONCE_LEN
                + TAG_LEN ==> {
                let salt = data.spec_bytes().subrange(0, SALT_LEN as int);
                let tag = data.spec_bytes().subrange(
                    (SALT_LEN + NONCE_LEN) as int,
                    (SALT_LEN + NONCE_LEN + TAG_LEN) as int,
                );
                let ct = data.spec_bytes().skip((SALT_LEN + NONCE_LEN + TAG_LEN) as int);
                let key = argon2id_key(password.spec_bytes(), salt);
                &&& (password.spec_bytes().len() > 0xFFFF_FFFF <==> r == Err::<(
                    Self,
                    PendingWrite,
                ), DbError>(DbError::KeyDerivationFailure))
                &&& (password.spec_bytes().len() <= 0xFFFF_FFFF ==> ((tag != hmac_sha256(
                    key,
                    ct,
                )) <==> r == Err::<(Self, PendingWrite), DbError>(
                    DbError::AuthenticationFailure,
                )))
                &&& (r matches Ok((db, plan)) ==> {
                    &&& db.wf()
                    &&& db.target() == path@
                    &&& db.salt_spec() == salt
                    &&& db.key_spec() == key
                    &&& plan.target_path@ == path@
                    &&& plan.staging_path@ == staging_of(path@)
                    &&& plan.staging_path@ != plan.target_path@
                    &&& sealed_snapshot(plan.bytes@, db.key_spec(), db.salt_spec())
                })
            },
            r == Err::<(Self, PendingWrite), DbError>(DbError::AlreadyExists) ==> staging_exists
                || target_exists,
    {
        if staging_exists || target_exists {
            return Err(DbError::AlreadyExists);
        }
        let blob = data.as_bytes();
        let e = match EncryptedData::decode(blob) {
            Some(e) => e,
            None => {
                return Err(DbError::CorruptData);
            },
        };
        let key = match derive_key_raw(password.as_bytes(), e.salt.as_slice()) {
            Some(k) => k,
            None => {
                return Err(DbError::KeyDerivationFailure);
            },
        };
        let parsed = match T::decrypt(&e, key.as_slice()) {
            Ok(x) => x,
            Err(err) => {
                return Err(err);
            },
        };
        let tmp = staging_path(path);
        let salt = copy_bytes(e.salt.as_slice());
        let db = EncryptedAtomicDatabase {
            path: own_path(path),
            tmp,
            data: parsed,
            key,
            salt,
        };
        proof {
            lemma_staging_distinct(path@);
        }
        let plan = db.commit();
        Ok((db, plan))
    }

    /// Borrow the aggregate for reading.
    pub fn read(&self) -> (r: &T)
        ensures
            *r == self.aggregate(),
    {
        &self.data
    }

    /// Borrow the aggregate for writing.
    ///
    /// The caller that releases its write access must perform the
    /// [`PendingWrite`] of a following [`Self::commit`]: the write guard's
    /// release is the transaction boundary.
    pub fn write(&mut self) -> (r: &mut T) {
        &mut self.data
    }

    /// The durable write that persists the current aggregate, sealed under
    /// the held key with a fresh nonce.
    pub fn commit(&self) -> (plan: PendingWrite)
        requires
            self.wf(),
        ensures
            plan.target_path@ == self.target(),
            plan.staging_path@ == staging_of(self.target()),
            plan.staging_path@ != plan.target_path@,
            sealed_snapshot(plan.bytes@, self.key_spec(), self.salt_spec()),
    {
        let bytes = self.data.save_encrypted(self.key.as_slice(), self.salt.as_slice());
        proof {
            lemma_staging_distinct(self.path@);
        }
        PendingWrite {
            staging_path: self.tmp.clone(),
            target_path: self.path.clone(),
            bytes,
        }
    }

    /// Prepare a password rotation: a new salt, a new key derived from the
    /// new password, and the current aggregate sealed under them.
    ///
    /// Nothing in the store changes yet. The caller performs the returned
    /// [`PendingWrite`]; only after it succeeds on disk is the [`Rekey`]
    /// installed with [`Self::apply_rekey`] — a failed write leaves the
    /// store and its snapshot under the old password.
    pub fn change_password(&self, new_password: &str) -> (r: Result<(PendingWrite, Rekey), DbError>)
        requires
            self.wf(),
        ensures
            match r {
                Ok((plan, rk)) => {
                    &&& rk.wf()
                    &&& rk.key_spec() == argon2id_key(new_password.spec_bytes(), rk.salt_spec())
                    &&& plan.target_path@ == self.target()
                    &&& plan.staging_path@ == staging_of(self.target())
                    &&& plan.staging_path@ != plan.target_path@
                    &&& sealed_snapshot(plan.bytes@, rk.key_spec(), rk.salt_spec())
                },
                Err(e) => e == DbError::KeyDerivationFailure && new_password.spec_bytes().len()
                    > 0xFFFF_FFFF,
            },
    {
        let new_salt = random_bytes(SALT_LEN);
        let new_key = match derive_key_raw(new_password.as_bytes(), new_salt.as_slice()) {
            Some(k) => k,
            None => {
                return Err(DbError::KeyDerivationFailure);
            },
        };
        let bytes = self.data.save_encrypted(new_key.as_slice(), new_salt.as_slice());
        proof {
            lemma_staging_distinct(self.path@);
        }
        let plan = PendingWrite {
            staging_path: self.tmp.clone(),
            target_path: self.path.clone(),
            bytes,
        };
        Ok((plan, Rekey { key: new_key, salt: new_salt }))
    }

    /// Wipe the held key material in place.
    ///
    /// For the moment the handle is torn down: after its final flush the
    /// embedding overwrites the key and salt buffers, so the runtime keeps
    /// no readable copy. The store must not seal anything afterwards.
    pub fn wipe_keys(&mut self)
        requires
            old(self).wf(),
        ensures
            final(self).wf(),
            forall|i: int|
                0 <= i < final(self).key_spec().len() ==> final(self).key_spec()[i] == 0,
            forall|i: int|
                0 <= i < final(self).salt_spec().len() ==> final(self).salt_spec()[i] == 0,
            final(self).target() == old(self).target(),
            final(self).aggregate() == old(self).aggregate(),
    {
        wipe(&mut self.key);
        wipe(&mut self.salt);
    }

    /// Install rotated key material, wiping the buffers of the old.
    pub fn apply_rekey(&mut self, rk: Rekey)
        requires
            old(self).wf(),
            rk.wf(),
        ensures
            final(self).wf(),
            final(self).key_spec() == rk.key_spec(),
            final(self).salt_spec() == rk.salt_spec(),
            final(self).target() == old(self).target(),
            final(self).aggregate() == old(self).aggregate(),
    {
        wipe(&mut self.key);
        wipe(&mut self.salt);
        let Rekey { key, salt } = rk;
        self.key = key;
        self.salt = salt;
    }
}

/// What every sealed snapshot looks like: an envelope under `key` and
/// `salt`, with some fresh nonce, whose ciphertext hides the serialized
/// aggregate and whose tag is the HMAC of that ciphertext.
pub open spec fn sealed_snapshot(bytes: Seq<u8>, key: Seq<u8>, salt: Seq<u8>) -> bool {
    exists|nonce: Seq<u8>, ct: Seq<u8>|
        {
            &&& bytes == #[trigger] envelope_of(salt, nonce, hmac_sha256(key, ct), ct)
            &&& nonce.len() == NONCE_LEN
            &&& hmac_sha256(key, ct).len() == TAG_LEN
            &&& exists|dd: DocModel|
                ct == ctr_xor(key, nonce, vstd::utf8::encode_utf8(#[trigger] json_of(dd)))
        }
}

/// A sealed snapshot opens under its own key: it is long enough, it carries
/// its salt in the clear, its tag authenticates under the key it was sealed
/// with, and undoing the keystream yields text that parses back to exactly
/// the document that was sealed.
///
/// Together with the contracts of `load` and `decrypt` this is what makes a
/// rotation or a save reopenable: a load of the snapshot under the same
/// password passes authentication and hands the aggregate's `from_doc`
/// exactly the sealed document, while a load under a password whose derived
/// key gives the ciphertext a different tag is rejected. Only an aggregate
/// whose `from_doc` refuses its own `to_doc` output can still fail, and
/// then as `CorruptData`, never silently.
pub proof fn lemma_sealed_opens(bytes: Seq<u8>, key: Seq<u8>, salt: Seq<u8>)
    requires
        sealed_snapshot(bytes, key, salt),
        salt.len() == SALT_LEN,
    ensures
        bytes.len() >= SALT_LEN + NONCE_LEN + TAG_LEN,
        bytes.subrange(0, SALT_LEN as int) == salt,
        ({
            let nonce = bytes.subrange(SALT_LEN as int, (SALT_LEN + NONCE_LEN) as int);
            let tag = bytes.subrange(
                (SALT_LEN + NONCE_LEN) as int,
                (SALT_LEN + NONCE_LEN + TAG_LEN) as int,
            );
            let ct = bytes.skip((SALT_LEN + NONCE_LEN + TAG_LEN) as int);
            let plain = ctr_xor(key, nonce, ct);
            &&& tag == hmac_sha256(key, ct)
            &&& vstd::utf8::valid_utf8(plain)
            &&& exists|dd: DocModel| json_parse(vstd::utf8::decode_utf8(plain)) == Some(dd)
        }),
{
    broadcast use vstd::utf8::encode_utf8_valid_utf8;
    broadcast use vstd::utf8::encode_utf8_decode_utf8;

    let (nonce0, ct0) = choose|nonce: Seq<u8>, ct: Seq<u8>|
        {
            &&& bytes == #[trigger] envelope_of(salt, nonce, hmac_sha256(key, ct), ct)
            &&& nonce.len() == NONCE_LEN
            &&& hmac_sha256(key, ct).len() == TAG_LEN
            &&& exists|dd: DocModel|
                ct == ctr_xor(key, nonce, vstd::utf8::encode_utf8(#[trigger] json_of(dd)))
        };
    let tag0 = hmac_sha256(key, ct0);
    assert(bytes.subrange(0, SALT_LEN as int) =~= salt);
    assert(bytes.subrange(SALT_LEN as int, (SALT_LEN + NONCE_LEN) as int) =~= nonce0);
    assert(bytes.subrange(
        (SALT_LEN + NONCE_LEN) as int,
        (SALT_LEN + NONCE_LEN + TAG_LEN) as int,
    ) =~= tag0);
    assert(bytes.skip((SALT_LEN + NONCE_LEN + TAG_LEN) as int) =~= ct0);
    let dd = choose|dd: DocModel|
        ct0 == ctr_xor(key, nonce0, vstd::utf8::encode_utf8(#[trigger] json_of(dd)));
    let plain0 = vstd::utf8::encode_utf8(json_of(dd));
    lemma_ctr_involution(key, nonce0, plain0);
    assert(ctr_xor(key, nonce0, ct0) == plain0);
    crate::json::lemma_json_round_trip(dd);
    assert(vstd::utf8::decode_utf8(plain0) == json_of(dd));
    assert(json_parse(vstd::utf8::decode_utf8(ctr_xor(key, nonce0, ct0))) == Some(dd));
}

/// An owned copy of a path.
fn own_path(path: &str) -> (r: String)
    ensures
        r@ == path@,
{
    let cs = chars_vec(path);
    string_from_chars(&cs)
}

} // verus!
