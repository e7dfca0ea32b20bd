//! The vault's cryptography: an Argon2id master key from the master
//! password, and XChaCha20-Poly1305 sealing laid out as nonce || ciphertext.

use chacha20poly1305::aead::{Aead, KeyInit};
use chacha20poly1305::{Key, XChaCha20Poly1305, XNonce};
use rand::RngCore;
use vstd::prelude::*;
use zeroize::Zeroize;
use crate::text::opt_bytes;
use vstd::utf8::encode_utf8;

verus! {

/// Length in bytes of the salt stretched into the master key.
pub const SALT_LEN: usize = 16;

/// Length in bytes of the nonce stored in front of each ciphertext.
pub const NONCE_LEN: usize = 24;

/// Length in bytes of the derived master key.
pub const KEY_LEN: usize = 32;

/// Length in bytes of the Poly1305 tag at the end of each ciphertext.
pub const TAG_LEN: usize = 16;

/// The bytes of a master key.
pub type KeyBytes = [u8; 32];

/// The bytes of a nonce.
pub type NonceBytes = [u8; 24];

/// Argon2id cost parameters.
#[derive(Clone, Copy)]
pub struct KdfParams {
    /// Memory, in KiB.
    pub m_cost: u32,
    /// Iterations.
    pub t_cost: u32,
    /// Parallelism.
    pub p_cost: u32,
}

impl Default for KdfParams {
    /// Strong, interactive-friendly Argon2id defaults (~64 MiB).
    fn default() -> (r: Self)
        ensures
            r.m_cost == 65536,
            r.t_cost == 3,
            r.p_cost == 1,
    {
        KdfParams { m_cost: 65536, t_cost: 3, p_cost: 1 }
    }
}

#[verifier::external_type_specification]
#[verifier::external_body]
pub struct ExArgon2Error(argon2::Error);

/// Why a cryptographic step failed.
#[derive(Debug)]
pub enum CryptoError {
    /// Argon2 refused the cost parameters.
    KdfParams(argon2::Error),
    /// Argon2 refused the password or the salt.
    KdfHash(argon2::Error),
    /// The plaintext is too long to be sealed.
    Encryption,
    /// The data is shorter than a nonce.
    CiphertextTooShort,
    /// Wrong key, or the data was altered.
    Decryption,
}

/// Overwrites every byte of a key buffer with zero (`Zeroize` for arrays).
#[verifier::external_body]
fn wipe_key(bytes: &mut KeyBytes)
    ensures
        final(bytes)@ == Seq::new(32, |i: int| 0u8),
    opens_invariants none
    no_unwind
{
    bytes.zeroize();
}

/// Overwrites the bytes of a buffer with zeros and empties it (`Zeroize`
/// for `Vec<u8>`, which zeroes the whole capacity and then clears).
#[verifier::external_body]
pub(crate) fn wipe_bytes(bytes: &mut Vec<u8>)
    ensures
        final(bytes)@ == Seq::<u8>::empty(),
{
    bytes.zeroize();
}

/// A derived symmetric key that is wiped when dropped.
pub struct MasterKey {
    bytes: [u8; 32],
}

impl View for MasterKey {
    type V = Seq<u8>;

    closed spec fn view(&self) -> Seq<u8> {
        self.bytes@
    }
}

impl MasterKey {
    /// The key's bytes.
    pub fn as_bytes(&self) -> (r: &[u8; 32])
        ensures
            r@ == self@,
    {
        &self.bytes
    }

    /// The key is always 32 bytes long.
    pub proof fn lemma_len(&self)
        ensures
            self@.len() == KEY_LEN,
    {
    }
}

impl Drop for MasterKey {
    fn drop(&mut self)
        opens_invariants none
        no_unwind
    {
        wipe_key(&mut self.bytes);
    }
}

/// Fills `buf` from the thread-local random generator
/// (`rand::thread_rng().fill_bytes`). Trusted: the length stays the same;
/// the bytes are random, so nothing is said of them. It panics only where
/// the operating system's random source fails, when the generator is first
/// seeded or when it reseeds.
#[verifier::external_body]
fn fill_random(buf: &mut [u8])
    ensures
        final(buf)@.len() == old(buf)@.len(),
{
    rand::thread_rng().fill_bytes(buf);
}

/// A fresh random salt.
pub fn random_salt() -> (s: [u8; 16])
    ensures
        s@.len() == SALT_LEN,
{
    let mut s = [0u8; 16];
    fill_random(&mut s);
    s
}

/// A fresh random nonce.
fn random_nonce() -> (n: [u8; 24])
    ensures
        n@.len() == NONCE_LEN,
{
    let mut n = [0u8; 24];
    fill_random(&mut n);
    n
}

/// Whether `r` is the error for refused Argon2 costs.
pub open spec fn is_kdf_params_error<T>(r: Result<T, CryptoError>) -> bool {
    r matches Err(CryptoError::KdfParams(_))
}

/// Whether `r` is the error for a refused password or salt.
pub open spec fn is_kdf_hash_error<T>(r: Result<T, CryptoError>) -> bool {
    r matches Err(CryptoError::KdfHash(_))
}

/// Whether `argon2::Params::new` accepts the costs (with a 32-byte output):
/// at least 8 KiB and 8 KiB per lane, at least one pass, and between one
/// and 2^24 - 1 lanes.
pub open spec fn argon2_params_ok(m_cost: u32, t_cost: u32, p_cost: u32) -> bool {
    &&& m_cost >= 8
    &&& m_cost >= 8 * p_cost
    &&& t_cost >= 1
    &&& 1 <= p_cost <= 0xff_ffff
}

/// Whether `Argon2::hash_password_into` accepts the lengths: a password of
/// at most 2^32 - 1 bytes, and a salt of 8 to 2^32 - 1 bytes.
pub open spec fn argon2_inputs_ok(password: Seq<u8>, salt: Seq<u8>) -> bool {
    &&& password.len() <= 0xffff_ffff
    &&& 8 <= salt.len() <= 0xffff_ffff
}

/// The 32-byte Argon2id (version 0x13) hash of `password` with `salt` and
/// the given costs.
pub uninterp spec fn argon2id_key(
    password: Seq<u8>,
    salt: Seq<u8>,
    m_cost: u32,
    t_cost: u32,
    p_cost: u32,
) -> Seq<u8>;

/// Runs Argon2id with the `argon2` crate: `Params::new` with a 32-byte
/// output, `Argon2::new` (Argon2id, version 0x13) and `hash_password_into`.
/// Trusted: the parameter error comes exactly when `argon2_params_ok`
/// fails, the hashing error exactly when the lengths break
/// `argon2_inputs_ok`, and otherwise the key is `argon2id_key` of the
/// inputs. `Params::new` computes `8 * p_cost` in `u32` after its first
/// check, hence the `requires`. Running out of memory for `m_cost` KiB is
/// not excluded.
#[verifier::external_body]
fn argon2id_hash(password: &[u8], salt: &[u8], m_cost: u32, t_cost: u32, p_cost: u32) -> (r: Result<KeyBytes, CryptoError>)
    requires
        m_cost < 8 || p_cost <= 0x1fff_ffff,
    ensures
        is_kdf_params_error(r) <==> !argon2_params_ok(m_cost, t_cost, p_cost),
        is_kdf_hash_error(r) <==> (argon2_params_ok(m_cost, t_cost, p_cost) && !argon2_inputs_ok(password@, salt@)),
        r is Ok <==> (argon2_params_ok(m_cost, t_cost, p_cost) && argon2_inputs_ok(password@, salt@)),
        r matches Ok(k) ==> k@ == argon2id_key(password@, salt@, m_cost, t_cost, p_cost),
{
    let params = argon2::Params::new(m_cost, t_cost, p_cost, Some(KEY_LEN)).map_err(
        CryptoError::KdfParams,
    )?;
    let mut key = [0u8; KEY_LEN];
    argon2::Argon2::new(argon2::Algorithm::Argon2id, argon2::Version::V0x13, params)
        .hash_password_into(password, salt, &mut key).map_err(CryptoError::KdfHash)?;
    Ok(key)
}

/// Derives a 256-bit key from the master password using Argon2id.
pub fn derive_key(password: &str, salt: &[u8], params: KdfParams) -> (r: Result<MasterKey, CryptoError>)
    requires
        params.m_cost < 8 || params.p_cost <= 0x1fff_ffff,
    ensures
        r matches Err(CryptoError::KdfParams(_)) <==> !argon2_params_ok(
            params.m_cost,
            params.t_cost,
            params.p_cost,
        ),
        r matches Err(CryptoError::KdfHash(_)) <==> argon2_params_ok(
            params.m_cost,
            params.t_cost,
            params.p_cost,
        ) && !argon2_inputs_ok(encode_utf8(password@), salt@),
        r is Ok <==> argon2_params_ok(params.m_cost, params.t_cost, params.p_cost)
            && argon2_inputs_ok(encode_utf8(password@), salt@),
        r matches Ok(k) ==> k@ == argon2id_key(
            encode_utf8(password@),
            salt@,
            params.m_cost,
            params.t_cost,
            params.p_cost,
        ),
{
    match argon2id_hash(password.as_bytes(), salt, params.m_cost, params.t_cost, params.p_cost) {
        Ok(bytes) => Ok(MasterKey { bytes }),
        Err(e) => Err(e),
    }
}

/// Whether the cipher accepts a plaintext of `len` bytes: fewer than
/// 2^32 - 1 ChaCha20 blocks of 64 bytes.
pub open spec fn seal_accepts(len: nat) -> bool {
    len / 64 < 0xffff_ffff
}

/// XChaCha20-Poly1305 encryption of `plaintext` under `key` and `nonce`,
/// with no associated data: the ciphertext followed by the 16-byte tag.
pub uninterp spec fn xchacha20poly1305_seal(
    key: Seq<u8>,
    nonce: Seq<u8>,
    plaintext: Seq<u8>,
) -> Seq<u8>;

/// XChaCha20-Poly1305 decryption with no associated data: the plaintext,
/// or `None` when the tag does not authenticate the ciphertext.
pub uninterp spec fn xchacha20poly1305_open(
    key: Seq<u8>,
    nonce: Seq<u8>,
    ciphertext: Seq<u8>,
) -> Option<Seq<u8>>;

/// Encrypts with `XChaCha20Poly1305::encrypt` from the `chacha20poly1305`
/// crate. Trusted: it fails exactly when the plaintext is too long
/// (`seal_accepts`, the crate's block-count check), and otherwise returns
/// `xchacha20poly1305_seal` of the inputs, one tag longer than the
/// plaintext.
#[verifier::external_body]
fn aead_seal(key: &KeyBytes, nonce: &NonceBytes, plaintext: &[u8]) -> (r: Option<Vec<u8>>)
    ensures
        r is Some <==> seal_accepts(plaintext@.len()),
        r matches Some(c) ==> c@ == xchacha20poly1305_seal(key@, nonce@, plaintext@),
        r matches Some(c) ==> c@.len() == plaintext@.len() + TAG_LEN,
{
    let cipher = XChaCha20Poly1305::new(Key::from_slice(key));
    cipher.encrypt(XNonce::from_slice(nonce), plaintext).ok()
}

/// Decrypts with `XChaCha20Poly1305::decrypt` from the `chacha20poly1305`
/// crate. Trusted: the result is `xchacha20poly1305_open` of the inputs; an
/// input shorter than a tag is refused; and what `aead_seal` produced from a
/// plaintext under the same key and nonce opens to that plaintext.
#[verifier::external_body]
fn aead_open(key: &KeyBytes, nonce: &[u8], ciphertext: &[u8]) -> (r: Option<Vec<u8>>)
    requires
        nonce@.len() == NONCE_LEN,
    ensures
        opt_bytes(r) == xchacha20poly1305_open(key@, nonce@, ciphertext@),
        ciphertext@.len() < TAG_LEN ==> r is None,
        forall|p: Seq<u8>| seal_accepts(p.len()) && #[trigger] xchacha20poly1305_seal(key@, nonce@, p) == ciphertext@ ==> opt_bytes(r) == Some(p),
{
    let cipher = XChaCha20Poly1305::new(Key::from_slice(key));
    cipher.decrypt(XNonce::from_slice(nonce), ciphertext).ok()
}

/// Seals `plaintext` under `key` with the given nonce and lays the result
/// out as nonce || ciphertext.
pub fn seal_with_nonce(
    key: &MasterKey,
    nonce: &[u8; 24],
    plaintext: &[u8],
) -> (r: Result<Vec<u8>, CryptoError>)
    ensures
        r is Ok <==> seal_accepts(plaintext@.len()),
        r matches Ok(out) ==> out@ == nonce@ + xchacha20poly1305_seal(key@, nonce@, plaintext@),
        r matches Ok(out) ==> out@.len() == NONCE_LEN + plaintext@.len() + TAG_LEN,
        r matches Err(e) ==> e is Encryption,
{
    match aead_seal(key.as_bytes(), nonce, plaintext) {
        Some(ciphertext) => {
            let mut out: Vec<u8> = Vec::new();
            for i in 0..24
                invariant
                    out@ == nonce@.take(i as int),
                    nonce@.len() == 24,
            {
                out.push(nonce[i]);
                assert(nonce@.take(i + 1) =~= nonce@.take(i as int).push(nonce@[i as int]));
            }
            let n = ciphertext.len();
            for i in 0..n
                invariant
                    n == ciphertext@.len(),
                    out@ == nonce@ + ciphertext@.take(i as int),
                    nonce@.len() == 24,
            {
                out.push(ciphertext[i]);
                assert(ciphertext@.take(i + 1) =~= ciphertext@.take(i as int).push(
                    ciphertext@[i as int],
                ));
                assert(nonce@ + ciphertext@.take(i + 1) =~= (nonce@ + ciphertext@.take(
                    i as int,
                )).push(ciphertext@[i as int]));
            }
            assert(ciphertext@.take(n as int) =~= ciphertext@);
            assert(nonce@.take(24) =~= nonce@);
            Ok(out)
        },
        None => Err(CryptoError::Encryption),
    }
}

/// Encrypts plaintext under a fresh random nonce, returning
/// nonce || ciphertext.
pub fn encrypt(key: &MasterKey, plaintext: &[u8]) -> (r: Result<Vec<u8>, CryptoError>)
    ensures
        r is Ok <==> seal_accepts(plaintext@.len()),
        r matches Ok(out) ==> out@.len() == NONCE_LEN + plaintext@.len() + TAG_LEN,
        r matches Ok(out) ==> out@.skip(NONCE_LEN as int) == xchacha20poly1305_seal(
            key@,
            out@.take(NONCE_LEN as int),
            plaintext@,
        ),
        r matches Err(e) ==> e is Encryption,
{
    let nonce = random_nonce();
    let r = seal_with_nonce(key, &nonce, plaintext);
    match r {
        Ok(out) => {
            assert(out@.take(24) =~= nonce@);
            assert(out@.skip(24) =~= xchacha20poly1305_seal(key@, nonce@, plaintext@));
            Ok(out)
        },
        Err(e) => Err(e),
    }
}

/// What decrypting nonce || ciphertext gives: `None` for data shorter than
/// a nonce, else the opened ciphertext.
pub open spec fn opened(key: Seq<u8>, data: Seq<u8>) -> Option<Seq<u8>> {
    if data.len() < NONCE_LEN {
        None
    } else {
        xchacha20poly1305_open(key, data.take(NONCE_LEN as int), data.skip(NONCE_LEN as int))
    }
}

/// Decrypts data laid out as nonce || ciphertext.
pub fn decrypt(key: &MasterKey, data: &[u8]) -> (r: Result<Vec<u8>, CryptoError>)
    ensures
        data@.len() < NONCE_LEN ==> r matches Err(CryptoError::CiphertextTooShort),
        data@.len() >= NONCE_LEN ==> (r is Ok <==> opened(key@, data@) is Some),
        r matches Ok(p) ==> opened(key@, data@) == Some(p@),
        data@.len() >= NONCE_LEN && r is Err ==> r matches Err(CryptoError::Decryption),
        forall|nonce: Seq<u8>, p: Seq<u8>|
            nonce.len() == NONCE_LEN && seal_accepts(p.len()) && data@ == nonce
                + #[trigger] xchacha20poly1305_seal(key@, nonce, p) ==> (r matches Ok(v) && v@
                == p),
{
    if data.len() < NONCE_LEN {
        return Err(CryptoError::CiphertextTooShort);
    }
    let nonce = vstd::slice::slice_subrange(data, 0, NONCE_LEN);
    let ciphertext = vstd::slice::slice_subrange(data, NONCE_LEN, data.len());
    assert(nonce@ =~= data@.take(24));
    assert(ciphertext@ =~= data@.skip(24));
    let r = aead_open(key.as_bytes(), nonce, ciphertext);
    proof {
        assert forall|n: Seq<u8>, p: Seq<u8>|
            n.len() == NONCE_LEN && seal_accepts(p.len()) && data@ == n
                + #[trigger] xchacha20poly1305_seal(key@, n, p) implies opt_bytes(r) == Some(p) by {
            assert(data@.take(24) =~= n);
            assert(data@.skip(24) =~= xchacha20poly1305_seal(key@, n, p));
        }
    }
    match r {
        Some(p) => Ok(p),
        None => Err(CryptoError::Decryption),
    }
}

} // verus!
