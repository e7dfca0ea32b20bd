//! The master-password flows: which screen opens first, the rules for a
//! new master password, deriving a fresh key, unlocking a sealed vault and
//! sealing it again.

use crate::crypto::{
    argon2_inputs_ok, argon2_params_ok, argon2id_key, decrypt, derive_key, encrypt, opened,
    random_salt, seal_accepts, wipe_bytes, xchacha20poly1305_seal, CryptoError, KdfParams,
    MasterKey, NONCE_LEN, SALT_LEN, TAG_LEN,
};
use crate::storage::{base64_standard_encode, recorded_salt, salt_from_config, Config, StorageError};
use crate::text::chars_equal;
use crate::text::chars_of;
use vstd::prelude::*;
use vstd::utf8::encode_utf8;

verus! {

/// The screen the app shows.
#[derive(Clone, Copy, PartialEq, Eq, Debug, Structural)]
pub enum Screen {
    /// Create a master password.
    Setup,
    /// Enter the master password.
    Unlock,
    /// The accounts.
    Vault,
}

/// The screen at start-up: unlock when a vault exists and the settings say
/// it was set up, else set up a new one.
pub fn initial_screen(vault_exists: bool, initialized: bool) -> (s: Screen)
    ensures
        s == (if vault_exists && initialized {
            Screen::Unlock
        } else {
            Screen::Setup
        }),
{
    if vault_exists && initialized {
        Screen::Unlock
    } else {
        Screen::Setup
    }
}

/// The fewest characters a master password may have.
pub const MIN_PASSWORD_LEN: usize = 8;

/// Why a new master password is refused.
#[derive(Debug, PartialEq, Eq, Structural)]
pub enum PasswordError {
    /// Fewer than eight characters.
    TooShort,
    /// The confirmation differs.
    Mismatch,
}

/// Whether a new master password is acceptable: at least eight characters,
/// and typed the same twice.
pub open spec fn password_ok(password: Seq<char>, confirm: Seq<char>) -> bool {
    password.len() >= MIN_PASSWORD_LEN && password == confirm
}

/// Checks a new master password and its confirmation.
pub fn check_new_password(password: &str, confirm: &str) -> (r: Result<(), PasswordError>)
    ensures
        password@.len() < MIN_PASSWORD_LEN ==> r == Err::<(), PasswordError>(
            PasswordError::TooShort,
        ),
        password@.len() >= MIN_PASSWORD_LEN && password@ != confirm@ ==> r == Err::<
            (),
            PasswordError,
        >(PasswordError::Mismatch),
        r is Ok <==> password_ok(password@, confirm@),
        r is Ok <==> (password@.len() >= 8 && password@ == confirm@),
{
    let a = chars_of(password);
    if a.len() < MIN_PASSWORD_LEN {
        return Err(PasswordError::TooShort);
    }
    let b = chars_of(confirm);
    if !chars_equal(a.as_slice(), b.as_slice()) {
        return Err(PasswordError::Mismatch);
    }
    Ok(())
}

/// A new master password is accepted exactly when it has at least eight
/// characters and its confirmation is the same text; there is no upper
/// bound on its length, and what the characters are plays no part.
pub proof fn lemma_password_rule(password: Seq<char>, confirm: Seq<char>)
    ensures
        password_ok(password, confirm) <==> (password.len() >= 8 && password == confirm),
        password.len() >= 8 ==> password_ok(password, password),
        password_ok(password, confirm) ==> password_ok(password + password, confirm + confirm),
{
}

/// Why a new master key could not be made.
#[derive(Debug)]
pub enum SetupError {
    Password(PasswordError),
    Key(CryptoError),
}

/// Checks a new master password and derives a key from it with a fresh
/// random salt, returning the key and the salt.
pub fn new_master_key(password: &str, confirm: &str, params: KdfParams) -> (r: Result<
    (MasterKey, [u8; 16]),
    SetupError,
>)
    requires
        params.m_cost < 8 || params.p_cost <= 0x1fff_ffff,
    ensures
        r matches Err(SetupError::Password(_)) <==> !password_ok(password@, confirm@),
        r matches Err(SetupError::Password(_)) <==> !(password@.len() >= 8 && password@
            == confirm@),
        r matches Err(SetupError::Password(e)) ==> (e == PasswordError::TooShort
            <==> password@.len() < MIN_PASSWORD_LEN),
        r matches Err(SetupError::Key(e)) ==> (e is KdfParams <==> !argon2_params_ok(
            params.m_cost,
            params.t_cost,
            params.p_cost,
        )),
        password_ok(password@, confirm@) ==> (r is Ok <==> argon2_params_ok(
            params.m_cost,
            params.t_cost,
            params.p_cost,
        ) && encode_utf8(password@).len() <= 0xffff_ffff),
        r matches Ok((k, salt)) ==> k@ == argon2id_key(
            encode_utf8(password@),
            salt@,
            params.m_cost,
            params.t_cost,
            params.p_cost,
        ),
{
    match check_new_password(password, confirm) {
        Err(e) => Err(SetupError::Password(e)),
        Ok(()) => {
            let salt = random_salt();
            match derive_key(password, &salt, params) {
                Ok(k) => Ok((k, salt)),
                Err(e) => Err(SetupError::Key(e)),
            }
        },
    }
}

/// Why a vault could not be unlocked.
#[derive(Debug)]
pub enum UnlockError {
    /// The salt in the settings is unreadable.
    Salt(StorageError),
    /// Argon2 refused the inputs.
    Key(CryptoError),
    /// The vault does not open with this password.
    WrongPassword,
}

/// The key that `password` and the salt and costs recorded in `cfg` give.
pub open spec fn unlock_key(cfg: Config, password: Seq<char>) -> Seq<u8> {
    argon2id_key(
        encode_utf8(password),
        recorded_salt(cfg)->0,
        cfg.kdf.m_cost,
        cfg.kdf.t_cost,
        cfg.kdf.p_cost,
    )
}

/// Whether `sealed` is the plaintext `p` sealed, under `nonce`, with the key
/// that `password` and `salt` give, while `cfg` records that salt.
pub open spec fn sealed_with(
    cfg: Config,
    password: Seq<char>,
    salt: Seq<u8>,
    nonce: Seq<u8>,
    p: Seq<u8>,
    sealed: Seq<u8>,
) -> bool {
    &&& cfg.salt_b64@ == base64_standard_encode(salt)
    &&& argon2_params_ok(cfg.kdf.m_cost, cfg.kdf.t_cost, cfg.kdf.p_cost)
    &&& argon2_inputs_ok(encode_utf8(password), salt)
    &&& nonce.len() == NONCE_LEN
    &&& seal_accepts(p.len())
    &&& sealed == nonce + xchacha20poly1305_seal(
        argon2id_key(encode_utf8(password), salt, cfg.kdf.m_cost, cfg.kdf.t_cost, cfg.kdf.p_cost),
        nonce,
        p,
    )
}

/// Whether Argon2 accepts the recorded costs, the password and the
/// recorded salt.
pub open spec fn key_derivable(cfg: Config, password: Seq<char>) -> bool {
    argon2_params_ok(cfg.kdf.m_cost, cfg.kdf.t_cost, cfg.kdf.p_cost) && argon2_inputs_ok(
        encode_utf8(password),
        recorded_salt(cfg)->0,
    )
}

/// Derives the key from the master password and the recorded salt, and
/// opens the sealed vault with it; returns the key and the plaintext.
pub fn unlock(cfg: &Config, password: &str, sealed: &[u8]) -> (r: Result<
    (MasterKey, Vec<u8>),
    UnlockError,
>)
    requires
        cfg.kdf.m_cost < 8 || cfg.kdf.p_cost <= 0x1fff_ffff,
    ensures
        r matches Err(UnlockError::Salt(_)) <==> recorded_salt(*cfg) is None,
        r matches Err(UnlockError::Key(_)) <==> (recorded_salt(*cfg) is Some && !key_derivable(
            *cfg,
            password@,
        )),
        r matches Err(UnlockError::WrongPassword) <==> (recorded_salt(*cfg) is Some
            && key_derivable(*cfg, password@) && opened(unlock_key(*cfg, password@), sealed@) is None),
        r matches Ok((k, plain)) ==> (recorded_salt(*cfg) is Some && k@ == unlock_key(
            *cfg,
            password@,
        ) && opened(k@, sealed@) == Some(plain@)),
        forall|salt: Seq<u8>, nonce: Seq<u8>, p: Seq<u8>|
            #![trigger base64_standard_encode(salt), xchacha20poly1305_seal(argon2id_key(encode_utf8(password@), salt, cfg.kdf.m_cost, cfg.kdf.t_cost, cfg.kdf.p_cost), nonce, p)]
            sealed_with(*cfg, password@, salt, nonce, p, sealed@) ==> (r matches Ok((k, plain))
                && plain@ == p),
{
    let salt = match salt_from_config(cfg) {
        Ok(s) => s,
        Err(e) => {
            return Err(UnlockError::Salt(e));
        },
    };
    let key = match derive_key(password, salt.as_slice(), cfg.kdf) {
        Ok(k) => k,
        Err(e) => {
            return Err(UnlockError::Key(e));
        },
    };
    let r = decrypt(&key, sealed);
    proof {
        assert forall|salt2: Seq<u8>, nonce: Seq<u8>, p: Seq<u8>|
            #![trigger base64_standard_encode(salt2), xchacha20poly1305_seal(argon2id_key(encode_utf8(password@), salt2, cfg.kdf.m_cost, cfg.kdf.t_cost, cfg.kdf.p_cost), nonce, p)]
            sealed_with(*cfg, password@, salt2, nonce, p, sealed@) implies (r matches Ok(v)
                && v@ == p) by {
            assert(base64_standard_encode(salt2) == cfg.salt_b64@);
            assert(salt@ == salt2);
            assert(key@ == argon2id_key(
                encode_utf8(password@),
                salt2,
                cfg.kdf.m_cost,
                cfg.kdf.t_cost,
                cfg.kdf.p_cost,
            ));
            assert(sealed@ == nonce + xchacha20poly1305_seal(key@, nonce, p));
        }
    }
    match r {
        Ok(plain) => Ok((key, plain)),
        Err(_) => Err(UnlockError::WrongPassword),
    }
}

/// Seals a serialised vault under the master key and wipes the plaintext.
pub fn seal_vault(key: &MasterKey, plaintext: &mut Vec<u8>) -> (r: Result<Vec<u8>, CryptoError>)
    ensures
        final(plaintext)@ == Seq::<u8>::empty(),
        r is Ok <==> seal_accepts(old(plaintext)@.len()),
        r matches Ok(out) ==> out@.len() == NONCE_LEN + old(plaintext)@.len() + TAG_LEN,
        r matches Ok(out) ==> out@.skip(NONCE_LEN as int) == xchacha20poly1305_seal(
            key@,
            out@.take(NONCE_LEN as int),
            old(plaintext)@,
        ),
        r matches Err(e) ==> e is Encryption,
{
    let r = encrypt(key, plaintext.as_slice());
    wipe_bytes(plaintext);
    r
}

} // verus!
