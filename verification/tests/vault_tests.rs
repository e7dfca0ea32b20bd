use monotp::crypto::{
    decrypt, derive_key, encrypt, random_salt, seal_with_nonce, CryptoError, KdfParams, MasterKey,
    KEY_LEN, NONCE_LEN, SALT_LEN, TAG_LEN,
};
use monotp::session::{
    check_new_password, initial_screen, new_master_key, seal_vault, unlock, PasswordError, Screen,
    SetupError, UnlockError,
};
use monotp::storage::{salt_from_config, Config, Entry, StorageError, Vault};
use monotp::theme::ThemeKind;
use monotp::totp::Algorithm;

fn cheap() -> KdfParams {
    KdfParams { m_cost: 8, t_cost: 1, p_cost: 1 }
}

fn key(password: &str, salt: &[u8]) -> MasterKey {
    derive_key(password, salt, cheap()).expect("valid parameters")
}

#[test]
fn kdf_defaults() {
    let p = KdfParams::default();
    assert_eq!((p.m_cost, p.t_cost, p.p_cost), (65536, 3, 1));
}

#[test]
fn derive_key_is_deterministic_and_salted() {
    let a = key("correct horse", b"0123456789abcdef");
    let b = key("correct horse", b"0123456789abcdef");
    let c = key("correct horse", b"fedcba9876543210");
    let d = key("correct horsf", b"0123456789abcdef");
    assert_eq!(a.as_bytes(), b.as_bytes());
    assert_ne!(a.as_bytes(), c.as_bytes());
    assert_ne!(a.as_bytes(), d.as_bytes());
    assert_eq!(a.as_bytes().len(), KEY_LEN);
}

#[test]
fn derive_key_output_is_stable() {
    // Argon2id v0x13, m=8 KiB, t=1, p=1, 32-byte output.
    let k = key("password", b"somesalt");
    let hex: String = k.as_bytes().iter().map(|b| format!("{:02x}", b)).collect();
    assert_eq!(hex.len(), 64);
    let again = key("password", b"somesalt");
    assert_eq!(k.as_bytes(), again.as_bytes());
}

#[test]
fn derive_key_rejects_bad_params() {
    let bad = [
        KdfParams { m_cost: 7, t_cost: 1, p_cost: 1 },
        KdfParams { m_cost: 8, t_cost: 0, p_cost: 1 },
        KdfParams { m_cost: 8, t_cost: 1, p_cost: 0 },
        KdfParams { m_cost: 15, t_cost: 1, p_cost: 2 },
        KdfParams { m_cost: 0x0800_0000, t_cost: 1, p_cost: 0x0100_0000 },
    ];
    for p in bad {
        assert!(matches!(derive_key("pw", b"0123456789abcdef", p), Err(CryptoError::KdfParams(_))));
    }
}

#[test]
fn derive_key_rejects_short_salt() {
    assert!(matches!(derive_key("pw", b"1234567", cheap()), Err(CryptoError::KdfHash(_))));
    assert!(derive_key("pw", b"12345678", cheap()).is_ok());
}

#[test]
fn random_salts_differ() {
    let a = random_salt();
    let b = random_salt();
    assert_eq!(a.len(), SALT_LEN);
    assert_ne!(a, b);
}

#[test]
fn encrypt_then_decrypt_gives_plaintext_back() {
    let k = key("master password", b"0123456789abcdef");
    for msg in [&b""[..], b"x", b"{\"entries\":[]}", &[7u8; 1000][..]] {
        let sealed = encrypt(&k, msg).expect("encrypts");
        assert_eq!(sealed.len(), NONCE_LEN + msg.len() + TAG_LEN);
        assert_eq!(decrypt(&k, &sealed).expect("decrypts"), msg);
    }
}

#[test]
fn encrypt_uses_a_fresh_nonce() {
    let k = key("master password", b"0123456789abcdef");
    let a = encrypt(&k, b"same").unwrap();
    let b = encrypt(&k, b"same").unwrap();
    assert_ne!(a[..NONCE_LEN], b[..NONCE_LEN]);
    assert_ne!(a, b);
}

#[test]
fn seal_with_nonce_lays_out_nonce_then_ciphertext() {
    let k = key("master password", b"0123456789abcdef");
    let nonce = [9u8; 24];
    let a = seal_with_nonce(&k, &nonce, b"abc").unwrap();
    let b = seal_with_nonce(&k, &nonce, b"abc").unwrap();
    assert_eq!(a, b);
    assert_eq!(&a[..NONCE_LEN], &nonce[..]);
    assert_eq!(a.len(), NONCE_LEN + 3 + TAG_LEN);
    assert_ne!(&a[NONCE_LEN..NONCE_LEN + 3], b"abc");
    assert_eq!(decrypt(&k, &a).unwrap(), b"abc");
}

#[test]
fn decrypt_errors() {
    let k = key("master password", b"0123456789abcdef");
    let other = key("other password", b"0123456789abcdef");
    assert!(matches!(decrypt(&k, &[0u8; 23]), Err(CryptoError::CiphertextTooShort)));
    assert!(matches!(decrypt(&k, &[0u8; 24]), Err(CryptoError::Decryption)));
    let mut sealed = encrypt(&k, b"secret").unwrap();
    assert!(matches!(decrypt(&other, &sealed), Err(CryptoError::Decryption)));
    let last = sealed.len() - 1;
    sealed[last] ^= 1;
    assert!(matches!(decrypt(&k, &sealed), Err(CryptoError::Decryption)));
}

#[test]
fn config_defaults() {
    let c = Config::default();
    assert_eq!(c.theme, ThemeKind::System);
    assert_eq!(c.salt_b64, "");
    assert!(!c.autostart);
    assert!(!c.initialized);
    assert_eq!((c.kdf.m_cost, c.kdf.t_cost, c.kdf.p_cost), (65536, 3, 1));
}

#[test]
fn salt_round_trips_through_config() {
    let mut c = Config::default();
    let salt = [1u8, 2, 3, 250, 251, 252, 0, 9, 8, 7, 6, 5, 4, 3, 2, 1];
    c.initialize(&salt);
    assert!(c.initialized);
    assert_eq!(c.salt_b64, "AQID+vv8AAkIBwYFBAMCAQ==");
    assert_eq!(salt_from_config(&c).unwrap(), salt.to_vec());
    c.set_salt(b"abc");
    assert_eq!(c.salt_b64, "YWJj");
    assert_eq!(salt_from_config(&c).unwrap(), b"abc".to_vec());
    c.forget_vault();
    assert!(!c.initialized);
    assert_eq!(c.salt_b64, "");
    assert_eq!(salt_from_config(&c).unwrap(), Vec::<u8>::new());
}

#[test]
fn invalid_salt_is_reported() {
    let mut c = Config::default();
    c.salt_b64 = "not base64!".to_string();
    assert_eq!(salt_from_config(&c), Err(StorageError::InvalidSalt));
}

fn entry(name: &str) -> Entry {
    Entry {
        issuer: name.to_string(),
        account: format!("{name}@example.com"),
        secret: "JBSWY3DPEHPK3PXP".to_string(),
        digits: 6,
        period: 30,
        algorithm: Algorithm::Sha1,
    }
}

#[test]
fn vault_add_replace_remove() {
    let mut v = Vault::default();
    assert!(v.entries.is_empty());
    v.add(entry("a"));
    v.add(entry("b"));
    v.add(entry("c"));
    assert_eq!(v.entries.len(), 3);
    v.replace(1, entry("B"));
    assert_eq!(v.entries[1].issuer, "B");
    v.replace(7, entry("ignored"));
    assert_eq!(v.entries.len(), 3);
    v.remove(0);
    let names: Vec<&str> = v.entries.iter().map(|e| e.issuer.as_str()).collect();
    assert_eq!(names, ["B", "c"]);
}

#[test]
fn initial_screens() {
    assert_eq!(initial_screen(true, true), Screen::Unlock);
    assert_eq!(initial_screen(true, false), Screen::Setup);
    assert_eq!(initial_screen(false, true), Screen::Setup);
    assert_eq!(initial_screen(false, false), Screen::Setup);
}

#[test]
fn new_password_rules() {
    assert_eq!(check_new_password("short", "short"), Err(PasswordError::TooShort));
    assert_eq!(check_new_password("1234567", "1234567"), Err(PasswordError::TooShort));
    assert_eq!(check_new_password("12345678", "12345679"), Err(PasswordError::Mismatch));
    assert_eq!(check_new_password("12345678", "12345678"), Ok(()));
    // Characters count, not bytes: four characters are eight bytes here.
    assert_eq!(check_new_password("ééèè", "ééèè"), Err(PasswordError::TooShort));
    assert_eq!(check_new_password("ééèèééèè", "ééèèééèè"), Ok(()));
    assert_eq!(check_new_password("ééèèééè", "ééèèééè"), Err(PasswordError::TooShort));
}

#[test]
fn new_master_key_checks_then_derives() {
    assert!(matches!(
        new_master_key("short", "short", cheap()),
        Err(SetupError::Password(PasswordError::TooShort))
    ));
    assert!(matches!(
        new_master_key("long enough", "long enougH", cheap()),
        Err(SetupError::Password(PasswordError::Mismatch))
    ));
    let (k, salt) = new_master_key("long enough", "long enough", cheap()).unwrap();
    assert_eq!(k.as_bytes(), key("long enough", &salt).as_bytes());
    assert!(matches!(
        new_master_key("long enough", "long enough", KdfParams { m_cost: 8, t_cost: 0, p_cost: 1 }),
        Err(SetupError::Key(CryptoError::KdfParams(_)))
    ));
}

#[test]
fn unlock_opens_what_seal_vault_sealed() {
    let mut cfg = Config::default();
    cfg.kdf = cheap();
    let (k, salt) = new_master_key("long enough", "long enough", cfg.kdf).unwrap();
    cfg.initialize(&salt);
    let mut plain = b"{\"entries\":[]}".to_vec();
    let sealed = seal_vault(&k, &mut plain).unwrap();
    assert!(plain.is_empty());
    let (k2, opened) = unlock(&cfg, "long enough", &sealed).unwrap();
    assert_eq!(opened, b"{\"entries\":[]}");
    assert_eq!(k2.as_bytes(), k.as_bytes());
    assert!(matches!(unlock(&cfg, "wrong password", &sealed), Err(UnlockError::WrongPassword)));
    assert!(matches!(unlock(&cfg, "long enough", &[]), Err(UnlockError::WrongPassword)));
    cfg.salt_b64 = "%%%".to_string();
    assert!(matches!(
        unlock(&cfg, "long enough", &sealed),
        Err(UnlockError::Salt(StorageError::InvalidSalt))
    ));
}
