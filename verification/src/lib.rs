//! monotp: a minimal, fully encrypted TOTP authenticator. This crate holds
//! its verified core: RFC 4226 / 6238 codes, `otpauth://` links, the
//! Argon2id / XChaCha20-Poly1305 vault sealing, the stored settings and the
//! decisions of the account screens.

pub mod autostart;
pub mod crypto;
pub mod forms;
pub mod links;
pub mod session;
pub mod storage;
pub mod text;
pub mod theme;
pub mod totp;
