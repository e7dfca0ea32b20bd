# monotp

A minimal, fully encrypted TOTP authenticator. The library under `src/` is
written in Verus and verified; `app/` is the egui desktop program around it.

## Layout

- `src/totp.rs` — RFC 4226 HOTP and RFC 6238 TOTP (HMAC-SHA1/256/512,
  dynamic truncation, zero-padded codes, the time window), base32 secrets
  and `otpauth://totp/` links (percent-decoding, label and query parsing).
- `src/links.rs` — the round trip of `otpauth://totp/` links: a link
  written from an account's fields reads back as that account.
- `src/crypto.rs` — the Argon2id master key and XChaCha20-Poly1305 sealing
  of the vault as nonce || ciphertext.
- `src/storage.rs` — accounts, the vault, the settings in `config.toml`
  (including the base64 salt) and the file locations.
- `src/session.rs` — the master-password rules, key setup, unlocking and
  re-sealing the vault, and the start-up screen.
- `src/forms.rs` — form validation, smart paste, search, the code shown on a
  card and its spacing, and the "type DELETE" guard.
- `src/theme.rs`, `src/autostart.rs` — theme choice and the autostart entry.
- `src/text.rs` — character helpers with `str`'s meaning (white space,
  trimming, ASCII case, splitting, decimal parsing).
- `app/` — windows, dialogs, colours, the clock, file and registry I/O, and
  the serde forms of the stored data.

Calls into the cryptographic and encoding crates go through small trusted
wrappers whose contracts name the outside results; everything else is
proved.
