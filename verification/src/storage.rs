//! The vault's data model: accounts, the vault itself, the settings kept in
//! `config.toml`, and the locations of both files.

use crate::crypto::KdfParams;
use crate::text::{chars_of, opt_bytes, string_from_chars};
use crate::theme::ThemeKind;
use crate::totp::Algorithm;
use base64::engine::general_purpose::STANDARD as B64;
use base64::Engine;
use vstd::prelude::*;
use vstd::utf8::encode_utf8;
use zeroize::Zeroize;

verus! {

/// What an account holds, as plain values.
pub struct EntryModel {
    pub issuer: Seq<char>,
    pub account: Seq<char>,
    pub secret: Seq<char>,
    pub digits: u32,
    pub period: u64,
    pub algorithm: Algorithm,
}

/// A single TOTP account. The secret is wiped when the entry is dropped.
pub struct Entry {
    pub issuer: String,
    pub account: String,
    pub secret: String,
    pub digits: u32,
    pub period: u64,
    pub algorithm: Algorithm,
}

impl View for Entry {
    type V = EntryModel;

    open spec fn view(&self) -> EntryModel {
        EntryModel {
            issuer: self.issuer@,
            account: self.account@,
            secret: self.secret@,
            digits: self.digits,
            period: self.period,
            algorithm: self.algorithm,
        }
    }
}

/// The contents of an optional entry.
pub open spec fn opt_entry(e: Option<Entry>) -> Option<EntryModel> {
    match e {
        Some(e) => Some(e@),
        None => None,
    }
}

/// Overwrites the bytes of a string with zeros and empties it
/// (`Zeroize for String`, which zeroes the whole buffer and then clears it).
#[verifier::external_body]
fn wipe_string(s: &mut String)
    ensures
        final(s)@ == Seq::<char>::empty(),
    opens_invariants none
    no_unwind
{
    s.zeroize();
}

impl Drop for Entry {
    fn drop(&mut self)
        opens_invariants none
        no_unwind
    {
        wipe_string(&mut self.secret);
    }
}

/// The accounts of a vault, in the order they were added.
pub struct Vault {
    pub entries: Vec<Entry>,
}

impl View for Vault {
    type V = Seq<EntryModel>;

    open spec fn view(&self) -> Seq<EntryModel> {
        self.entries@.map_values(|e: Entry| e@)
    }
}

impl Default for Vault {
    fn default() -> (r: Self)
        ensures
            r@ == Seq::<EntryModel>::empty(),
    {
        Vault { entries: Vec::new() }
    }
}

impl Vault {
    /// Adds an account at the end.
    pub fn add(&mut self, entry: Entry)
        ensures
            final(self)@ == old(self)@.push(entry@),
    {
        let ghost e = entry@;
        self.entries.push(entry);
        assert(self@ =~= old(self)@.push(e));
    }

    /// Replaces the account at `idx`; an index past the end changes nothing.
    pub fn replace(&mut self, idx: usize, entry: Entry)
        ensures
            idx < old(self)@.len() ==> final(self)@ == old(self)@.update(idx as int, entry@),
            idx >= old(self)@.len() ==> final(self)@ == old(self)@,
    {
        if idx < self.entries.len() {
            let ghost e = entry@;
            self.entries.set(idx, entry);
            assert(self@ =~= old(self)@.update(idx as int, e));
        }
    }

    /// Removes the account at `idx`, keeping the others in order.
    pub fn remove(&mut self, idx: usize)
        requires
            idx < old(self)@.len(),
        ensures
            final(self)@ == old(self)@.remove(idx as int),
    {
        let removed = self.entries.remove(idx);
        assert(self@ =~= old(self)@.remove(idx as int));
        drop_entry(removed);
    }
}

/// Lets an entry go; its secret is wiped as it is dropped.
fn drop_entry(e: Entry) {
}

/// Persistent, non-secret settings kept in config.toml.
pub struct Config {
    pub theme: ThemeKind,
    pub salt_b64: String,
    pub autostart: bool,
    pub initialized: bool,
    pub kdf: KdfParams,
}

impl Default for Config {
    fn default() -> (r: Self)
        ensures
            r.theme == ThemeKind::System,
            r.salt_b64@ == Seq::<char>::empty(),
            !r.autostart,
            !r.initialized,
            r.kdf.m_cost == 65536,
            r.kdf.t_cost == 3,
            r.kdf.p_cost == 1,
    {
        Config {
            theme: ThemeKind::System,
            salt_b64: String::new(),
            autostart: false,
            initialized: false,
            kdf: KdfParams::default(),
        }
    }
}

/// RFC 4648 base64 with the standard alphabet and padding
/// (`base64::engine::general_purpose::STANDARD`), encoded.
pub uninterp spec fn base64_standard_encode(data: Seq<u8>) -> Seq<char>;

/// RFC 4648 base64 with the standard alphabet and padding, decoded; `None`
/// where the input is not such an encoding.
pub uninterp spec fn base64_standard_decode(text: Seq<u8>) -> Option<Seq<u8>>;

/// Encodes with `STANDARD.encode` from the `base64` crate. Trusted: the
/// text is `base64_standard_encode(data)`.
#[verifier::external_body]
fn b64_encode(data: &[u8]) -> (s: String)
    ensures
        s@ == base64_standard_encode(data@),
{
    B64.encode(data)
}

/// Decodes with `STANDARD.decode` from the `base64` crate. Trusted: the
/// result is `base64_standard_decode(text)`, `None` exactly when the crate
/// reports an error, and the encoding of any bytes decodes to those bytes.
#[verifier::external_body]
fn b64_decode(text: &[u8]) -> (r: Option<Vec<u8>>)
    ensures
        opt_bytes(r) == base64_standard_decode(text@),
        forall|d: Seq<u8>| #[trigger] encode_utf8(base64_standard_encode(d)) == text@ ==> opt_bytes(r) == Some(d),
{
    B64.decode(text).ok()
}

/// Why the stored settings could not be used.
#[derive(Debug, PartialEq, Eq, Structural)]
pub enum StorageError {
    /// The salt in the configuration is not valid base64.
    InvalidSalt,
}

impl Config {
    /// Records the salt of a newly derived master key.
    pub fn set_salt(&mut self, salt: &[u8])
        ensures
            final(self).salt_b64@ == base64_standard_encode(salt@),
            final(self).theme == old(self).theme,
            final(self).autostart == old(self).autostart,
            final(self).initialized == old(self).initialized,
            final(self).kdf == old(self).kdf,
    {
        self.salt_b64 = b64_encode(salt);
    }

    /// Marks the configuration as belonging to a vault sealed with a key
    /// derived from `salt`.
    pub fn initialize(&mut self, salt: &[u8])
        ensures
            final(self).salt_b64@ == base64_standard_encode(salt@),
            final(self).initialized,
            final(self).theme == old(self).theme,
            final(self).autostart == old(self).autostart,
            final(self).kdf == old(self).kdf,
    {
        self.set_salt(salt);
        self.initialized = true;
    }

    /// Forgets the vault: no salt, not initialized.
    pub fn forget_vault(&mut self)
        ensures
            final(self).salt_b64@ == Seq::<char>::empty(),
            !final(self).initialized,
            final(self).theme == old(self).theme,
            final(self).autostart == old(self).autostart,
            final(self).kdf == old(self).kdf,
    {
        self.initialized = false;
        self.salt_b64 = String::new();
    }
}

/// The salt that a configuration records.
pub open spec fn recorded_salt(cfg: Config) -> Option<Seq<u8>> {
    base64_standard_decode(encode_utf8(cfg.salt_b64@))
}

/// Decodes the salt kept in the configuration.
pub fn salt_from_config(cfg: &Config) -> (r: Result<Vec<u8>, StorageError>)
    ensures
        r matches Ok(s) ==> recorded_salt(*cfg) == Some(s@),
        r is Err <==> recorded_salt(*cfg) is None,
        r matches Err(e) ==> e == StorageError::InvalidSalt,
        forall|salt: Seq<u8>| #[trigger] base64_standard_encode(salt) == cfg.salt_b64@ ==> (r matches Ok(s) && s@ == salt),
{
    match b64_decode(cfg.salt_b64.as_str().as_bytes()) {
        Some(s) => Ok(s),
        None => Err(StorageError::InvalidSalt),
    }
}

/// The platform's main path separator (`std::path::MAIN_SEPARATOR`).
/// Trusted: it is `/` or `\`, as std documents for the platforms Rust
/// supports.
#[verifier::external_body]
fn main_separator() -> (r: char)
    ensures
        r == '/' || r == '\\',
{
    std::path::MAIN_SEPARATOR
}

/// Whether `c` separates path components, given the platform's main
/// separator: `/` everywhere, and the main separator as well.
pub open spec fn is_path_separator(c: char, sep: char) -> bool {
    c == '/' || c == sep
}

/// `Path::join` of a directory with a relative one-component name: the
/// separator is put between them unless the directory is empty or already
/// ends with a separator. (A directory that is nothing but a Windows drive
/// prefix such as `C:` is not covered: `Path::join` adds no separator
/// there.)
pub open spec fn joined(dir: Seq<char>, sep: char, name: Seq<char>) -> Seq<char> {
    if dir.len() == 0 || is_path_separator(dir.last(), sep) {
        dir + name
    } else {
        dir + seq![sep] + name
    }
}

/// The file name `config.toml`.
pub open spec fn config_file_name() -> Seq<char> {
    seq!['c', 'o', 'n', 'f', 'i', 'g', '.', 't', 'o', 'm', 'l']
}

/// The file name `vault.enc`.
pub open spec fn vault_file_name() -> Seq<char> {
    seq!['v', 'a', 'u', 'l', 't', '.', 'e', 'n', 'c']
}

/// Where the configuration and the vault are kept, as text, with the
/// platform's path separator.
/// Linux:   ~/.config/monotp  &  ~/.local/share/monotp
/// Windows: %APPDATA%\X-croot\monotp\config  &  ...\data
/// macOS:   ~/Library/Application Support/com.X-croot.monotp
pub struct Paths {
    pub config_dir: String,
    pub data_dir: String,
    pub separator: char,
}

/// `dir` joined with `name` (the characters of `name` given as a slice).
fn join_name(dir: &str, sep: char, name: &[char]) -> (r: String)
    ensures
        r@ == joined(dir@, sep, name@),
{
    let mut out = chars_of(dir);
    let n = out.len();
    if !(n == 0 || out[n - 1] == '/' || out[n - 1] == sep) {
        out.push(sep);
    }
    let ghost head = out@;
    let m = name.len();
    for i in 0..m
        invariant
            m == name@.len(),
            out@ == head + name@.take(i as int),
    {
        out.push(name[i]);
        assert(name@.take(i + 1) =~= name@.take(i as int).push(name@[i as int]));
    }
    assert(name@.take(m as int) =~= name@);
    string_from_chars(out.as_slice())
}

impl Paths {
    /// The two directories, with this platform's path separator.
    pub fn new(config_dir: String, data_dir: String) -> (r: Paths)
        ensures
            r.config_dir@ == config_dir@,
            r.data_dir@ == data_dir@,
            r.separator == '/' || r.separator == '\\',
    {
        Paths { config_dir, data_dir, separator: main_separator() }
    }

    /// `config.toml` in the configuration directory.
    pub fn config_file(&self) -> (r: String)
        ensures
            r@ == joined(self.config_dir@, self.separator, config_file_name()),
    {
        let name: [char; 11] = ['c', 'o', 'n', 'f', 'i', 'g', '.', 't', 'o', 'm', 'l'];
        assert(name@ =~= config_file_name());
        join_name(self.config_dir.as_str(), self.separator, name.as_slice())
    }

    /// `vault.enc` in the data directory.
    pub fn vault_file(&self) -> (r: String)
        ensures
            r@ == joined(self.data_dir@, self.separator, vault_file_name()),
    {
        let name: [char; 9] = ['v', 'a', 'u', 'l', 't', '.', 'e', 'n', 'c'];
        assert(name@ =~= vault_file_name());
        join_name(self.data_dir.as_str(), self.separator, name.as_slice())
    }
}

} // verus!
