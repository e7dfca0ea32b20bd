//! RFC 4226 / RFC 6238 one-time passwords: the HMAC step, dynamic
//! truncation, zero-padded formatting, the time window, base32 secrets and
//! `otpauth://` links.

use crate::text::{
    all_ascii_digits, ascii_lower, ascii_upper, chars_equal, chars_of, copy_chars, find_byte, find_char, index_of,
    is_white_space, lower_all, is_whitespace_char, lemma_index_of, opt_bytes, parse_decimal, parse_unsigned,
    split_all, split_once, string_from_chars, to_ascii_upper, to_ascii_upper_char, trim,
    trim_chars, upper_all,
};
use hmac::{Hmac, Mac};
use sha1::Sha1;
use sha2::{Sha256, Sha512};
use vstd::prelude::*;
use vstd::utf8::*;

verus! {

/// The HMAC hash function that an account uses.
#[derive(Clone, Copy, PartialEq, Eq, Debug, Structural)]
pub enum Algorithm {
    Sha1,
    Sha256,
    Sha512,
}

impl Default for Algorithm {
    fn default() -> (r: Self)
        ensures
            r == Algorithm::Sha1,
    {
        Algorithm::Sha1
    }
}

/// The name under which an algorithm is shown and written in links.
pub open spec fn algorithm_label(a: Algorithm) -> Seq<char> {
    match a {
        Algorithm::Sha1 => seq!['S', 'H', 'A', '1'],
        Algorithm::Sha256 => seq!['S', 'H', 'A', '2', '5', '6'],
        Algorithm::Sha512 => seq!['S', 'H', 'A', '5', '1', '2'],
    }
}

impl Algorithm {
    pub fn label(&self) -> (r: &'static str)
        ensures
            r@ == algorithm_label(*self),
    {
        match self {
            Algorithm::Sha1 => {
                let r = "SHA1";
                proof {
                    reveal_strlit("SHA1");
                }
                r
            },
            Algorithm::Sha256 => {
                let r = "SHA256";
                proof {
                    reveal_strlit("SHA256");
                }
                r
            },
            Algorithm::Sha512 => {
                let r = "SHA512";
                proof {
                    reveal_strlit("SHA512");
                }
                r
            },
        }
    }
}

/// HMAC-SHA1 of `msg` under `key` (RFC 2104 over SHA-1).
pub uninterp spec fn hmac_sha1(key: Seq<u8>, msg: Seq<u8>) -> Seq<u8>;

/// HMAC-SHA256 of `msg` under `key` (RFC 2104 over SHA-256).
pub uninterp spec fn hmac_sha256(key: Seq<u8>, msg: Seq<u8>) -> Seq<u8>;

/// HMAC-SHA512 of `msg` under `key` (RFC 2104 over SHA-512).
pub uninterp spec fn hmac_sha512(key: Seq<u8>, msg: Seq<u8>) -> Seq<u8>;

/// Computes HMAC-SHA1 with the `hmac` and `sha1` crates (`new_from_slice`,
/// `update`, `finalize`). Trusted: the tag is `hmac_sha1(key, msg)` and is
/// 20 bytes long, SHA-1's output size. `new_from_slice` accepts a key of
/// any length (longer keys are hashed first), so the `expect` never fires.
#[verifier::external_body]
fn hmac_sha1_tag(key: &[u8], msg: &[u8]) -> (tag: Vec<u8>)
    ensures
        tag@ == hmac_sha1(key@, msg@),
        tag@.len() == 20,
{
    let mut mac = <Hmac<Sha1> as Mac>::new_from_slice(key).expect("hmac accepts any key length");
    mac.update(msg);
    mac.finalize().into_bytes().to_vec()
}

/// Computes HMAC-SHA256 with the `hmac` and `sha2` crates. Trusted: the tag
/// is `hmac_sha256(key, msg)` and is 32 bytes long.
#[verifier::external_body]
fn hmac_sha256_tag(key: &[u8], msg: &[u8]) -> (tag: Vec<u8>)
    ensures
        tag@ == hmac_sha256(key@, msg@),
        tag@.len() == 32,
{
    let mut mac = <Hmac<Sha256> as Mac>::new_from_slice(key).expect(
        "hmac accepts any key length",
    );
    mac.update(msg);
    mac.finalize().into_bytes().to_vec()
}

/// Computes HMAC-SHA512 with the `hmac` and `sha2` crates. Trusted: the tag
/// is `hmac_sha512(key, msg)` and is 64 bytes long.
#[verifier::external_body]
fn hmac_sha512_tag(key: &[u8], msg: &[u8]) -> (tag: Vec<u8>)
    ensures
        tag@ == hmac_sha512(key@, msg@),
        tag@.len() == 64,
{
    let mut mac = <Hmac<Sha512> as Mac>::new_from_slice(key).expect(
        "hmac accepts any key length",
    );
    mac.update(msg);
    mac.finalize().into_bytes().to_vec()
}

/// The HMAC tag that `algo` gives.
pub open spec fn hmac_tag(algo: Algorithm, key: Seq<u8>, msg: Seq<u8>) -> Seq<u8> {
    match algo {
        Algorithm::Sha1 => hmac_sha1(key, msg),
        Algorithm::Sha256 => hmac_sha256(key, msg),
        Algorithm::Sha512 => hmac_sha512(key, msg),
    }
}

/// The byte length of the tag that `algo` gives.
pub open spec fn tag_len(algo: Algorithm) -> nat {
    match algo {
        Algorithm::Sha1 => 20,
        Algorithm::Sha256 => 32,
        Algorithm::Sha512 => 64,
    }
}

/// Computes the HMAC tag of `msg` under `key` with `algo`.
pub fn hmac_for(algo: Algorithm, key: &[u8], msg: &[u8]) -> (tag: Vec<u8>)
    ensures
        tag@ == hmac_tag(algo, key@, msg@),
        tag@.len() == tag_len(algo),
{
    match algo {
        Algorithm::Sha1 => hmac_sha1_tag(key, msg),
        Algorithm::Sha256 => hmac_sha256_tag(key, msg),
        Algorithm::Sha512 => hmac_sha512_tag(key, msg),
    }
}

/// The eight bytes of `x`, most significant first (`u64::to_be_bytes`).
pub open spec fn u64_be_bytes(x: u64) -> Seq<u8> {
    seq![
        (x / 0x100_0000_0000_0000) as u8,
        ((x / 0x1_0000_0000_0000) % 256) as u8,
        ((x / 0x100_0000_0000) % 256) as u8,
        ((x / 0x1_0000_0000) % 256) as u8,
        ((x / 0x100_0000) % 256) as u8,
        ((x / 0x1_0000) % 256) as u8,
        ((x / 0x100) % 256) as u8,
        (x % 256) as u8,
    ]
}

/// `u64::to_be_bytes`.
pub fn u64_to_be_bytes(x: u64) -> (r: [u8; 8])
    ensures
        r@ == u64_be_bytes(x),
{
    let r: [u8; 8] = [
        (x / 0x100_0000_0000_0000) as u8,
        ((x / 0x1_0000_0000_0000) % 256) as u8,
        ((x / 0x100_0000_0000) % 256) as u8,
        ((x / 0x1_0000_0000) % 256) as u8,
        ((x / 0x100_0000) % 256) as u8,
        ((x / 0x1_0000) % 256) as u8,
        ((x / 0x100) % 256) as u8,
        (x % 256) as u8,
    ];
    assert(r@ =~= u64_be_bytes(x));
    r
}

/// RFC 4226 dynamic truncation: the low four bits of the last byte pick an
/// offset, and the four bytes there, with the top bit cleared, form a
/// 31-bit number.
pub open spec fn dynamic_truncation(h: Seq<u8>) -> nat {
    let off = (h.last() % 16) as int;
    (h[off] % 128) as nat * 0x100_0000 + h[off + 1] as nat * 0x1_0000 + h[off + 2] as nat * 0x100
        + h[off + 3] as nat
}

/// Whether dynamic truncation reads inside `h`.
pub open spec fn truncation_in_bounds(h: Seq<u8>) -> bool {
    h.len() > 0 && (h.last() % 16) + 4 <= h.len()
}

/// RFC 4226 dynamic truncation of an HMAC tag.
pub fn dynamic_truncate(hash: &[u8]) -> (r: u32)
    requires
        truncation_in_bounds(hash@),
    ensures
        r as nat == dynamic_truncation(hash@),
{
    let n = hash.len();
    let offset = (hash[n - 1] & 0x0f) as usize;
    let last = hash[n - 1];
    assert(last & 0x0f == last % 16) by (bit_vector);
    let a = hash[offset];
    let b = hash[offset + 1];
    let c = hash[offset + 2];
    let d = hash[offset + 3];
    let binary: u32 = (((a as u32) & 0x7f) << 24) | (((b as u32) & 0xff) << 16) | (((c as u32)
        & 0xff) << 8) | ((d as u32) & 0xff);
    assert(binary == (a % 128) as u32 * 0x100_0000 + b as u32 * 0x1_0000 + c as u32 * 0x100
        + d as u32) by (bit_vector)
        requires
            binary == (((a as u32) & 0x7f) << 24) | (((b as u32) & 0xff) << 16) | (((c as u32)
                & 0xff) << 8) | ((d as u32) & 0xff),
    ;
    binary
}

/// Ten to the power `n`.
pub open spec fn pow10(n: nat) -> nat
    decreases n,
{
    if n == 0 {
        1
    } else {
        10 * pow10((n - 1) as nat)
    }
}

/// `10u32.pow(n)` for exponents whose power fits in a `u32`.
pub fn pow10_u32(n: u32) -> (r: u32)
    requires
        n <= 9,
    ensures
        r as nat == pow10(n as nat),
{
    let mut r: u32 = 1;
    let mut i: u32 = 0;
    while i < n
        invariant
            i <= n <= 9,
            r as nat == pow10(i as nat),
        decreases n - i,
    {
        proof {
            lemma_pow10_bound(i as nat);
        }
        r = r * 10;
        i = i + 1;
    }
    r
}

/// The powers of ten up to the ninth.
pub proof fn lemma_pow10_table()
    ensures
        pow10(0) == 1,
        pow10(1) == 10,
        pow10(2) == 100,
        pow10(3) == 1000,
        pow10(4) == 10000,
        pow10(5) == 100000,
        pow10(6) == 1000000,
        pow10(7) == 10000000,
        pow10(8) == 100000000,
        pow10(9) == 1000000000,
{
    assert(pow10(0) == 1);
    assert(pow10(1) == 10);
    assert(pow10(2) == 100);
    assert(pow10(3) == 1000);
    assert(pow10(4) == 10000);
    assert(pow10(5) == 100000);
    assert(pow10(6) == 1000000);
    assert(pow10(7) == 10000000);
    assert(pow10(8) == 100000000);
    assert(pow10(9) == 1000000000);
}

/// Powers of ten up to the ninth fit in a `u32`, and they grow.
pub proof fn lemma_pow10_bound(n: nat)
    requires
        n <= 9,
    ensures
        1 <= pow10(n) <= 1_000_000_000,
        n < 9 ==> pow10(n) * 10 <= 1_000_000_000,
{
    lemma_pow10_table();
    if n == 0 {
    } else if n == 1 {
    } else if n == 2 {
    } else if n == 3 {
    } else if n == 4 {
    } else if n == 5 {
    } else if n == 6 {
    } else if n == 7 {
    } else if n == 8 {
    } else {
    }
}

/// RFC 4226 HOTP: the truncated HMAC of the big-endian counter, reduced
/// to `digits` decimal digits.
pub open spec fn hotp_value(key: Seq<u8>, counter: u64, digits: nat, algo: Algorithm) -> nat {
    dynamic_truncation(hmac_tag(algo, key, u64_be_bytes(counter))) % pow10(digits)
}

/// Computes the RFC 4226 HOTP value for `counter`.
pub fn hotp(key: &[u8], counter: u64, digits: u32, algo: Algorithm) -> (r: u32)
    requires
        digits <= 9,
    ensures
        r as nat == hotp_value(key@, counter, digits as nat, algo),
        (r as nat) < pow10(digits as nat),
{
    let counter_bytes = u64_to_be_bytes(counter);
    let hash = hmac_for(algo, key, &counter_bytes);
    proof {
        let h = hash@;
        assert(h.last() % 16 <= 15);
    }
    let binary = dynamic_truncate(hash.as_slice());
    let m = pow10_u32(digits);
    proof {
        lemma_pow10_bound(digits as nat);
    }
    binary % m
}

/// The character of the decimal digit `d`.
pub open spec fn digit_char(d: nat) -> char {
    (48 + d) as char
}

/// The decimal representation of `n`, without leading zeros.
pub open spec fn decimal(n: nat) -> Seq<char>
    decreases n,
{
    if n < 10 {
        seq![digit_char(n)]
    } else {
        decimal(n / 10).push(digit_char(n % 10))
    }
}

/// What `format!("{:0width$}", n)` writes: the decimal digits of `n`,
/// padded with leading zeros to at least `width` characters.
pub open spec fn zero_padded(n: nat, width: nat) -> Seq<char> {
    let d = decimal(n);
    if d.len() < width {
        Seq::new((width - d.len()) as nat, |i: int| '0') + d
    } else {
        d
    }
}

/// Appends the decimal digits of `n` to `out`.
fn push_decimal(n: u32, out: &mut Vec<char>)
    ensures
        final(out)@ == old(out)@ + decimal(n as nat),
    decreases n,
{
    if n >= 10 {
        push_decimal(n / 10, out);
    }
    let d: u8 = (n % 10) as u8;
    let c = (48u8 + d) as char;
    assert(c == digit_char((n % 10) as nat));
    out.push(c);
    proof {
        if n < 10 {
            assert(decimal(n as nat) =~= seq![digit_char(n as nat)]);
        }
    }
}

/// Formats `n` in decimal with leading zeros up to `width` characters.
pub fn format_zero_padded(n: u32, width: u32) -> (s: String)
    ensures
        s@ == zero_padded(n as nat, width as nat),
{
    let mut digits: Vec<char> = Vec::new();
    push_decimal(n, &mut digits);
    assert(digits@ =~= decimal(n as nat));
    let mut out: Vec<char> = Vec::new();
    if digits.len() < width as usize {
        let pad = width as usize - digits.len();
        let mut i: usize = 0;
        while i < pad
            invariant
                i <= pad,
                out@ =~= Seq::new(i as nat, |k: int| '0'),
            decreases pad - i,
        {
            out.push('0');
            i = i + 1;
        }
    }
    let m = digits.len();
    for i in 0..m
        invariant
            m == digits@.len(),
            digits@ == decimal(n as nat),
            out@ == (if decimal(n as nat).len() < width as nat {
                Seq::new((width as nat - decimal(n as nat).len()) as nat, |k: int| '0')
            } else {
                Seq::<char>::empty()
            }) + digits@.take(i as int),
    {
        out.push(digits[i]);
        assert(digits@.take(i + 1) =~= digits@.take(i as int).push(digits@[i as int]));
    }
    assert(digits@.take(m as int) =~= digits@);
    string_from_chars(out.as_slice())
}

/// A period of zero counts as one second.
pub open spec fn effective_period(period: u64) -> nat {
    if period == 0 {
        1
    } else {
        period as nat
    }
}

/// The RFC 6238 code at `unix_time`: the HOTP value of the time-step
/// counter, written with `digits` zero-padded decimal digits.
pub open spec fn totp_code(
    key: Seq<u8>,
    period: u64,
    digits: nat,
    algo: Algorithm,
    unix_time: u64,
) -> Seq<char> {
    zero_padded(
        hotp_value(key, (unix_time as nat / effective_period(period)) as u64, digits, algo),
        digits,
    )
}

/// Generates the current TOTP code as a zero-padded string.
pub fn generate(
    key: &[u8],
    period: u64,
    digits: u32,
    algo: Algorithm,
    unix_time: u64,
) -> (s: String)
    requires
        digits <= 9,
    ensures
        s@ == totp_code(key@, period, digits as nat, algo, unix_time),
        period > 0 ==> s@ == zero_padded(
            hotp_value(key@, unix_time / period, digits as nat, algo),
            digits as nat,
        ),
        period == 0 ==> s@ == zero_padded(
            hotp_value(key@, unix_time, digits as nat, algo),
            digits as nat,
        ),
{
    let p: u64 = if period == 0 {
        1
    } else {
        period
    };
    let counter = unix_time / p;
    let code = hotp(key, counter, digits, algo);
    format_zero_padded(code, digits)
}

/// Seconds left in the current time window of `period` seconds.
pub open spec fn remaining_in_window(period: u64, unix_time: u64) -> nat {
    (effective_period(period) - (unix_time as nat % effective_period(period))) as nat
}

/// Seconds remaining until the current code rotates.
pub fn seconds_remaining(period: u64, unix_time: u64) -> (r: u64)
    ensures
        r as nat == remaining_in_window(period, unix_time),
        1 <= r <= effective_period(period),
        period > 0 ==> r == period - unix_time % period,
        period == 0 ==> r == 1,
{
    let p: u64 = if period == 0 {
        1
    } else {
        period
    };
    p - (unix_time % p)
}

/// The decimal representation of `n` consists of ASCII digits, and it is
/// no longer than `k` characters when `n` is below ten to the `k`.
pub proof fn lemma_decimal_shape(n: nat, k: nat)
    ensures
        all_ascii_digits(decimal(n)),
        decimal(n).len() >= 1,
        k >= 1 && n < pow10(k) ==> decimal(n).len() <= k,
    decreases n,
{
    if n >= 10 {
        lemma_decimal_shape(n / 10, (k - 1) as nat);
        if k >= 1 && n < pow10(k) {
            let p = pow10((k - 1) as nat);
            assert(pow10(k) == 10 * p);
            assert(n / 10 < p) by (nonlinear_arith)
                requires
                    n < 10 * p,
            ;
            if k == 1 {
                assert(pow10(0) == 1);
            }
        }
        let d = decimal(n);
        assert forall|i: int| 0 <= i < d.len() implies 48 <= #[trigger] (d[i] as u32) <= 57 by {
            if i < d.len() - 1 {
                assert(d[i] == decimal(n / 10)[i]);
            }
        }
    } else {
        let d = decimal(n);
        assert(d[0] == digit_char(n));
        if k >= 1 {
            lemma_pow10_grows(k);
        }
    }
}

/// Powers of ten with a positive exponent are at least ten.
pub proof fn lemma_pow10_grows(k: nat)
    requires
        k >= 1,
    ensures
        pow10(k) >= 10,
    decreases k,
{
    if k > 1 {
        lemma_pow10_grows((k - 1) as nat);
    } else {
        assert(pow10(0) == 1);
    }
}

/// A TOTP code always has exactly `digits` characters, all ASCII digits.
pub proof fn lemma_code_shape(key: Seq<u8>, period: u64, digits: nat, algo: Algorithm, unix_time: u64)
    requires
        1 <= digits <= 9,
    ensures
        totp_code(key, period, digits, algo, unix_time).len() == digits,
        all_ascii_digits(totp_code(key, period, digits, algo, unix_time)),
{
    let n = hotp_value(key, (unix_time as nat / effective_period(period)) as u64, digits, algo);
    lemma_pow10_bound(digits);
    lemma_decimal_shape(n, digits);
    let d = decimal(n);
    let c = totp_code(key, period, digits, algo, unix_time);
    if d.len() < digits {
        assert forall|i: int| 0 <= i < c.len() implies 48 <= #[trigger] (c[i] as u32) <= 57 by {
            if i >= digits - d.len() {
                assert(c[i] == d[i - (digits - d.len())]);
            }
        }
    }
}

/// Two times in the same window of `period` seconds give the same code.
pub proof fn lemma_same_window_same_code(
    key: Seq<u8>,
    period: u64,
    digits: nat,
    algo: Algorithm,
    t1: u64,
    t2: u64,
)
    requires
        t1 as nat / effective_period(period) == t2 as nat / effective_period(period),
    ensures
        totp_code(key, period, digits, algo, t1) == totp_code(key, period, digits, algo, t2),
{
}

/// A positive period is the window itself: the code at `unix_time` is the
/// zero-padded HOTP value of the counter `unix_time / period`, and the
/// seconds left are `period - unix_time % period`, from `period` at the
/// start of a window down to one.
pub proof fn lemma_period_is_the_window(
    key: Seq<u8>,
    period: u64,
    digits: nat,
    algo: Algorithm,
    unix_time: u64,
)
    requires
        period > 0,
    ensures
        totp_code(key, period, digits, algo, unix_time) == zero_padded(
            hotp_value(key, unix_time / period, digits, algo),
            digits,
        ),
        remaining_in_window(period, unix_time) == period - unix_time % period,
        unix_time % period == 0 ==> remaining_in_window(period, unix_time) == period,
{
}

/// A period of zero gives the codes of a one-second period: time enters
/// only through the step counter, and no division by zero happens.
pub proof fn lemma_period_zero_acts_as_one(
    key: Seq<u8>,
    digits: nat,
    algo: Algorithm,
    unix_time: u64,
)
    ensures
        totp_code(key, 0, digits, algo, unix_time) == totp_code(key, 1, digits, algo, unix_time),
{
}

/// The code rotates exactly when the remaining seconds run out: the last
/// second counted as remaining still lies in the current window, and the
/// second after it starts the next one.
pub proof fn lemma_rotation_boundary(period: u64, unix_time: u64)
    ensures
        ({
            let p = effective_period(period) as int;
            let r = remaining_in_window(period, unix_time) as int;
            &&& (unix_time + r - 1) / p == (unix_time as int) / p
            &&& (unix_time + r) / p == (unix_time as int) / p + 1
        }),
{
    let p = effective_period(period) as int;
    let t = unix_time as int;
    let q = t / p;
    let m = t % p;
    assert(t == q * p + m && 0 <= m < p) by (nonlinear_arith)
        requires
            p > 0,
            q == t / p,
            m == t % p,
    ;
    assert((t + (p - m) - 1) / p == q) by (nonlinear_arith)
        requires
            t == q * p + m,
            0 <= m < p,
    ;
    assert((t + (p - m)) / p == q + 1) by (nonlinear_arith)
        requires
            t == q * p + m,
            0 <= m < p,
    ;
}

/// The normal form of a typed-in base32 secret: white space dropped and
/// ASCII letters upper-cased.
pub open spec fn clean_secret(s: Seq<char>) -> Seq<char>
    decreases s.len(),
{
    if s.len() == 0 {
        Seq::empty()
    } else {
        let r = clean_secret(s.drop_last());
        if is_white_space(s.last()) {
            r
        } else {
            r.push(ascii_upper(s.last()))
        }
    }
}

/// RFC 4648 base32 without padding (the `data_encoding::BASE32_NOPAD`
/// encoding), decoded; `None` where the input is not such an encoding.
pub uninterp spec fn base32_nopad_decode(text: Seq<u8>) -> Option<Seq<u8>>;

/// Decodes with `data_encoding::BASE32_NOPAD.decode`. Trusted: the result
/// is `base32_nopad_decode(text)`, `None` exactly when the crate reports an
/// error.
#[verifier::external_body]
fn base32_decode(text: &[u8]) -> (r: Option<Vec<u8>>)
    ensures
        opt_bytes(r) == base32_nopad_decode(text@),
{
    data_encoding::BASE32_NOPAD.decode(text).ok()
}

/// The key bytes that a typed-in secret stands for: `None` when nothing but
/// white space was typed, else the base32 decoding of its normal form.
pub open spec fn secret_key(s: Seq<char>) -> Option<Seq<u8>> {
    let c = clean_secret(s);
    if c.len() == 0 {
        None
    } else {
        base32_nopad_decode(encode_utf8(c))
    }
}

/// Decodes a user-provided base32 secret (spaces / lowercase tolerated).
pub fn decode_secret(secret: &str) -> (r: Option<Vec<u8>>)
    ensures
        opt_bytes(r) == secret_key(secret@),
{
    let cs = chars_of(secret);
    let n = cs.len();
    let mut cleaned: Vec<char> = Vec::new();
    for i in 0..n
        invariant
            n == cs@.len(),
            cs@ == secret@,
            cleaned@ == clean_secret(cs@.take(i as int)),
    {
        let c = cs[i];
        assert(cs@.take(i + 1).drop_last() =~= cs@.take(i as int));
        if !is_whitespace_char(c) {
            cleaned.push(to_ascii_upper_char(c));
        }
    }
    assert(cs@.take(n as int) =~= cs@);
    if cleaned.len() == 0 {
        return None;
    }
    let text = string_from_chars(cleaned.as_slice());
    base32_decode(text.as_str().as_bytes())
}

/// The value of an ASCII hexadecimal digit.
pub open spec fn hex_digit_value(b: u8) -> Option<u8> {
    if 48 <= b <= 57 {
        Some((b - 48) as u8)
    } else if 97 <= b <= 102 {
        Some((b - 87) as u8)
    } else if 65 <= b <= 70 {
        Some((b - 55) as u8)
    } else {
        None
    }
}

/// The value of an ASCII hexadecimal digit, if `b` is one.
pub fn hex_val(b: u8) -> (r: Option<u8>)
    ensures
        r == hex_digit_value(b),
{
    if 48 <= b && b <= 57 {
        Some(b - 48)
    } else if 97 <= b && b <= 102 {
        Some(b - 87)
    } else if 65 <= b && b <= 70 {
        Some(b - 55)
    } else {
        None
    }
}

/// Percent-decoding of a URL component: `%` and two hexadecimal digits
/// become that byte, `+` becomes a space, and every other byte, a `%`
/// without two hexadecimal digits after it included, is kept.
pub open spec fn url_decoded(s: Seq<u8>) -> Seq<u8>
    decreases s.len(),
{
    if s.len() == 0 {
        Seq::empty()
    } else if s[0] == 37 && s.len() > 2 && hex_digit_value(s[1]) is Some && hex_digit_value(
        s[2],
    ) is Some {
        seq![(hex_digit_value(s[1])->0 * 16 + hex_digit_value(s[2])->0) as u8] + url_decoded(
            s.skip(3),
        )
    } else if s[0] == 43 {
        seq![32u8] + url_decoded(s.skip(1))
    } else {
        seq![s[0]] + url_decoded(s.skip(1))
    }
}

/// Percent-decodes the bytes `s[from..to]`.
pub fn url_decode_bytes(s: &[u8], from: usize, to: usize) -> (r: Vec<u8>)
    requires
        from <= to <= s@.len(),
    ensures
        r@ == url_decoded(s@.subrange(from as int, to as int)),
{
    let mut out: Vec<u8> = Vec::new();
    let mut i = from;
    while i < to
        invariant
            from <= i <= to <= s@.len(),
            url_decoded(s@.subrange(from as int, to as int)) == out@ + url_decoded(
                s@.subrange(i as int, to as int),
            ),
        decreases to - i,
    {
        let ghost rest = s@.subrange(i as int, to as int);
        let b = s[i];
        if b == 37 && to - i > 2 {
            let h = hex_val(s[i + 1]);
            let l = hex_val(s[i + 2]);
            if let (Some(h), Some(l)) = (h, l) {
                assert(rest.skip(3) =~= s@.subrange(i + 3, to as int));
                assert(url_decoded(rest) == seq![(h * 16 + l) as u8] + url_decoded(rest.skip(3)));
                out.push(h * 16 + l);
                i = i + 3;
                continue;
            }
        }
        assert(rest.skip(1) =~= s@.subrange(i + 1, to as int));
        if b == 43 {
            out.push(32);
        } else {
            out.push(b);
        }
        i = i + 1;
    }
    assert(s@.subrange(to as int, to as int) =~= Seq::<u8>::empty());
    assert(out@ + Seq::<u8>::empty() =~= out@);
    out
}

/// `String::from_utf8_lossy`: UTF-8 decoding in which each invalid
/// sequence becomes U+FFFD.
pub uninterp spec fn utf8_lossy(bytes: Seq<u8>) -> Seq<char>;

/// Decodes with `String::from_utf8_lossy`. Trusted: the result is
/// `utf8_lossy(bytes)`, and on valid UTF-8 it is the decoded text, as the
/// function's documentation says.
#[verifier::external_body]
fn from_utf8_lossy(bytes: &[u8]) -> (s: String)
    ensures
        s@ == utf8_lossy(bytes@),
        valid_utf8(bytes@) ==> s@ == decode_utf8(bytes@),
{
    String::from_utf8_lossy(bytes).into_owned()
}

/// The text that `String::from_utf8_lossy` makes of `bytes`: their UTF-8
/// decoding when they are valid UTF-8, else `utf8_lossy(bytes)`.
pub open spec fn utf8_text(bytes: Seq<u8>) -> Seq<char> {
    if valid_utf8(bytes) {
        decode_utf8(bytes)
    } else {
        utf8_lossy(bytes)
    }
}

/// Percent-decodes a URL component and reads the bytes as UTF-8, invalid
/// sequences replaced.
pub fn url_decode(s: &str) -> (r: String)
    ensures
        r@ == utf8_text(url_decoded(encode_utf8(s@))),
{
    let b = s.as_bytes();
    let d = url_decode_bytes(b, 0, b.len());
    assert(b@.subrange(0, b@.len() as int) =~= b@);
    from_utf8_lossy(d.as_slice())
}

/// The bytes `otpauth://totp/`.
pub open spec fn otpauth_prefix() -> Seq<u8> {
    seq![111u8, 116, 112, 97, 117, 116, 104, 58, 47, 47, 116, 111, 116, 112, 47]
}

/// The parameter name `secret`.
pub open spec fn key_secret() -> Seq<u8> {
    seq![115u8, 101, 99, 114, 101, 116]
}

/// The parameter name `issuer`.
pub open spec fn key_issuer() -> Seq<u8> {
    seq![105u8, 115, 115, 117, 101, 114]
}

/// The parameter name `digits`.
pub open spec fn key_digits() -> Seq<u8> {
    seq![100u8, 105, 103, 105, 116, 115]
}

/// The parameter name `period`.
pub open spec fn key_period() -> Seq<u8> {
    seq![112u8, 101, 114, 105, 111, 100]
}

/// The parameter name `algorithm`.
pub open spec fn key_algorithm() -> Seq<u8> {
    seq![97u8, 108, 103, 111, 114, 105, 116, 104, 109]
}

/// The algorithm that an `algorithm` parameter names: `SHA256` or `SHA512`
/// in any ASCII case, and SHA-1 for anything else.
pub open spec fn algorithm_named(v: Seq<char>) -> Algorithm {
    let u = upper_all(v);
    if u == algorithm_label(Algorithm::Sha256) {
        Algorithm::Sha256
    } else if u == algorithm_label(Algorithm::Sha512) {
        Algorithm::Sha512
    } else {
        Algorithm::Sha1
    }
}

/// What the query parameters of a link have set so far.
pub struct LinkParams {
    pub issuer: Seq<char>,
    pub secret: Seq<char>,
    pub digits: u32,
    pub period: u64,
    pub algorithm: Algorithm,
}

/// The effect of one `name=value` pair: `secret` sets the secret, `issuer`
/// sets the issuer if none is known yet, `digits` and `period` set their
/// number (6 and 30 when the value is not a number), `algorithm` sets the
/// algorithm; other names, and pairs without `=`, change nothing.
pub open spec fn apply_param(st: LinkParams, pair: Seq<u8>) -> LinkParams {
    match split_once(pair, 61u8) {
        None => st,
        Some((k, raw)) => {
            let v = utf8_text(url_decoded(raw));
            if k == key_secret() {
                LinkParams { secret: v, ..st }
            } else if k == key_issuer() {
                if st.issuer.len() == 0 {
                    LinkParams { issuer: v, ..st }
                } else {
                    st
                }
            } else if k == key_digits() {
                LinkParams {
                    digits: match parse_unsigned(v, u32::MAX as nat) {
                        Some(x) => x as u32,
                        None => 6,
                    },
                    ..st
                }
            } else if k == key_period() {
                LinkParams {
                    period: match parse_unsigned(v, u64::MAX as nat) {
                        Some(x) => x as u64,
                        None => 30,
                    },
                    ..st
                }
            } else if k == key_algorithm() {
                LinkParams { algorithm: algorithm_named(v), ..st }
            } else {
                st
            }
        },
    }
}

/// The effect of the pairs in order.
pub open spec fn apply_params(st: LinkParams, pairs: Seq<Seq<u8>>) -> LinkParams
    decreases pairs.len(),
{
    if pairs.len() == 0 {
        st
    } else {
        apply_params(apply_param(st, pairs[0]), pairs.drop_first())
    }
}

/// What an `otpauth://totp/` link describes. The label (before `?`) is
/// percent-decoded and split at its first `:` into issuer and account, both
/// trimmed; without a `:` it is all account. The query (after `?`) is split
/// at `&` into pairs, applied in order from 6 digits, 30 seconds and SHA-1.
/// There is an entry only with the prefix and a non-empty secret.
pub open spec fn otpauth_entry(uri: Seq<char>) -> Option<crate::storage::EntryModel> {
    let b = encode_utf8(uri);
    if b.len() < 15 || b.take(15) != otpauth_prefix() {
        None
    } else {
        let rest = b.skip(15);
        let (label_part, query) = match split_once(rest, 63u8) {
            Some((l, q)) => (l, q),
            None => (rest, Seq::<u8>::empty()),
        };
        let label = utf8_text(url_decoded(label_part));
        let (issuer, account) = match split_once(label, ':') {
            Some((i, a)) => (trim(i), trim(a)),
            None => (Seq::<char>::empty(), trim(label)),
        };
        let st = apply_params(
            LinkParams {
                issuer: issuer,
                secret: Seq::empty(),
                digits: 6,
                period: 30,
                algorithm: Algorithm::Sha1,
            },
            split_all(query, 38u8),
        );
        if st.secret.len() == 0 {
            None
        } else {
            Some(
                crate::storage::EntryModel {
                    issuer: st.issuer,
                    account: account,
                    secret: st.secret,
                    digits: st.digits,
                    period: st.period,
                    algorithm: st.algorithm,
                },
            )
        }
    }
}

/// The parameters of a link as they are gathered.
struct ParamState {
    issuer: Vec<char>,
    secret: Vec<char>,
    digits: u32,
    period: u64,
    algorithm: Algorithm,
}

impl ParamState {
    closed spec fn model(&self) -> LinkParams {
        LinkParams {
            issuer: self.issuer@,
            secret: self.secret@,
            digits: self.digits,
            period: self.period,
            algorithm: self.algorithm,
        }
    }
}

/// Whether `s[from..to]` equals `lit`.
fn bytes_equal(s: &[u8], from: usize, to: usize, lit: &[u8]) -> (r: bool)
    requires
        from <= to <= s@.len(),
    ensures
        r == (s@.subrange(from as int, to as int) == lit@),
{
    if to - from != lit.len() {
        return false;
    }
    let mut i: usize = 0;
    while i < lit.len()
        invariant
            to - from == lit@.len(),
            from <= to <= s@.len(),
            i <= lit@.len(),
            forall|j: int| 0 <= j < i ==> s@[from + j] == lit@[j],
        decreases lit@.len() - i,
    {
        if s[from + i] != lit[i] {
            assert(s@.subrange(from as int, to as int)[i as int] != lit@[i as int]);
            return false;
        }
        i = i + 1;
    }
    assert(s@.subrange(from as int, to as int) =~= lit@);
    true
}

/// Applies the pair `s[from..to]` to the gathered parameters.
fn apply_pair(st: &mut ParamState, s: &[u8], from: usize, to: usize)
    requires
        from <= to <= s@.len(),
    ensures
        final(st).model() == apply_param(old(st).model(), s@.subrange(from as int, to as int)),
{
    let ghost pair = s@.subrange(from as int, to as int);
    let eq = find_byte(s, from, to, 61);
    match eq {
        None => {},
        Some(e) => {
            proof {
                lemma_index_of(pair, 61u8);
                assert(pair.take(e - from) =~= s@.subrange(from as int, e as int));
                assert(pair.skip(e - from + 1) =~= s@.subrange(e + 1, to as int));
            }
            let raw = url_decode_bytes(s, e + 1, to);
            let text = from_utf8_lossy(raw.as_slice());
            let v = chars_of(text.as_str());
            let k_secret: [u8; 6] = [115, 101, 99, 114, 101, 116];
            let k_issuer: [u8; 6] = [105, 115, 115, 117, 101, 114];
            let k_digits: [u8; 6] = [100, 105, 103, 105, 116, 115];
            let k_period: [u8; 6] = [112, 101, 114, 105, 111, 100];
            let k_algorithm: [u8; 9] = [97, 108, 103, 111, 114, 105, 116, 104, 109];
            assert(k_secret@ =~= key_secret());
            assert(k_issuer@ =~= key_issuer());
            assert(k_digits@ =~= key_digits());
            assert(k_period@ =~= key_period());
            assert(k_algorithm@ =~= key_algorithm());
            if bytes_equal(s, from, e, k_secret.as_slice()) {
                st.secret = v;
            } else if bytes_equal(s, from, e, k_issuer.as_slice()) {
                if st.issuer.len() == 0 {
                    st.issuer = v;
                }
            } else if bytes_equal(s, from, e, k_digits.as_slice()) {
                st.digits =
                match parse_decimal(v.as_slice(), 0xffff_ffff) {
                    Some(x) => x as u32,
                    None => 6,
                };
            } else if bytes_equal(s, from, e, k_period.as_slice()) {
                st.period =
                match parse_decimal(v.as_slice(), 0xffff_ffff_ffff_ffff) {
                    Some(x) => x,
                    None => 30,
                };
            } else if bytes_equal(s, from, e, k_algorithm.as_slice()) {
                let u = to_ascii_upper(v.as_slice());
                let sha256: [char; 6] = ['S', 'H', 'A', '2', '5', '6'];
                let sha512: [char; 6] = ['S', 'H', 'A', '5', '1', '2'];
                assert(sha256@ =~= algorithm_label(Algorithm::Sha256));
                assert(sha512@ =~= algorithm_label(Algorithm::Sha512));
                st.algorithm =
                if chars_equal(u.as_slice(), sha256.as_slice()) {
                    Algorithm::Sha256
                } else if chars_equal(u.as_slice(), sha512.as_slice()) {
                    Algorithm::Sha512
                } else {
                    Algorithm::Sha1
                };
            }
        },
    }
}

/// Whether `b` begins with `otpauth://totp/`.
fn has_otpauth_prefix(b: &[u8]) -> (r: bool)
    ensures
        r == (b@.len() >= 15 && b@.take(15) == otpauth_prefix()),
{
    if b.len() < 15 {
        return false;
    }
    let prefix: [u8; 15] = [111, 116, 112, 97, 117, 116, 104, 58, 47, 47, 116, 111, 116, 112, 47];
    assert(prefix@ =~= otpauth_prefix());
    let r = bytes_equal(b, 0, 15, prefix.as_slice());
    assert(b@.subrange(0, 15) =~= b@.take(15));
    r
}

/// Parses an otpauth:// URI (from a QR code / manual import).
pub fn parse_otpauth(uri: &str) -> (r: Option<crate::storage::Entry>)
    ensures
        crate::storage::opt_entry(r) == otpauth_entry(uri@),
{
    let b = uri.as_bytes();
    let n = b.len();
    if !has_otpauth_prefix(b) {
        return None;
    }
    let ghost rest = b@.skip(15);
    assert(rest =~= b@.subrange(15, n as int));
    let q = find_byte(b, 15, n, 63);
    let (label_end, query_start) = match q {
        Some(i) => (i, i + 1),
        None => (n, n),
    };
    proof {
        lemma_index_of(rest, 63u8);
        if q is Some {
            assert(rest.take(label_end - 15) =~= b@.subrange(15, label_end as int));
            assert(rest.skip(label_end - 15 + 1) =~= b@.subrange(query_start as int, n as int));
        } else {
            assert(b@.subrange(query_start as int, n as int) =~= Seq::<u8>::empty());
        }
    }
    let label_raw = url_decode_bytes(b, 15, label_end);
    let label_text = from_utf8_lossy(label_raw.as_slice());
    let label = chars_of(label_text.as_str());
    let ln = label.len();
    let colon = find_char(label.as_slice(), ':');
    let (issuer0, account) = match colon {
        Some(i) => {
            let left = copy_chars(label.as_slice(), 0, i);
            let right = copy_chars(label.as_slice(), i + 1, ln);
            proof {
                assert(left@ =~= label@.take(i as int));
                assert(right@ =~= label@.skip(i + 1));
            }
            (trim_chars(left.as_slice()), trim_chars(right.as_slice()))
        },
        None => (Vec::new(), trim_chars(label.as_slice())),
    };
    let mut st = ParamState {
        issuer: issuer0,
        secret: Vec::new(),
        digits: 6,
        period: 30,
        algorithm: Algorithm::Sha1,
    };
    let ghost start = st.model();
    let ghost query = b@.subrange(query_start as int, n as int);
    let mut pos = query_start;
    loop
        invariant_except_break
            query_start <= pos <= n == b@.len(),
            query == b@.subrange(query_start as int, n as int),
            apply_params(start, split_all(query, 38u8)) == apply_params(
                st.model(),
                split_all(b@.subrange(pos as int, n as int), 38u8),
            ),
        ensures
            apply_params(start, split_all(query, 38u8)) == st.model(),
        decreases n - pos,
    {
        let ghost sub = b@.subrange(pos as int, n as int);
        let amp = find_byte(b, pos, n, 38);
        let seg_end = match amp {
            Some(i) => i,
            None => n,
        };
        let ghost before = st.model();
        apply_pair(&mut st, b, pos, seg_end);
        match amp {
            Some(i) => {
                proof {
                    lemma_index_of(sub, 38u8);
                    let segs = split_all(sub, 38u8);
                    assert(sub.take(i - pos) =~= b@.subrange(pos as int, i as int));
                    assert(sub.skip(i - pos + 1) =~= b@.subrange(i + 1, n as int));
                    assert(segs[0] == b@.subrange(pos as int, i as int));
                    assert(segs.drop_first() =~= split_all(b@.subrange(i + 1, n as int), 38u8));
                }
                pos = i + 1;
            },
            None => {
                proof {
                    assert(sub =~= b@.subrange(pos as int, n as int));
                    let segs = split_all(sub, 38u8);
                    assert(segs =~= seq![sub]);
                    assert(segs.drop_first() =~= Seq::<Seq<u8>>::empty());
                    assert(segs[0] == sub);
                    assert(apply_params(before, segs) == apply_params(
                        apply_param(before, sub),
                        segs.drop_first(),
                    ));
                    assert(apply_params(apply_param(before, sub), Seq::<Seq<u8>>::empty())
                        == apply_param(before, sub));
                }
                break ;
            },
        }
    }
    proof {
        let label_part = b@.subrange(15, label_end as int);
        assert(label@ == utf8_text(url_decoded(label_part)));
        lemma_index_of(label@, ':');
        if colon is None {
            assert(issuer0@ =~= Seq::<char>::empty());
        }
        assert(start == LinkParams {
            issuer: issuer0@,
            secret: Seq::empty(),
            digits: 6,
            period: 30,
            algorithm: Algorithm::Sha1,
        });
    }
    if st.secret.len() == 0 {
        return None;
    }
    Some(
        crate::storage::Entry {
            issuer: string_from_chars(st.issuer.as_slice()),
            account: string_from_chars(account.as_slice()),
            secret: string_from_chars(st.secret.as_slice()),
            digits: st.digits,
            period: st.period,
            algorithm: st.algorithm,
        },
    )
}

/// Normalising a secret piece by piece gives the same as normalising it
/// whole.
pub proof fn lemma_clean_secret_concat(a: Seq<char>, b: Seq<char>)
    ensures
        clean_secret(a + b) == clean_secret(a) + clean_secret(b),
    decreases b.len(),
{
    if b.len() == 0 {
        assert(a + b =~= a);
        assert(clean_secret(a) + clean_secret(b) =~= clean_secret(a));
    } else {
        lemma_clean_secret_concat(a, b.drop_last());
        assert((a + b).drop_last() =~= a + b.drop_last());
        assert((a + b).last() == b.last());
        if !is_white_space(b.last()) {
            assert(clean_secret(a) + clean_secret(b.drop_last()).push(ascii_upper(b.last()))
                =~= (clean_secret(a) + clean_secret(b.drop_last())).push(ascii_upper(b.last())));
        }
    }
}

/// Upper-casing after lower-casing forgets the lower-casing, and
/// lower-casing keeps white space apart from everything else.
pub proof fn lemma_ascii_lower_then_upper(c: char)
    ensures
        ascii_upper(ascii_lower(c)) == ascii_upper(c),
        is_white_space(ascii_lower(c)) == is_white_space(c),
{
    if 65 <= (c as u32) <= 90 {
        let l = ascii_lower(c);
        assert(l as u32 == (c as u32) + 32);
        assert(ascii_upper(l) as u32 == c as u32);
    }
}

/// White space anywhere in a typed-in secret does not change the key.
pub proof fn lemma_secret_ignores_white_space(a: Seq<char>, b: Seq<char>, w: char)
    requires
        is_white_space(w),
    ensures
        secret_key(a + seq![w] + b) == secret_key(a + b),
{
    lemma_clean_secret_concat(a + seq![w], b);
    lemma_clean_secret_concat(a, seq![w]);
    lemma_clean_secret_concat(a, b);
    assert(seq![w].drop_last() =~= Seq::<char>::empty());
    assert(seq![w].last() == w);
    assert(clean_secret(Seq::<char>::empty()) =~= Seq::<char>::empty());
    assert(clean_secret(seq![w]) =~= Seq::<char>::empty());
    assert(clean_secret(a) + Seq::<char>::empty() =~= clean_secret(a));
}

/// Lower-case letters in a typed-in secret give the same key as upper-case
/// ones.
pub proof fn lemma_secret_ignores_case(s: Seq<char>)
    ensures
        secret_key(lower_all(s)) == secret_key(s),
{
    lemma_clean_secret_lower(s);
}

/// Lower-casing a secret does not change its normal form.
pub proof fn lemma_clean_secret_lower(s: Seq<char>)
    ensures
        clean_secret(lower_all(s)) == clean_secret(s),
    decreases s.len(),
{
    if s.len() > 0 {
        lemma_clean_secret_lower(s.drop_last());
        assert(lower_all(s).drop_last() =~= lower_all(s.drop_last()));
        assert(lower_all(s).last() == ascii_lower(s.last()));
        lemma_ascii_lower_then_upper(s.last());
    } else {
        assert(lower_all(s) =~= s);
    }
}

/// The upper-case hexadecimal digit for a value below sixteen.
pub open spec fn hex_upper_digit(d: u8) -> u8 {
    if d < 10 {
        (48 + d) as u8
    } else {
        (55 + d) as u8
    }
}

/// Every byte written as `%` and two upper-case hexadecimal digits.
pub open spec fn percent_encoded(data: Seq<u8>) -> Seq<u8>
    decreases data.len(),
{
    if data.len() == 0 {
        Seq::empty()
    } else {
        seq![37u8, hex_upper_digit(data[0] / 16), hex_upper_digit(data[0] % 16)]
            + percent_encoded(data.skip(1))
    }
}

/// Percent-decoding gives back any bytes that were fully percent-encoded.
pub proof fn lemma_url_decode_inverts_percent_encoding(data: Seq<u8>)
    ensures
        url_decoded(percent_encoded(data)) == data,
    decreases data.len(),
{
    if data.len() > 0 {
        let e = percent_encoded(data);
        let d = data[0];
        lemma_url_decode_inverts_percent_encoding(data.skip(1));
        assert(e[0] == 37u8);
        assert(e[1] == hex_upper_digit(d / 16));
        assert(e[2] == hex_upper_digit(d % 16));
        assert(e.skip(3) =~= percent_encoded(data.skip(1)));
        assert(hex_digit_value(e[1]) == Some((d / 16) as u8));
        assert(hex_digit_value(e[2]) == Some((d % 16) as u8));
        assert((d / 16) * 16 + d % 16 == d);
        assert(url_decoded(e) =~= seq![d] + data.skip(1));
        assert(seq![d] + data.skip(1) =~= data);
    } else {
        assert(percent_encoded(data) =~= Seq::<u8>::empty());
        assert(url_decoded(Seq::<u8>::empty()) =~= data);
    }
}

/// Text without `%` and `+` is left as it is by percent-decoding.
pub proof fn lemma_url_decode_plain(s: Seq<u8>)
    requires
        forall|i: int| 0 <= i < s.len() ==> s[i] != 37u8 && s[i] != 43u8,
    ensures
        url_decoded(s) == s,
    decreases s.len(),
{
    if s.len() > 0 {
        lemma_url_decode_plain(s.skip(1));
        assert(seq![s[0]] + s.skip(1) =~= s);
    } else {
        assert(url_decoded(s) =~= s);
    }
}

/// Once a link's issuer is known (from its label, or from an earlier
/// `issuer` pair), no later pair changes it.
pub proof fn lemma_known_issuer_kept(st: LinkParams, pairs: Seq<Seq<u8>>)
    requires
        st.issuer.len() > 0,
    ensures
        apply_params(st, pairs).issuer == st.issuer,
    decreases pairs.len(),
{
    if pairs.len() > 0 {
        let next = apply_param(st, pairs[0]);
        assert(next.issuer == st.issuer);
        lemma_known_issuer_kept(next, pairs.drop_first());
    }
}

/// The lower-case hexadecimal digit for a value below sixteen.
pub open spec fn hex_lower_digit(d: u8) -> u8 {
    if d < 10 {
        (48 + d) as u8
    } else {
        (87 + d) as u8
    }
}

/// Every byte written as `%` and two lower-case hexadecimal digits.
pub open spec fn percent_encoded_lower(data: Seq<u8>) -> Seq<u8>
    decreases data.len(),
{
    if data.len() == 0 {
        Seq::empty()
    } else {
        seq![37u8, hex_lower_digit(data[0] / 16), hex_lower_digit(data[0] % 16)]
            + percent_encoded_lower(data.skip(1))
    }
}

/// Percent-decoding also gives back bytes written with lower-case
/// hexadecimal digits.
pub proof fn lemma_url_decode_inverts_lower_percent_encoding(data: Seq<u8>)
    ensures
        url_decoded(percent_encoded_lower(data)) == data,
    decreases data.len(),
{
    if data.len() > 0 {
        let e = percent_encoded_lower(data);
        let d = data[0];
        lemma_url_decode_inverts_lower_percent_encoding(data.skip(1));
        assert(e[0] == 37u8);
        assert(e[1] == hex_lower_digit(d / 16));
        assert(e[2] == hex_lower_digit(d % 16));
        assert(e.skip(3) =~= percent_encoded_lower(data.skip(1)));
        assert(hex_digit_value(e[1]) == Some((d / 16) as u8));
        assert(hex_digit_value(e[2]) == Some((d % 16) as u8));
        assert((d / 16) * 16 + d % 16 == d);
        assert(url_decoded(e) =~= seq![d] + data.skip(1));
        assert(seq![d] + data.skip(1) =~= data);
    } else {
        assert(percent_encoded_lower(data) =~= Seq::<u8>::empty());
        assert(url_decoded(Seq::<u8>::empty()) =~= data);
    }
}

/// `url_decode` gives back any text whose UTF-8 bytes were all
/// percent-encoded, with upper- or lower-case hexadecimal digits.
pub proof fn lemma_url_decode_text_round_trip(t: Seq<char>)
    ensures
        utf8_text(url_decoded(percent_encoded(encode_utf8(t)))) == t,
        utf8_text(url_decoded(percent_encoded_lower(encode_utf8(t)))) == t,
{
    lemma_url_decode_inverts_percent_encoding(encode_utf8(t));
    lemma_url_decode_inverts_lower_percent_encoding(encode_utf8(t));
    encode_utf8_valid_utf8(t);
    encode_utf8_decode_utf8(t);
}

/// Powers of ten multiply by adding exponents.
pub proof fn lemma_pow10_add(a: nat, b: nat)
    ensures
        pow10(a + b) == pow10(a) * pow10(b),
    decreases a,
{
    if a > 0 {
        lemma_pow10_add((a - 1) as nat, b);
        assert((a + b - 1) as nat == ((a - 1) as nat + b) as nat);
        assert(pow10(a + b) == 10 * pow10(((a - 1) as nat + b) as nat));
        assert(pow10(a) * pow10(b) == 10 * (pow10((a - 1) as nat) * pow10(b))) by (nonlinear_arith)
            requires
                pow10(a) == 10 * pow10((a - 1) as nat),
        ;
    } else {
        assert(pow10(0) == 1);
        assert(a + b == b);
    }
}

/// Powers of ten are positive.
pub proof fn lemma_pow10_positive(n: nat)
    ensures
        pow10(n) > 0,
    decreases n,
{
    if n > 0 {
        lemma_pow10_positive((n - 1) as nat);
    }
}

/// A number below ten to the `w`, zero-padded to `w` characters, has at
/// position `i` the digit of `n` worth ten to the `w - 1 - i`.
pub proof fn lemma_zero_padded_digits(n: nat, w: nat)
    requires
        w >= 1,
        n < pow10(w),
    ensures
        zero_padded(n, w).len() == w,
        forall|i: int|
            0 <= i < w ==> #[trigger] zero_padded(n, w)[i] == digit_char(
                (n / pow10((w - 1 - i) as nat)) % 10,
            ),
    decreases w,
{
    lemma_decimal_shape(n, w);
    let z = zero_padded(n, w);
    if n < 10 {
        assert(decimal(n) =~= seq![digit_char(n)]);
        assert forall|i: int| 0 <= i < w implies #[trigger] z[i] == digit_char(
            (n / pow10((w - 1 - i) as nat)) % 10,
        ) by {
            let e = (w - 1 - i) as nat;
            if w > 1 {
                assert(z =~= Seq::new((w - 1) as nat, |k: int| '0') + seq![digit_char(n)]);
            }
            if i < w - 1 {
                lemma_pow10_grows(e);
                assert(n / pow10(e) == 0) by (nonlinear_arith)
                    requires
                        n < 10,
                        pow10(e) >= 10,
                ;
                assert(z[i] == '0');
                assert(digit_char(0) == '0');
                assert(0nat % 10 == 0);
                assert((n / pow10(e)) % 10 == 0);
                assert(z[i] == digit_char((n / pow10(e)) % 10));
            } else {
                assert(pow10(0) == 1);
                assert(e == 0);
                assert(z[i] == digit_char(n));
                assert(n / pow10(e) == n);
                assert(n % 10 == n);
                assert(z[i] == digit_char((n / pow10(e)) % 10));
            }
        }
    } else {
        let m = n / 10;
        let w1 = (w - 1) as nat;
        if w == 1 {
            assert(pow10(1) == 10) by {
                assert(pow10(0) == 1);
            }
        }
        assert(pow10(w) == 10 * pow10(w1));
        assert(m < pow10(w1)) by (nonlinear_arith)
            requires
                n < 10 * pow10(w1),
                m == n / 10,
        ;
        lemma_zero_padded_digits(m, w1);
        lemma_decimal_shape(m, w1);
        let zm = zero_padded(m, w1);
        assert(decimal(n) == decimal(m).push(digit_char(n % 10)));
        assert(z =~= zm.push(digit_char(n % 10)));
        assert forall|i: int| 0 <= i < w implies #[trigger] z[i] == digit_char(
            (n / pow10((w - 1 - i) as nat)) % 10,
        ) by {
            if i < w - 1 {
                let k = (w1 - 1 - i) as nat;
                assert(z[i] == zm[i]);
                lemma_pow10_positive(k);
                vstd::arithmetic::div_mod::lemma_div_denominator(n as int, 10, pow10(k) as int);
                assert(pow10((w - 1 - i) as nat) == 10 * pow10(k));
                assert(zm[i] == digit_char((m / pow10(k)) % 10));
                assert(m / pow10(k) == n / (10 * pow10(k)));
                assert(z[i] == digit_char((n / pow10((w - 1 - i) as nat)) % 10));
            } else {
                assert(pow10(0) == 1);
                assert(z[i] == digit_char(n % 10));
                assert((w - 1 - i) as nat == 0);
                assert(n / pow10(0) == n);
                assert(z[i] == digit_char((n / pow10((w - 1 - i) as nat)) % 10));
            }
        }
    }
}

/// The digit of `t mod 10^d` worth `10^k`, for `k` below `d`, is the digit
/// of `t` worth `10^k`.
pub proof fn lemma_digit_of_remainder(t: nat, d: nat, k: nat)
    requires
        k < d,
    ensures
        ((t % pow10(d)) / pow10(k)) % 10 == (t / pow10(k)) % 10,
{
    let y = pow10(k);
    let z = pow10((d - k) as nat);
    lemma_pow10_positive(k);
    lemma_pow10_positive((d - k) as nat);
    lemma_pow10_add(k, (d - k) as nat);
    assert(pow10(d) == y * z);
    vstd::arithmetic::div_mod::lemma_mod_breakdown(t as int, y as int, z as int);
    let q = (t / y) % z;
    let r = t % y;
    vstd::arithmetic::div_mod::lemma_fundamental_div_mod_converse(
        (t % (y * z)) as int,
        y as int,
        q as int,
        r as int,
    );
    assert((t % pow10(d)) / y == q);
    let z1 = pow10((d - k - 1) as nat);
    assert(z == 10 * z1) by {
        assert(((d - k) as nat) == ((d - k - 1) as nat) + 1);
    }
    lemma_pow10_positive((d - k - 1) as nat);
    vstd::arithmetic::div_mod::lemma_mod_mod((t / y) as int, 10, z1 as int);
}

/// A shorter code is the tail of a longer one: for the same key, period,
/// algorithm and time, the `d1`-digit code is the last `d1` characters of
/// the `d2`-digit code.
pub proof fn lemma_shorter_code_is_tail(
    key: Seq<u8>,
    period: u64,
    d1: nat,
    d2: nat,
    algo: Algorithm,
    unix_time: u64,
)
    requires
        1 <= d1 <= d2 <= 9,
    ensures
        totp_code(key, period, d1, algo, unix_time) == totp_code(
            key,
            period,
            d2,
            algo,
            unix_time,
        ).skip(d2 - d1),
{
    let counter = (unix_time as nat / effective_period(period)) as u64;
    let t = dynamic_truncation(hmac_tag(algo, key, u64_be_bytes(counter)));
    let n1 = t % pow10(d1);
    let n2 = t % pow10(d2);
    lemma_pow10_positive(d1);
    lemma_pow10_positive(d2);
    lemma_zero_padded_digits(n1, d1);
    lemma_zero_padded_digits(n2, d2);
    let c1 = zero_padded(n1, d1);
    let c2 = zero_padded(n2, d2);
    assert forall|j: int| 0 <= j < d1 implies c1[j] == c2.skip(d2 - d1)[j] by {
        let k = (d1 - 1 - j) as nat;
        assert(c2.skip(d2 - d1)[j] == c2[j + (d2 - d1)]);
        assert((d2 - 1 - (j + (d2 - d1))) as nat == k);
        lemma_digit_of_remainder(t, d1, k);
        lemma_digit_of_remainder(t, d2, k);
    }
    assert(c1 =~= c2.skip(d2 - d1));
}

} // verus!
