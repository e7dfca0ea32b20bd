//! The round trip of `otpauth://totp/` links: a link written from an
//! account's fields, with the label and the secret percent-encoded, reads
//! back as that account.

use crate::storage::EntryModel;
use crate::text::{
    ascii_upper, digits_value, lemma_index_of, parse_unsigned, split_all, split_once, trim,
    unsigned_body, upper_all,
};
use crate::totp::{
    algorithm_label, algorithm_named, apply_param, apply_params, decimal, digit_char,
    hex_digit_value, hex_upper_digit, key_algorithm, key_digits, key_issuer, key_period,
    key_secret, lemma_decimal_shape, lemma_url_decode_text_round_trip, otpauth_entry,
    otpauth_prefix, percent_encoded, url_decoded, utf8_text, Algorithm, LinkParams,
};
use vstd::prelude::*;
use vstd::utf8::*;

verus! {

/// Whether every byte of `b` is an ASCII letter or digit.
pub open spec fn alnum_bytes(b: Seq<u8>) -> bool {
    forall|k: int|
        0 <= k < b.len() ==> (48 <= #[trigger] b[k] <= 57 || 65 <= b[k] <= 90 || 97 <= b[k]
            <= 122)
}

/// Whether every byte of `b` is an ASCII letter, a digit or `%`.
pub open spec fn pct_bytes(b: Seq<u8>) -> bool {
    forall|k: int|
        0 <= k < b.len() ==> (#[trigger] b[k] == 37 || 48 <= b[k] <= 57 || 65 <= b[k] <= 90 || 97
            <= b[k] <= 122)
}

/// Whether every byte of `b` is ASCII.
pub open spec fn ascii_bytes(b: Seq<u8>) -> bool {
    forall|k: int| 0 <= k < b.len() ==> #[trigger] b[k] < 128
}

/// The characters whose codes are the ASCII bytes `b`.
pub open spec fn ascii_text(b: Seq<u8>) -> Seq<char> {
    b.map_values(|x: u8| x as char)
}

/// Text made of ASCII bytes encodes back to those bytes.
pub proof fn lemma_ascii_text_encodes(b: Seq<u8>)
    requires
        ascii_bytes(b),
    ensures
        encode_utf8(ascii_text(b)) == b,
{
    let t = ascii_text(b);
    assert forall|k: int| 0 <= k < t.len() implies '\0' <= #[trigger] t[k] <= '\u{7f}' by {
        assert(t[k] == b[k] as char);
    }
    is_ascii_chars_encode_utf8(t);
    assert forall|k: int| 0 <= k < b.len() implies encode_utf8(t)[k] == b[k] by {
        assert(t[k] == b[k] as char);
        assert(t[k] as u8 == encode_utf8(t)[k]);
    }
    assert(encode_utf8(t) =~= b);
}

/// Percent-encoded bytes are `%` and upper-case hexadecimal digits.
pub proof fn lemma_percent_encoded_bytes(x: Seq<u8>)
    ensures
        pct_bytes(percent_encoded(x)),
        percent_encoded(x).len() == 3 * x.len(),
    decreases x.len(),
{
    if x.len() > 0 {
        lemma_percent_encoded_bytes(x.skip(1));
        let e = percent_encoded(x);
        let r = percent_encoded(x.skip(1));
        assert forall|k: int| 0 <= k < e.len() implies (#[trigger] e[k] == 37 || 48 <= e[k] <= 57
            || 65 <= e[k] <= 90 || 97 <= e[k] <= 122) by {
            if k >= 3 {
                assert(e[k] == r[k - 3]);
            }
        }
    }
}

/// Percent-decoding reads a fully percent-encoded run back and goes on
/// with what follows it.
pub proof fn lemma_url_decoded_after_percent(x: Seq<u8>, y: Seq<u8>)
    ensures
        url_decoded(percent_encoded(x) + y) == x + url_decoded(y),
    decreases x.len(),
{
    if x.len() > 0 {
        let e = percent_encoded(x) + y;
        let d = x[0];
        lemma_url_decoded_after_percent(x.skip(1), y);
        assert(e[0] == 37u8);
        assert(e[1] == hex_upper_digit(d / 16));
        assert(e[2] == hex_upper_digit(d % 16));
        assert(e.skip(3) =~= percent_encoded(x.skip(1)) + y);
        assert(hex_digit_value(e[1]) == Some((d / 16) as u8));
        assert(hex_digit_value(e[2]) == Some((d % 16) as u8));
        assert((d / 16) * 16 + d % 16 == d);
        assert(url_decoded(e) =~= seq![d] + (x.skip(1) + url_decoded(y)));
        assert(seq![d] + (x.skip(1) + url_decoded(y)) =~= x + url_decoded(y));
    } else {
        assert(percent_encoded(x) =~= Seq::<u8>::empty());
        assert(percent_encoded(x) + y =~= y);
        assert(x + url_decoded(y) =~= url_decoded(y));
    }
}

/// Percent-decoding keeps letters and digits as they are.
pub proof fn lemma_url_decoded_alnum(x: Seq<u8>)
    requires
        alnum_bytes(x),
    ensures
        url_decoded(x) == x,
    decreases x.len(),
{
    if x.len() > 0 {
        assert(alnum_bytes(x.skip(1))) by {
            assert forall|k: int| 0 <= k < x.skip(1).len() implies (48 <= #[trigger] x.skip(
                1,
            )[k] <= 57 || 65 <= x.skip(1)[k] <= 90 || 97 <= x.skip(1)[k] <= 122) by {
                assert(x.skip(1)[k] == x[k + 1]);
            }
        }
        lemma_url_decoded_alnum(x.skip(1));
        assert(48 <= x[0] <= 57 || 65 <= x[0] <= 90 || 97 <= x[0] <= 122);
        assert(seq![x[0]] + x.skip(1) =~= x);
    } else {
        assert(url_decoded(x) =~= x);
    }
}

/// Splitting at the first `x` of `a + [x] + b`, where `a` has no `x`.
pub proof fn lemma_split_once_at<T>(a: Seq<T>, x: T, b: Seq<T>)
    requires
        forall|k: int| 0 <= k < a.len() ==> #[trigger] a[k] != x,
    ensures
        split_once(a + seq![x] + b, x) == Some((a, b)),
{
    let s = a + seq![x] + b;
    assert(s[a.len() as int] == x);
    assert forall|k: int| 0 <= k < a.len() implies s[k] != x by {
        assert(s[k] == a[k]);
    }
    crate::text::lemma_index_of_unique(s, x, a.len() as int);
    assert(s.take(a.len() as int) =~= a);
    assert(s.skip(a.len() as int + 1) =~= b);
}

/// Splitting `a + [x] + b` at every `x`, where `a` has no `x`.
pub proof fn lemma_split_all_at<T>(a: Seq<T>, x: T, b: Seq<T>)
    requires
        forall|k: int| 0 <= k < a.len() ==> #[trigger] a[k] != x,
    ensures
        split_all(a + seq![x] + b, x) == seq![a] + split_all(b, x),
{
    let s = a + seq![x] + b;
    assert(s[a.len() as int] == x);
    assert forall|k: int| 0 <= k < a.len() implies s[k] != x by {
        assert(s[k] == a[k]);
    }
    crate::text::lemma_index_of_unique(s, x, a.len() as int);
    assert(s.take(a.len() as int) =~= a);
    assert(s.skip(a.len() as int + 1) =~= b);
}

/// A sequence without `x` is one piece.
pub proof fn lemma_split_all_none<T>(a: Seq<T>, x: T)
    requires
        forall|k: int| 0 <= k < a.len() ==> #[trigger] a[k] != x,
    ensures
        split_all(a, x) == seq![a],
{
    lemma_index_of(a, x);
}

/// Text made of ASCII letters and digits: its UTF-8 bytes are letters and
/// digits, one per character.
pub proof fn lemma_alnum_text_bytes(t: Seq<char>)
    requires
        forall|k: int|
            0 <= k < t.len() ==> (48 <= #[trigger] (t[k] as u32) <= 57 || 65 <= (t[k] as u32)
                <= 90 || 97 <= (t[k] as u32) <= 122),
    ensures
        alnum_bytes(encode_utf8(t)),
        encode_utf8(t).len() == t.len(),
{
    assert forall|k: int| 0 <= k < t.len() implies '\0' <= #[trigger] t[k] <= '\u{7f}' by {
        let u = t[k] as u32;
        char_u32_cast(t[k], u);
        assert(48 <= u <= 57 || 65 <= u <= 90 || 97 <= u <= 122);
        assert((u as char) == t[k]);
    }
    is_ascii_chars_encode_utf8(t);
    let e = encode_utf8(t);
    assert forall|k: int| 0 <= k < e.len() implies (48 <= #[trigger] e[k] <= 57 || 65 <= e[k]
        <= 90 || 97 <= e[k] <= 122) by {
        assert(t[k] as u8 == e[k]);
        assert(48 <= (t[k] as u32) <= 57 || 65 <= (t[k] as u32) <= 90 || 97 <= (t[k] as u32)
            <= 122);
    }
}

/// The decimal digits of `n` spell `n`.
pub proof fn lemma_decimal_value(n: nat)
    ensures
        digits_value(decimal(n)) == n,
    decreases n,
{
    let d = decimal(n);
    if n < 10 {
        assert(d.drop_last() =~= Seq::<char>::empty());
        assert(digits_value(d.drop_last()) == 0);
        assert(d.last() == digit_char(n));
        assert((digit_char(n) as u32) == 48 + n);
    } else {
        lemma_decimal_value(n / 10);
        assert(d.drop_last() =~= decimal(n / 10));
        assert(d.last() == digit_char(n % 10));
        assert((digit_char(n % 10) as u32) == 48 + n % 10);
        assert((n / 10) * 10 + n % 10 == n);
    }
}

/// `str::parse` reads the decimal digits of a number back as that number.
pub proof fn lemma_parse_decimal(n: nat, max: nat)
    requires
        n <= max,
    ensures
        parse_unsigned(decimal(n), max) == Some(n),
{
    lemma_decimal_shape(n, 0);
    lemma_decimal_value(n);
    let d = decimal(n);
    assert(48 <= (d[0] as u32) <= 57);
    assert(unsigned_body(d) == d);
}

/// The UTF-8 bytes of a number's decimal digits are digits.
pub proof fn lemma_decimal_bytes(n: nat)
    ensures
        alnum_bytes(encode_utf8(decimal(n))),
{
    lemma_decimal_shape(n, 0);
    let d = decimal(n);
    assert forall|k: int| 0 <= k < d.len() implies (48 <= #[trigger] (d[k] as u32) <= 57 || 65
        <= (d[k] as u32) <= 90 || 97 <= (d[k] as u32) <= 122) by {
        assert(48 <= (d[k] as u32) <= 57);
    }
    lemma_alnum_text_bytes(d);
}

/// An algorithm's name is letters and digits, and it names that algorithm.
pub proof fn lemma_algorithm_label_named(a: Algorithm)
    ensures
        alnum_bytes(encode_utf8(algorithm_label(a))),
        algorithm_named(algorithm_label(a)) == a,
{
    let l = algorithm_label(a);
    assert forall|k: int| 0 <= k < l.len() implies (48 <= #[trigger] (l[k] as u32) <= 57 || 65
        <= (l[k] as u32) <= 90 || 97 <= (l[k] as u32) <= 122) by {
        match a {
            Algorithm::Sha1 => {},
            Algorithm::Sha256 => {},
            Algorithm::Sha512 => {},
        }
    }
    lemma_alnum_text_bytes(l);
    assert(upper_all(l) =~= l) by {
        assert forall|k: int| 0 <= k < l.len() implies #[trigger] ascii_upper(l[k]) == l[k] by {
            match a {
                Algorithm::Sha1 => {},
                Algorithm::Sha256 => {},
                Algorithm::Sha512 => {},
            }
        }
    }
    match a {
        Algorithm::Sha1 => {
            assert(l.len() != algorithm_label(Algorithm::Sha256).len());
            assert(l.len() != algorithm_label(Algorithm::Sha512).len());
        },
        Algorithm::Sha256 => {},
        Algorithm::Sha512 => {
            assert(l[3] != algorithm_label(Algorithm::Sha256)[3]);
        },
    }
}

/// UTF-8 encoding goes piece by piece.
pub proof fn lemma_encode_utf8_concat(a: Seq<char>, b: Seq<char>)
    ensures
        encode_utf8(a + b) == encode_utf8(a) + encode_utf8(b),
    decreases a.len(),
{
    if a.len() == 0 {
        assert(a + b =~= b);
        assert(encode_utf8(a) =~= Seq::<u8>::empty());
        assert(encode_utf8(a) + encode_utf8(b) =~= encode_utf8(b));
    } else {
        lemma_encode_utf8_concat(a.drop_first(), b);
        assert((a + b).drop_first() =~= a.drop_first() + b);
        assert((a + b)[0] == a[0]);
        assert(encode_utf8(a + b) =~= encode_scalar(a[0] as u32) + (encode_utf8(a.drop_first())
            + encode_utf8(b)));
    }
}

/// ASCII runs join to an ASCII run.
pub proof fn lemma_ascii_bytes_concat(a: Seq<u8>, b: Seq<u8>)
    requires
        ascii_bytes(a),
        ascii_bytes(b),
    ensures
        ascii_bytes(a + b),
{
    assert forall|k: int| 0 <= k < (a + b).len() implies #[trigger] (a + b)[k] < 128 by {
        if k < a.len() {
            assert((a + b)[k] == a[k]);
        } else {
            assert((a + b)[k] == b[k - a.len()]);
        }
    }
}

/// One `name=value` pair of a link's query.
pub open spec fn query_pair(name: Seq<u8>, value: Seq<u8>) -> Seq<u8> {
    name + seq![61u8] + value
}

/// The query of a link written from an account's fields: the secret
/// percent-encoded, the number of digits, the period and the algorithm.
pub open spec fn link_query(secret: Seq<char>, digits: u32, period: u64, algo: Algorithm) -> Seq<
    u8,
> {
    query_pair(key_secret(), percent_encoded(encode_utf8(secret))) + seq![38u8] + (query_pair(
        key_digits(),
        encode_utf8(decimal(digits as nat)),
    ) + seq![38u8] + (query_pair(key_period(), encode_utf8(decimal(period as nat))) + seq![38u8]
        + query_pair(key_algorithm(), encode_utf8(algorithm_label(algo)))))
}

/// The label of a link written from an issuer and an account: both
/// percent-encoded, joined by `:`.
pub open spec fn link_label(issuer: Seq<char>, account: Seq<char>) -> Seq<u8> {
    percent_encoded(encode_utf8(issuer)) + seq![58u8] + percent_encoded(encode_utf8(account))
}

/// The UTF-8 bytes of the link written from an account's fields:
/// `otpauth://totp/ISSUER:ACCOUNT?secret=SECRET&digits=D&period=P&algorithm=A`,
/// with issuer, account and secret percent-encoded byte by byte.
pub open spec fn otpauth_link_bytes(
    issuer: Seq<char>,
    account: Seq<char>,
    secret: Seq<char>,
    digits: u32,
    period: u64,
    algo: Algorithm,
) -> Seq<u8> {
    otpauth_prefix() + (link_label(issuer, account) + seq![63u8] + link_query(
        secret,
        digits,
        period,
        algo,
    ))
}

/// The text of that link.
pub open spec fn otpauth_link(
    issuer: Seq<char>,
    account: Seq<char>,
    secret: Seq<char>,
    digits: u32,
    period: u64,
    algo: Algorithm,
) -> Seq<char> {
    ascii_text(otpauth_link_bytes(issuer, account, secret, digits, period, algo))
}

/// The parameter names are lower-case letters, and no two are equal.
pub proof fn lemma_parameter_names()
    ensures
        alnum_bytes(key_secret()),
        alnum_bytes(key_issuer()),
        alnum_bytes(key_digits()),
        alnum_bytes(key_period()),
        alnum_bytes(key_algorithm()),
        key_digits() != key_secret(),
        key_digits() != key_issuer(),
        key_period() != key_secret(),
        key_period() != key_issuer(),
        key_period() != key_digits(),
        key_algorithm() != key_secret(),
        key_algorithm() != key_issuer(),
        key_algorithm() != key_digits(),
        key_algorithm() != key_period(),
        ascii_bytes(otpauth_prefix()),
        otpauth_prefix().len() == 15,
{
    assert(key_digits()[0] != key_secret()[0]);
    assert(key_digits()[0] != key_issuer()[0]);
    assert(key_period()[0] != key_secret()[0]);
    assert(key_period()[0] != key_issuer()[0]);
    assert(key_period()[0] != key_digits()[0]);
    assert(key_algorithm()[0] != key_secret()[0]);
    assert(key_algorithm()[0] != key_issuer()[0]);
    assert(key_algorithm()[0] != key_digits()[0]);
    assert(key_algorithm()[0] != key_period()[0]);
}

/// A pair whose name is letters and whose value is letters, digits and `%`
/// has no `&`, and splits at its `=` into name and value.
pub proof fn lemma_query_pair_pieces(name: Seq<u8>, value: Seq<u8>)
    requires
        alnum_bytes(name),
        pct_bytes(value),
    ensures
        forall|k: int|
            0 <= k < query_pair(name, value).len() ==> #[trigger] query_pair(name, value)[k]
                != 38u8 && query_pair(name, value)[k] < 128,
        split_once(query_pair(name, value), 61u8) == Some((name, value)),
{
    let q = query_pair(name, value);
    assert forall|k: int| 0 <= k < q.len() implies #[trigger] q[k] != 38u8 && q[k] < 128 by {
        if k < name.len() {
            assert(q[k] == name[k]);
        } else if k == name.len() {
            assert(q[k] == 61u8);
        } else {
            assert(q[k] == value[k - name.len() - 1]);
        }
    }
    assert forall|k: int| 0 <= k < name.len() implies #[trigger] name[k] != 61u8 by {}
    lemma_split_once_at(name, 61u8, value);
}

/// What text encoded to UTF-8 and left as it is by percent-decoding reads
/// back as.
pub proof fn lemma_alnum_value(t: Seq<char>)
    requires
        alnum_bytes(encode_utf8(t)),
    ensures
        utf8_text(url_decoded(encode_utf8(t))) == t,
{
    lemma_url_decoded_alnum(encode_utf8(t));
    encode_utf8_valid_utf8(t);
    encode_utf8_decode_utf8(t);
}

/// The query of a link written from an account's fields sets that secret,
/// number of digits, period and algorithm, and leaves the issuer alone.
pub proof fn lemma_link_query_params(
    st: LinkParams,
    secret: Seq<char>,
    digits: u32,
    period: u64,
    algo: Algorithm,
)
    ensures
        apply_params(st, split_all(link_query(secret, digits, period, algo), 38u8)) == (LinkParams {
            issuer: st.issuer,
            secret: secret,
            digits: digits,
            period: period,
            algorithm: algo,
        }),
{
    lemma_parameter_names();
    let es = encode_utf8(secret);
    let ps = percent_encoded(es);
    lemma_percent_encoded_bytes(es);
    let dd = encode_utf8(decimal(digits as nat));
    lemma_decimal_bytes(digits as nat);
    let dp = encode_utf8(decimal(period as nat));
    lemma_decimal_bytes(period as nat);
    let al = encode_utf8(algorithm_label(algo));
    lemma_algorithm_label_named(algo);
    let p1 = query_pair(key_secret(), ps);
    let p2 = query_pair(key_digits(), dd);
    let p3 = query_pair(key_period(), dp);
    let p4 = query_pair(key_algorithm(), al);
    lemma_query_pair_pieces(key_secret(), ps);
    lemma_query_pair_pieces(key_digits(), dd);
    lemma_query_pair_pieces(key_period(), dp);
    lemma_query_pair_pieces(key_algorithm(), al);
    let r2 = p3 + seq![38u8] + p4;
    let r1 = p2 + seq![38u8] + r2;
    assert(link_query(secret, digits, period, algo) == p1 + seq![38u8] + r1);
    lemma_split_all_at(p1, 38u8, r1);
    lemma_split_all_at(p2, 38u8, r2);
    lemma_split_all_at(p3, 38u8, p4);
    lemma_split_all_none(p4, 38u8);
    let q1 = split_all(r1, 38u8);
    let q2 = split_all(r2, 38u8);
    let q3 = split_all(p4, 38u8);

    // secret=...
    lemma_url_decode_text_round_trip(secret);
    let st1 = LinkParams { secret: secret, ..st };
    assert(apply_param(st, p1) == st1);
    let pairs = split_all(link_query(secret, digits, period, algo), 38u8);
    assert(pairs[0] == p1);
    assert(pairs.drop_first() =~= q1);
    assert(apply_params(st, pairs) == apply_params(st1, q1));

    // digits=...
    lemma_alnum_value(decimal(digits as nat));
    lemma_parse_decimal(digits as nat, u32::MAX as nat);
    let st2 = LinkParams { digits: digits, ..st1 };
    assert(apply_param(st1, p2) == st2);
    assert(q1[0] == p2);
    assert(q1.drop_first() =~= q2);
    assert(apply_params(st1, q1) == apply_params(st2, q2));

    // period=...
    lemma_alnum_value(decimal(period as nat));
    lemma_parse_decimal(period as nat, u64::MAX as nat);
    let st3 = LinkParams { period: period, ..st2 };
    assert(apply_param(st2, p3) == st3);
    assert(q2[0] == p3);
    assert(q2.drop_first() =~= q3);
    assert(apply_params(st2, q2) == apply_params(st3, q3));

    // algorithm=...
    lemma_alnum_value(algorithm_label(algo));
    let st4 = LinkParams { algorithm: algo, ..st3 };
    assert(apply_param(st3, p4) == st4);
    assert(q3[0] == p4);
    assert(q3.drop_first() =~= Seq::<Seq<u8>>::empty());
    assert(apply_params(st3, q3) == apply_params(st4, Seq::<Seq<u8>>::empty()));
}

/// The label of a link written from an issuer and an account reads back
/// as the issuer, `:` and the account.
pub proof fn lemma_link_label_text(issuer: Seq<char>, account: Seq<char>)
    ensures
        utf8_text(url_decoded(link_label(issuer, account))) == issuer + seq![':'] + account,
        forall|k: int|
            0 <= k < link_label(issuer, account).len() ==> #[trigger] link_label(
                issuer,
                account,
            )[k] != 63u8 && link_label(issuer, account)[k] < 128,
{
    let ei = encode_utf8(issuer);
    let ea = encode_utf8(account);
    let pi = percent_encoded(ei);
    let pa = percent_encoded(ea);
    lemma_percent_encoded_bytes(ei);
    lemma_percent_encoded_bytes(ea);
    let l = link_label(issuer, account);
    assert forall|k: int| 0 <= k < l.len() implies #[trigger] l[k] != 63u8 && l[k] < 128 by {
        if k < pi.len() {
            assert(l[k] == pi[k]);
        } else if k == pi.len() {
            assert(l[k] == 58u8);
        } else {
            assert(l[k] == pa[k - pi.len() - 1]);
        }
    }
    // Percent-decoding.
    let tail = seq![58u8] + pa;
    assert(l =~= pi + tail);
    lemma_url_decoded_after_percent(ei, tail);
    lemma_url_decoded_after_percent(ea, Seq::<u8>::empty());
    assert(pa + Seq::<u8>::empty() =~= pa);
    assert(url_decoded(Seq::<u8>::empty()) =~= Seq::<u8>::empty());
    assert(ea + Seq::<u8>::empty() =~= ea);
    assert(tail.skip(1) =~= pa);
    assert(url_decoded(tail) =~= seq![58u8] + ea);
    // UTF-8.
    let colon = seq![':'];
    is_ascii_chars_encode_utf8(colon);
    assert(encode_utf8(colon) =~= seq![58u8]);
    lemma_encode_utf8_concat(issuer, colon);
    lemma_encode_utf8_concat(issuer + colon, account);
    let text = issuer + colon + account;
    assert(url_decoded(l) =~= encode_utf8(text));
    encode_utf8_valid_utf8(text);
    encode_utf8_decode_utf8(text);
}

/// A link written from an account's fields reads back as that account:
/// `parse_otpauth` of
/// `otpauth://totp/ISSUER:ACCOUNT?secret=SECRET&digits=D&period=P&algorithm=A`,
/// with issuer, account and secret percent-encoded byte by byte, gives back
/// the issuer, account, secret, digits, period and algorithm. The issuer
/// must hold no `:` (the label is split at its first one), issuer and
/// account must not begin or end with white space (the label's parts are
/// trimmed), and the secret must not be empty (a link without one is
/// refused).
pub proof fn lemma_link_round_trip(
    issuer: Seq<char>,
    account: Seq<char>,
    secret: Seq<char>,
    digits: u32,
    period: u64,
    algo: Algorithm,
)
    requires
        forall|k: int| 0 <= k < issuer.len() ==> #[trigger] issuer[k] != ':',
        trim(issuer) == issuer,
        trim(account) == account,
        secret.len() > 0,
    ensures
        otpauth_entry(otpauth_link(issuer, account, secret, digits, period, algo)) == Some(
            EntryModel {
                issuer: issuer,
                account: account,
                secret: secret,
                digits: digits,
                period: period,
                algorithm: algo,
            },
        ),
{
    let b = otpauth_link_bytes(issuer, account, secret, digits, period, algo);
    let label = link_label(issuer, account);
    let query = link_query(secret, digits, period, algo);
    let rest = label + seq![63u8] + query;
    lemma_parameter_names();
    lemma_link_label_text(issuer, account);
    // The bytes are ASCII, so the link's text encodes back to them.
    assert(ascii_bytes(query)) by {
        let es = encode_utf8(secret);
        lemma_percent_encoded_bytes(es);
        lemma_decimal_bytes(digits as nat);
        lemma_decimal_bytes(period as nat);
        lemma_algorithm_label_named(algo);
        let p1 = query_pair(key_secret(), percent_encoded(es));
        let p2 = query_pair(key_digits(), encode_utf8(decimal(digits as nat)));
        let p3 = query_pair(key_period(), encode_utf8(decimal(period as nat)));
        let p4 = query_pair(key_algorithm(), encode_utf8(algorithm_label(algo)));
        lemma_query_pair_pieces(key_secret(), percent_encoded(es));
        lemma_query_pair_pieces(key_digits(), encode_utf8(decimal(digits as nat)));
        lemma_query_pair_pieces(key_period(), encode_utf8(decimal(period as nat)));
        lemma_query_pair_pieces(key_algorithm(), encode_utf8(algorithm_label(algo)));
        let amp = seq![38u8];
        assert(ascii_bytes(amp));
        lemma_ascii_bytes_concat(p3, amp);
        lemma_ascii_bytes_concat(p3 + amp, p4);
        lemma_ascii_bytes_concat(p2, amp);
        lemma_ascii_bytes_concat(p2 + amp, p3 + amp + p4);
        lemma_ascii_bytes_concat(p1, amp);
        lemma_ascii_bytes_concat(p1 + amp, p2 + amp + (p3 + amp + p4));
    }
    assert(ascii_bytes(seq![63u8]));
    lemma_ascii_bytes_concat(label, seq![63u8]);
    lemma_ascii_bytes_concat(label + seq![63u8], query);
    lemma_ascii_bytes_concat(otpauth_prefix(), rest);
    lemma_ascii_text_encodes(b);
    // The prefix, then the label up to `?`, then the query.
    assert(b.take(15) =~= otpauth_prefix());
    assert(b.skip(15) =~= rest);
    lemma_split_once_at(label, 63u8, query);
    // The label splits at its `:` into issuer and account.
    lemma_split_once_at(issuer, ':', account);
    // The query sets the rest.
    let st0 = LinkParams {
        issuer: issuer,
        secret: Seq::empty(),
        digits: 6,
        period: 30,
        algorithm: Algorithm::Sha1,
    };
    lemma_link_query_params(st0, secret, digits, period, algo);
}

/// The UTF-8 bytes of a link whose label is just an account (no `:`) and
/// whose query has a `secret` pair and an `issuer` pair, both
/// percent-encoded, the secret first when `secret_first`.
pub open spec fn issuer_pair_link_bytes(
    account: Seq<char>,
    secret: Seq<char>,
    issuer: Seq<char>,
    secret_first: bool,
) -> Seq<u8> {
    let sp = query_pair(key_secret(), percent_encoded(encode_utf8(secret)));
    let ip = query_pair(key_issuer(), percent_encoded(encode_utf8(issuer)));
    let query = if secret_first {
        sp + seq![38u8] + ip
    } else {
        ip + seq![38u8] + sp
    };
    otpauth_prefix() + (percent_encoded(encode_utf8(account)) + seq![63u8] + query)
}

/// An `issuer` pair names the issuer of a link whose label gives none,
/// whether it comes before or after the `secret` pair: the entry read
/// from `otpauth://totp/ACCOUNT?secret=S&issuer=I` (or with the two pairs
/// swapped) has issuer `I`, account `ACCOUNT` and secret `S`, with the
/// default 6 digits, 30 seconds and SHA-1.
pub proof fn lemma_issuer_pair_fills_empty_issuer(
    account: Seq<char>,
    secret: Seq<char>,
    issuer: Seq<char>,
    secret_first: bool,
)
    requires
        forall|k: int| 0 <= k < account.len() ==> #[trigger] account[k] != ':',
        trim(account) == account,
        secret.len() > 0,
        issuer.len() > 0,
    ensures
        otpauth_entry(ascii_text(issuer_pair_link_bytes(account, secret, issuer, secret_first)))
            == Some(
            EntryModel {
                issuer: issuer,
                account: account,
                secret: secret,
                digits: 6,
                period: 30,
                algorithm: Algorithm::Sha1,
            },
        ),
{
    lemma_parameter_names();
    assert(key_issuer()[0] != key_secret()[0]);
    let ea = encode_utf8(account);
    let es = encode_utf8(secret);
    let ei = encode_utf8(issuer);
    let pa = percent_encoded(ea);
    let ps = percent_encoded(es);
    let pi = percent_encoded(ei);
    lemma_percent_encoded_bytes(ea);
    lemma_percent_encoded_bytes(es);
    lemma_percent_encoded_bytes(ei);
    let sp = query_pair(key_secret(), ps);
    let ip = query_pair(key_issuer(), pi);
    lemma_query_pair_pieces(key_secret(), ps);
    lemma_query_pair_pieces(key_issuer(), pi);
    let (first, second) = if secret_first {
        (sp, ip)
    } else {
        (ip, sp)
    };
    let query = first + seq![38u8] + second;
    let rest = pa + seq![63u8] + query;
    let b = otpauth_prefix() + rest;
    assert(b == issuer_pair_link_bytes(account, secret, issuer, secret_first));
    // ASCII throughout.
    let amp = seq![38u8];
    let q = seq![63u8];
    assert(ascii_bytes(amp));
    assert(ascii_bytes(q));
    assert(ascii_bytes(pa));
    assert(ascii_bytes(first));
    assert(ascii_bytes(second));
    lemma_ascii_bytes_concat(first, amp);
    lemma_ascii_bytes_concat(first + amp, second);
    lemma_ascii_bytes_concat(pa, q);
    lemma_ascii_bytes_concat(pa + q, query);
    lemma_ascii_bytes_concat(otpauth_prefix(), rest);
    lemma_ascii_text_encodes(b);
    assert(b.take(15) =~= otpauth_prefix());
    assert(b.skip(15) =~= rest);
    // The label is the account.
    assert forall|k: int| 0 <= k < pa.len() implies #[trigger] pa[k] != 63u8 by {}
    lemma_split_once_at(pa, 63u8, query);
    lemma_url_decode_text_round_trip(account);
    lemma_index_of(account, ':');
    // The two pairs.
    lemma_split_all_at(first, 38u8, second);
    lemma_split_all_none(second, 38u8);
    let pairs = split_all(query, 38u8);
    assert(pairs =~= seq![first, second]);
    lemma_url_decode_text_round_trip(secret);
    lemma_url_decode_text_round_trip(issuer);
    let st0 = LinkParams {
        issuer: Seq::empty(),
        secret: Seq::empty(),
        digits: 6,
        period: 30,
        algorithm: Algorithm::Sha1,
    };
    let st1 = apply_param(st0, first);
    let st2 = apply_param(st1, second);
    assert(st2 == LinkParams { issuer: issuer, secret: secret, ..st0 });
    assert(pairs[0] == first);
    assert(pairs.drop_first() =~= seq![second]);
    assert(apply_params(st0, pairs) == apply_params(st1, seq![second]));
    assert(seq![second].drop_first() =~= Seq::<Seq<u8>>::empty());
    assert(apply_params(st1, seq![second]) == apply_params(st2, Seq::<Seq<u8>>::empty()));
    assert(trim(Seq::<char>::empty()) =~= Seq::<char>::empty());
}

} // verus!
