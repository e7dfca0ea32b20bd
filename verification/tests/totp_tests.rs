use monotp::totp::{
    decode_secret, dynamic_truncate, generate, hex_val, hotp, parse_otpauth, seconds_remaining,
    url_decode, Algorithm,
};

const SHA1_KEY: &[u8] = b"12345678901234567890";
const SHA256_KEY: &[u8] = b"12345678901234567890123456789012";
const SHA512_KEY: &[u8] = b"1234567890123456789012345678901234567890123456789012345678901234";

#[test]
fn rfc4226_hotp_values() {
    let expected = [
        755224, 287082, 359152, 969429, 338314, 254676, 287922, 162583, 399871, 520489,
    ];
    for (counter, want) in expected.iter().enumerate() {
        assert_eq!(hotp(SHA1_KEY, counter as u64, 6, Algorithm::Sha1), *want);
    }
}

#[test]
fn rfc4226_dynamic_truncation_example() {
    let hash: [u8; 20] = [
        0x1f, 0x86, 0x98, 0x69, 0x0e, 0x02, 0xca, 0x16, 0x61, 0x85, 0x50, 0xef, 0x7f, 0x19, 0xda,
        0x8e, 0x94, 0x5b, 0x55, 0x5a,
    ];
    assert_eq!(dynamic_truncate(&hash), 0x50ef7f19);
}

#[test]
fn rfc6238_sha1_vectors() {
    let cases: [(u64, &str); 6] = [
        (59, "94287082"),
        (1111111109, "07081804"),
        (1111111111, "14050471"),
        (1234567890, "89005924"),
        (2000000000, "69279037"),
        (20000000000, "65353130"),
    ];
    for (t, want) in cases {
        assert_eq!(generate(SHA1_KEY, 30, 8, Algorithm::Sha1, t), want);
    }
}

#[test]
fn rfc6238_sha256_vectors() {
    assert_eq!(generate(SHA256_KEY, 30, 8, Algorithm::Sha256, 59), "46119246");
    assert_eq!(generate(SHA256_KEY, 30, 8, Algorithm::Sha256, 1111111109), "68084774");
    assert_eq!(generate(SHA256_KEY, 30, 8, Algorithm::Sha256, 20000000000), "77737706");
}

#[test]
fn rfc6238_sha512_vectors() {
    assert_eq!(generate(SHA512_KEY, 30, 8, Algorithm::Sha512, 59), "90693936");
    assert_eq!(generate(SHA512_KEY, 30, 8, Algorithm::Sha512, 1111111109), "25091201");
    assert_eq!(generate(SHA512_KEY, 30, 8, Algorithm::Sha512, 20000000000), "47863826");
}

#[test]
fn generate_pads_with_zeros_to_the_digit_count() {
    let code = generate(SHA1_KEY, 30, 8, Algorithm::Sha1, 1111111109);
    assert_eq!(code.len(), 8);
    assert!(code.starts_with('0'));
    // Six digits of the same counter: the last six of the eight-digit value.
    assert_eq!(generate(SHA1_KEY, 30, 6, Algorithm::Sha1, 1111111109), "081804");
}

#[test]
fn generate_with_no_digits_writes_zero() {
    assert_eq!(generate(SHA1_KEY, 30, 0, Algorithm::Sha1, 59), "0");
}

#[test]
fn generate_treats_period_zero_as_one_second() {
    // With a one-second period the counter is the time itself.
    assert_eq!(
        generate(SHA1_KEY, 0, 6, Algorithm::Sha1, 3),
        format!("{:06}", hotp(SHA1_KEY, 3, 6, Algorithm::Sha1))
    );
    assert_eq!(generate(SHA1_KEY, 0, 6, Algorithm::Sha1, 1), "287082");
}

#[test]
fn same_window_gives_same_code() {
    let a = generate(SHA1_KEY, 30, 6, Algorithm::Sha1, 60);
    let b = generate(SHA1_KEY, 30, 6, Algorithm::Sha1, 89);
    let c = generate(SHA1_KEY, 30, 6, Algorithm::Sha1, 90);
    assert_eq!(a, b);
    assert_eq!(a, "359152");
    assert_eq!(c, "969429");
}

#[test]
fn seconds_remaining_counts_down_to_rotation() {
    assert_eq!(seconds_remaining(30, 59), 1);
    assert_eq!(seconds_remaining(30, 60), 30);
    assert_eq!(seconds_remaining(30, 61), 29);
    assert_eq!(seconds_remaining(0, 12345), 1);
    let t = 1_700_000_005u64;
    let r = seconds_remaining(30, t);
    assert_eq!((t + r - 1) / 30, t / 30);
    assert_eq!((t + r) / 30, t / 30 + 1);
}

#[test]
fn labels() {
    assert_eq!(Algorithm::Sha1.label(), "SHA1");
    assert_eq!(Algorithm::Sha256.label(), "SHA256");
    assert_eq!(Algorithm::Sha512.label(), "SHA512");
    assert_eq!(Algorithm::default(), Algorithm::Sha1);
}

#[test]
fn decode_secret_accepts_spaces_and_lowercase() {
    let want = b"Hello!\xde\xad\xbe\xef".to_vec();
    assert_eq!(decode_secret("JBSWY3DPEHPK3PXP"), Some(want.clone()));
    assert_eq!(decode_secret("jbsw y3dp ehpk 3pxp"), Some(want.clone()));
    assert_eq!(decode_secret("  JBSW\tY3DP\nEHPK 3PXP  "), Some(want));
}

#[test]
fn decode_secret_rejects_empty_and_invalid() {
    assert_eq!(decode_secret(""), None);
    assert_eq!(decode_secret("   \t "), None);
    assert_eq!(decode_secret("JBSWY3DP1"), None);
    assert_eq!(decode_secret("JBSWY3DPEHPK3PXP="), None);
    assert_eq!(decode_secret("ÄBC"), None);
}

#[test]
fn hex_values() {
    assert_eq!(hex_val(b'0'), Some(0));
    assert_eq!(hex_val(b'9'), Some(9));
    assert_eq!(hex_val(b'a'), Some(10));
    assert_eq!(hex_val(b'F'), Some(15));
    assert_eq!(hex_val(b'g'), None);
    assert_eq!(hex_val(b'%'), None);
}

#[test]
fn url_decoding() {
    assert_eq!(url_decode("a%20b+c"), "a b c");
    assert_eq!(url_decode("me%40example.com"), "me@example.com");
    assert_eq!(url_decode("%C3%A9t%C3%A9"), "été");
    assert_eq!(url_decode("100%"), "100%");
    assert_eq!(url_decode("%4"), "%4");
    assert_eq!(url_decode("%zz%41"), "%zzA");
    assert_eq!(url_decode("%FF"), "\u{FFFD}");
    assert_eq!(url_decode("plain-text_1.2~"), "plain-text_1.2~");
}

#[test]
fn url_decoding_inverts_full_percent_encoding() {
    let data = "Ünïcode & spaces + plus";
    let encoded: String = data.bytes().map(|b| format!("%{:02X}", b)).collect();
    assert_eq!(url_decode(&encoded), data);
}

#[test]
fn parse_full_link() {
    let e = parse_otpauth(
        "otpauth://totp/GitHub:me%40example.com?secret=JBSWY3DPEHPK3PXP&issuer=Other&digits=8&period=60&algorithm=sha256",
    )
    .expect("valid link");
    assert_eq!(e.issuer, "GitHub");
    assert_eq!(e.account, "me@example.com");
    assert_eq!(e.secret, "JBSWY3DPEHPK3PXP");
    assert_eq!(e.digits, 8);
    assert_eq!(e.period, 60);
    assert_eq!(e.algorithm, Algorithm::Sha256);
}

#[test]
fn parse_link_defaults() {
    let e = parse_otpauth("otpauth://totp/alice?secret=ABC").expect("valid link");
    assert_eq!(e.issuer, "");
    assert_eq!(e.account, "alice");
    assert_eq!(e.secret, "ABC");
    assert_eq!(e.digits, 6);
    assert_eq!(e.period, 30);
    assert_eq!(e.algorithm, Algorithm::Sha1);
}

#[test]
fn parse_link_issuer_parameter_fills_missing_issuer() {
    let e = parse_otpauth("otpauth://totp/bob?issuer=Acme%20Corp&secret=ABC&issuer=Later")
        .expect("valid link");
    assert_eq!(e.issuer, "Acme Corp");
    assert_eq!(e.account, "bob");
}

#[test]
fn parse_link_label_is_trimmed_and_split_at_first_colon() {
    let e = parse_otpauth("otpauth://totp/%20Acme%20:%20a:b%20?secret=S").expect("valid link");
    assert_eq!(e.issuer, "Acme");
    assert_eq!(e.account, "a:b");
}

#[test]
fn parse_link_bad_numbers_fall_back() {
    let e = parse_otpauth("otpauth://totp/x?secret=S&digits=abc&period=-5&algorithm=md5")
        .expect("valid link");
    assert_eq!(e.digits, 6);
    assert_eq!(e.period, 30);
    assert_eq!(e.algorithm, Algorithm::Sha1);
    let e = parse_otpauth("otpauth://totp/x?secret=S&digits=%2B7&period=99999999999&algorithm=SHA512")
        .expect("valid link");
    assert_eq!(e.digits, 7);
    assert_eq!(e.period, 99999999999);
    assert_eq!(e.algorithm, Algorithm::Sha512);
    let e = parse_otpauth("otpauth://totp/x?secret=S&digits=4294967296").expect("valid link");
    assert_eq!(e.digits, 6);
}

#[test]
fn parse_link_last_secret_wins_and_unknown_keys_are_ignored() {
    let e = parse_otpauth("otpauth://totp/x?secret=A&foo=bar&noequals&secret=B").expect("valid");
    assert_eq!(e.secret, "B");
}

#[test]
fn parse_link_rejections() {
    assert!(parse_otpauth("otpauth://hotp/x?secret=ABC").is_none());
    assert!(parse_otpauth("https://example.com").is_none());
    assert!(parse_otpauth("otpauth://totp/x").is_none());
    assert!(parse_otpauth("otpauth://totp/x?issuer=A").is_none());
    assert!(parse_otpauth("otpauth://totp/x?secret=").is_none());
    assert!(parse_otpauth("OTPAUTH://TOTP/x?secret=A").is_none());
}

fn percent_encode_all(s: &str) -> String {
    s.bytes().map(|b| format!("%{:02X}", b)).collect()
}

#[test]
fn link_written_from_fields_reads_back() {
    let cases: [(&str, &str, &str, u32, u64, Algorithm); 3] = [
        ("Acme Corp", "me@example.com", "JBSWY3DPEHPK3PXP", 6, 30, Algorithm::Sha1),
        ("Bänk", "a:b&c=d?é", "ABC DEF", 8, 60, Algorithm::Sha256),
        ("", "x", "S", 4294967295, 18446744073709551615, Algorithm::Sha512),
    ];
    for (issuer, account, secret, digits, period, algo) in cases {
        let link = format!(
            "otpauth://totp/{}:{}?secret={}&digits={}&period={}&algorithm={}",
            percent_encode_all(issuer),
            percent_encode_all(account),
            percent_encode_all(secret),
            digits,
            period,
            algo.label()
        );
        let e = parse_otpauth(&link).expect("valid link");
        assert_eq!(e.issuer, issuer);
        assert_eq!(e.account, account);
        assert_eq!(e.secret, secret);
        assert_eq!(e.digits, digits);
        assert_eq!(e.period, period);
        assert_eq!(e.algorithm, algo);
    }
}

#[test]
fn url_decoding_inverts_lower_case_percent_encoding() {
    let data = "Ünïcode & spaces + plus";
    let encoded: String = data.bytes().map(|b| format!("%{:02x}", b)).collect();
    assert_eq!(url_decode(&encoded), data);
}

#[test]
fn shorter_code_is_tail_of_longer_code() {
    let keys: [(&[u8], Algorithm); 3] = [
        (SHA1_KEY, Algorithm::Sha1),
        (SHA256_KEY, Algorithm::Sha256),
        (SHA512_KEY, Algorithm::Sha512),
    ];
    for (key, algo) in keys {
        for t in [59u64, 1111111109, 2000000000] {
            let long = generate(key, 30, 9, algo, t);
            for d in 1u32..=9 {
                let short = generate(key, 30, d, algo, t);
                assert_eq!(short, long[(9 - d) as usize..]);
            }
        }
    }
}
