use monotp::autostart::desktop_entry;
use monotp::forms::{
    build_entry, checked_display_code, display_code, preview, Preview, filter_indices, forgot_confirmed, smart_paste, spaced_code,
    validate_form, Autofill, FormError,
};
use monotp::storage::{Entry, Paths, Vault};
use monotp::theme::{effective_theme, resolve_system, ThemeKind};
use monotp::totp::Algorithm;

#[test]
fn form_validation() {
    assert_eq!(validate_form("JBSWY3DPEHPK3PXP", "me", ""), Ok(()));
    assert_eq!(validate_form("JBSWY3DPEHPK3PXP", "", "GitHub"), Ok(()));
    assert_eq!(validate_form("not base32!", "me", "GitHub"), Err(FormError::InvalidSecret));
    assert_eq!(validate_form("", "me", "GitHub"), Err(FormError::InvalidSecret));
    assert_eq!(validate_form("jbsw y3dp", "  ", "\t"), Err(FormError::MissingName));
}

#[test]
fn built_entry_is_trimmed() {
    let e = build_entry("  GitHub ", " me@example.com", " JBSWY3DP ", 8, 60, Algorithm::Sha512);
    assert_eq!(e.issuer, "GitHub");
    assert_eq!(e.account, "me@example.com");
    assert_eq!(e.secret, "JBSWY3DP");
    assert_eq!((e.digits, e.period, e.algorithm), (8, 60, Algorithm::Sha512));
}

#[test]
fn smart_paste_link() {
    match smart_paste("  otpauth://totp/GitHub:me?secret=JBSWY3DPEHPK3PXP&digits=7  ") {
        Autofill::Link(e) => {
            assert_eq!(e.issuer, "GitHub");
            assert_eq!(e.account, "me");
            assert_eq!(e.digits, 7);
        }
        _ => panic!("expected a link"),
    }
    assert!(matches!(smart_paste("otpauth://totp/GitHub:me"), Autofill::Nothing));
}

#[test]
fn smart_paste_secret_and_nothing() {
    match smart_paste(" jbsw y3dp ") {
        Autofill::Secret(s) => assert_eq!(s, "jbsw y3dp"),
        _ => panic!("expected a secret"),
    }
    assert!(matches!(smart_paste("hello world!"), Autofill::Nothing));
    assert!(matches!(smart_paste(""), Autofill::Nothing));
}

fn entry(issuer: &str, account: &str, secret: &str, digits: u32) -> Entry {
    Entry {
        issuer: issuer.to_string(),
        account: account.to_string(),
        secret: secret.to_string(),
        digits,
        period: 30,
        algorithm: Algorithm::Sha1,
    }
}

#[test]
fn search_filters_by_issuer_or_account() {
    let mut v = Vault::default();
    v.add(entry("GitHub", "me@example.com", "A", 6));
    v.add(entry("Google", "work@corp.io", "A", 6));
    v.add(entry("", "ÉLISE@example.com", "A", 6));
    assert_eq!(filter_indices(&v, ""), vec![0, 1, 2]);
    assert_eq!(filter_indices(&v, "git"), vec![0]);
    assert_eq!(filter_indices(&v, "G"), vec![0, 1]);
    assert_eq!(filter_indices(&v, "example"), vec![0, 2]);
    assert_eq!(filter_indices(&v, "élise"), vec![2]);
    assert_eq!(filter_indices(&v, "CORP"), vec![1]);
    assert_eq!(filter_indices(&v, "nothing"), Vec::<usize>::new());
}

#[test]
fn codes_are_spaced_in_the_middle() {
    assert_eq!(spaced_code("123456"), "123 456");
    assert_eq!(spaced_code("1234567"), "1234 567");
    assert_eq!(spaced_code("12345678"), "1234 5678");
    assert_eq!(spaced_code("------"), "------");
    assert_eq!(spaced_code("12a4"), "12a4");
    assert_eq!(spaced_code(""), " ");
}

#[test]
fn card_codes() {
    let good = entry("GitHub", "me", "GEZDGNBVGY3TQOJQGEZDGNBVGY3TQOJQ", 8);
    assert_eq!(display_code(&good, 59), ("94287082".to_string(), true));
    let bad = entry("GitHub", "me", "not base32", 6);
    assert_eq!(display_code(&bad, 59), ("------".to_string(), false));
}

#[test]
fn invalid_secret_shows_placeholder_at_any_digit_count() {
    for digits in [10u32, 12, u32::MAX] {
        let bad = entry("GitHub", "me", "not base32", digits);
        assert_eq!(display_code(&bad, 59), ("------".to_string(), false));
        assert_eq!(checked_display_code(&bad, 59), Some(("------".to_string(), false)));
    }
}

#[test]
fn valid_secret_with_more_than_nine_digits_has_no_card() {
    let e = entry("GitHub", "me", "GEZDGNBVGY3TQOJQGEZDGNBVGY3TQOJQ", 10);
    assert_eq!(checked_display_code(&e, 59), None);
    let ok = entry("GitHub", "me", "GEZDGNBVGY3TQOJQGEZDGNBVGY3TQOJQ", 8);
    assert_eq!(checked_display_code(&ok, 59), Some(("94287082".to_string(), true)));
}

#[test]
fn names_play_no_part_in_an_invalid_card() {
    let a = entry("GitHub", "me", "!!", 11);
    let b = entry("Other", "you", "!!", 11);
    assert_eq!(display_code(&a, 7), display_code(&b, 7));
}

#[test]
fn forgot_password_guard() {
    assert!(forgot_confirmed("DELETE"));
    assert!(forgot_confirmed("  DELETE \n"));
    assert!(!forgot_confirmed("delete"));
    assert!(!forgot_confirmed("DELETE!"));
    assert!(!forgot_confirmed(""));
}

#[test]
fn themes() {
    assert_eq!(ThemeKind::default(), ThemeKind::System);
    let labels: Vec<&str> = ThemeKind::ALL.iter().map(|t| t.label()).collect();
    assert_eq!(labels, ["System", "Dark", "Light", "Sakura", "Monochrome"]);
    assert_eq!(resolve_system(true), ThemeKind::Dark);
    assert_eq!(resolve_system(false), ThemeKind::Light);
    assert_eq!(effective_theme(ThemeKind::System, true), ThemeKind::Dark);
    assert_eq!(effective_theme(ThemeKind::System, false), ThemeKind::Light);
    assert_eq!(effective_theme(ThemeKind::Sakura, true), ThemeKind::Sakura);
    assert_eq!(effective_theme(ThemeKind::Monochrome, false), ThemeKind::Monochrome);
}

#[test]
fn autostart_desktop_entry() {
    assert_eq!(
        desktop_entry("/usr/bin/monotp"),
        "[Desktop Entry]\nType=Application\nName=monotp\nComment=Encrypted TOTP authenticator\nExec=/usr/bin/monotp\nTerminal=false\nX-GNOME-Autostart-enabled=true\n"
    );
}

#[test]
fn names_play_no_part_in_the_code() {
    let a = entry("GitHub", "me", "GEZDGNBVGY3TQOJQGEZDGNBVGY3TQOJQ", 6);
    let b = entry("Anything at all", "", "GEZDGNBVGY3TQOJQGEZDGNBVGY3TQOJQ", 6);
    assert_eq!(display_code(&a, 1234567890), display_code(&b, 1234567890));
}

#[test]
fn codes_have_exactly_the_digit_count() {
    for digits in 1..=9u32 {
        let e = entry("x", "y", "GEZDGNBVGY3TQOJQGEZDGNBVGY3TQOJQ", digits);
        for t in [0u64, 59, 1111111109, 2000000000] {
            let (code, valid) = display_code(&e, t);
            assert!(valid);
            assert_eq!(code.len(), digits as usize);
            assert!(code.bytes().all(|b| b.is_ascii_digit()));
        }
    }
}

#[test]
fn file_locations() {
    let p = Paths {
        config_dir: "/home/u/.config/monotp".to_string(),
        data_dir: "/home/u/.local/share/monotp".to_string(),
        separator: '/',
    };
    assert_eq!(p.config_file(), "/home/u/.config/monotp/config.toml");
    assert_eq!(p.vault_file(), "/home/u/.local/share/monotp/vault.enc");
    assert_ne!(p.config_file(), p.vault_file());
    let q = Paths {
        config_dir: "/etc/monotp/".to_string(),
        data_dir: String::new(),
        separator: '/',
    };
    assert_eq!(q.config_file(), "/etc/monotp/config.toml");
    assert_eq!(q.vault_file(), "vault.enc");
    let w = Paths {
        config_dir: r"C:\Users\u\AppData\Roaming\X-croot\monotp\config".to_string(),
        data_dir: r"C:\data/".to_string(),
        separator: '\\',
    };
    assert_eq!(w.config_file(), r"C:\Users\u\AppData\Roaming\X-croot\monotp\config\config.toml");
    assert_eq!(w.vault_file(), r"C:\data/vault.enc");
    let native = Paths::new("/a".to_string(), "/b".to_string());
    assert_eq!(
        std::path::PathBuf::from(native.config_file()),
        std::path::Path::new("/a").join("config.toml")
    );
}

#[test]
fn add_dialog_preview() {
    let key = "GEZDGNBVGY3TQOJQGEZDGNBVGY3TQOJQ";
    assert_eq!(
        preview(key, 30, 8, Algorithm::Sha1, 59),
        Some(Preview::Code("94287082".to_string()))
    );
    assert_eq!(preview("not base32", 30, 6, Algorithm::Sha1, 59), Some(Preview::InvalidSecret));
    assert_eq!(preview("not base32", 30, 20, Algorithm::Sha1, 59), Some(Preview::InvalidSecret));
    assert_eq!(preview("   ", 30, 6, Algorithm::Sha1, 59), Some(Preview::InvalidSecret));
    assert_eq!(preview("", 30, 6, Algorithm::Sha1, 59), Some(Preview::Nothing));
    assert_eq!(preview(key, 30, 10, Algorithm::Sha1, 59), None);
}
