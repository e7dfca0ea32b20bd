//! What the account screens decide: validating and building an entry from
//! the form, smart paste, search, the code shown on a card and how it is
//! spaced, and the "type DELETE" guard.

use crate::storage::{Entry, EntryModel, Vault};
use crate::text::{
    all_ascii_digits, chars_equal, chars_of, copy_chars, string_from_chars, trim, trim_chars,
};
use crate::totp::{
    decode_secret, generate, otpauth_entry, parse_otpauth, secret_key, totp_code, Algorithm,
};
use vstd::prelude::*;

verus! {

/// Why the add / edit form cannot be saved.
#[derive(Debug, PartialEq, Eq, Structural)]
pub enum FormError {
    /// The secret is not valid base32.
    InvalidSecret,
    /// Neither an issuer nor an account name was given.
    MissingName,
}

/// Checks the add / edit form: the secret must decode, and an issuer or an
/// account name must be given.
pub fn validate_form(secret: &str, account: &str, issuer: &str) -> (r: Result<(), FormError>)
    ensures
        secret_key(secret@) is None ==> r == Err::<(), FormError>(FormError::InvalidSecret),
        secret_key(secret@) is Some && trim(account@).len() == 0 && trim(issuer@).len() == 0
            ==> r == Err::<(), FormError>(FormError::MissingName),
        r is Ok <==> secret_key(secret@) is Some && (trim(account@).len() > 0 || trim(
            issuer@,
        ).len() > 0),
{
    if decode_secret(secret).is_none() {
        return Err(FormError::InvalidSecret);
    }
    let a = chars_of(account);
    let i = chars_of(issuer);
    if trim_chars(a.as_slice()).len() == 0 && trim_chars(i.as_slice()).len() == 0 {
        return Err(FormError::MissingName);
    }
    Ok(())
}

/// The entry that the form describes, its texts trimmed.
pub fn build_entry(
    issuer: &str,
    account: &str,
    secret: &str,
    digits: u32,
    period: u64,
    algorithm: Algorithm,
) -> (e: Entry)
    ensures
        e@ == (EntryModel {
            issuer: trim(issuer@),
            account: trim(account@),
            secret: trim(secret@),
            digits: digits,
            period: period,
            algorithm: algorithm,
        }),
{
    let i = trim_chars(chars_of(issuer).as_slice());
    let a = trim_chars(chars_of(account).as_slice());
    let s = trim_chars(chars_of(secret).as_slice());
    Entry {
        issuer: string_from_chars(i.as_slice()),
        account: string_from_chars(a.as_slice()),
        secret: string_from_chars(s.as_slice()),
        digits,
        period,
        algorithm,
    }
}

/// What a smart paste fills in.
pub enum Autofill {
    /// An `otpauth://` link: every field.
    Link(Entry),
    /// A raw base32 secret: the secret field.
    Secret(String),
    /// Nothing usable.
    Nothing,
}

/// The characters `otpauth://`.
pub open spec fn link_scheme() -> Seq<char> {
    seq!['o', 't', 'p', 'a', 'u', 't', 'h', ':', '/', '/']
}

/// Whether `s` begins with `p`.
pub open spec fn starts_with(s: Seq<char>, p: Seq<char>) -> bool {
    s.len() >= p.len() && s.take(p.len() as int) == p
}

/// What smart paste makes of `text`: the trimmed text as a link when it
/// begins with `otpauth://`, else as a secret when it decodes.
pub open spec fn autofill_of(text: Seq<char>) -> Option<Result<EntryModel, Seq<char>>> {
    let t = trim(text);
    if starts_with(t, link_scheme()) {
        match otpauth_entry(t) {
            Some(e) => Some(Ok(e)),
            None => None,
        }
    } else if secret_key(t) is Some {
        Some(Err(t))
    } else {
        None
    }
}

/// The plain contents of an autofill.
pub open spec fn autofill_view(a: Autofill) -> Option<Result<EntryModel, Seq<char>>> {
    match a {
        Autofill::Link(e) => Some(Ok(e@)),
        Autofill::Secret(s) => Some(Err(s@)),
        Autofill::Nothing => None,
    }
}

/// Interprets pasted text as an `otpauth://` link or a raw base32 secret.
pub fn smart_paste(text: &str) -> (r: Autofill)
    ensures
        autofill_view(r) == autofill_of(text@),
{
    let t = trim_chars(chars_of(text).as_slice());
    let trimmed = string_from_chars(t.as_slice());
    let scheme: [char; 10] = ['o', 't', 'p', 'a', 'u', 't', 'h', ':', '/', '/'];
    assert(scheme@ =~= link_scheme());
    let is_link = if t.len() >= 10 {
        let head = copy_chars(t.as_slice(), 0, 10);
        assert(head@ =~= t@.take(10));
        chars_equal(head.as_slice(), scheme.as_slice())
    } else {
        false
    };
    if is_link {
        match parse_otpauth(trimmed.as_str()) {
            Some(e) => Autofill::Link(e),
            None => Autofill::Nothing,
        }
    } else if decode_secret(trimmed.as_str()).is_some() {
        Autofill::Secret(trimmed)
    } else {
        Autofill::Nothing
    }
}

/// What `str::to_lowercase` gives for `s`: the full Unicode lower-casing, in
/// which a character may become several and a capital sigma is mapped by its
/// place in the word (final or not).
pub uninterp spec fn unicode_lowercase(s: Seq<char>) -> Seq<char>;

/// Lower-cases with `str::to_lowercase`. Trusted: the result is
/// `unicode_lowercase(s)`.
#[verifier::external_body]
fn to_lowercase(s: &str) -> (r: String)
    ensures
        r@ == unicode_lowercase(s@),
{
    s.to_lowercase()
}

/// Whether `needle` occurs in `hay` as a contiguous run (`str::contains`).
pub open spec fn contains_seq(hay: Seq<char>, needle: Seq<char>) -> bool {
    exists|i: int|
        0 <= i && i + needle.len() <= hay.len() && #[trigger] hay.subrange(
            i,
            i + needle.len(),
        ) == needle
}

/// Whether `needle` occurs in `hay`.
pub fn contains_chars(hay: &[char], needle: &[char]) -> (r: bool)
    ensures
        r == contains_seq(hay@, needle@),
{
    let n = hay.len();
    let m = needle.len();
    if m > n {
        proof {
            assert forall|i: int| 0 <= i && i + m <= n implies #[trigger] hay@.subrange(
                i,
                i + m,
            ) != needle@ by {}
        }
        return false;
    }
    let mut i: usize = 0;
    while i <= n - m
        invariant
            m <= n,
            i <= n - m + 1,
            n == hay@.len(),
            m == needle@.len(),
            forall|k: int| 0 <= k < i ==> #[trigger] hay@.subrange(k, k + m) != needle@,
        decreases n - i,
    {
        let mut j: usize = 0;
        while j < m && hay[i + j] == needle[j]
            invariant
                i + m <= n,
                n == hay@.len(),
                m == needle@.len(),
                j <= m,
                forall|k: int| 0 <= k < j ==> hay@[i + k] == needle@[k],
            decreases m - j,
        {
            j = j + 1;
        }
        if j == m {
            assert(hay@.subrange(i as int, i + m) =~= needle@);
            return true;
        }
        assert(hay@.subrange(i as int, i + m)[j as int] != needle@[j as int]);
        i = i + 1;
    }
    false
}

/// Whether an account shows up for the lower-cased search text `needle`:
/// it occurs in the lower-cased issuer or account name.
pub open spec fn entry_matches(e: EntryModel, needle: Seq<char>) -> bool {
    contains_seq(unicode_lowercase(e.issuer), needle) || contains_seq(
        unicode_lowercase(e.account),
        needle,
    )
}

/// The indices below `n` of the accounts that show up for `needle`, in
/// order; every index when `needle` is empty.
pub open spec fn shown_indices(entries: Seq<EntryModel>, needle: Seq<char>, n: nat) -> Seq<usize>
    decreases n,
{
    if n == 0 {
        Seq::empty()
    } else {
        let before = shown_indices(entries, needle, (n - 1) as nat);
        if needle.len() == 0 || entry_matches(entries[n - 1], needle) {
            before.push((n - 1) as usize)
        } else {
            before
        }
    }
}

/// The accounts that the search box shows, by index.
pub fn filter_indices(vault: &Vault, search: &str) -> (r: Vec<usize>)
    ensures
        r@ == shown_indices(vault@, unicode_lowercase(search@), vault@.len()),
        forall|i: int|
            0 <= i < vault@.len() ==> (#[trigger] r@.contains(i as usize) <==> (
            unicode_lowercase(search@).len() == 0 || occurs_in(
                unicode_lowercase(vault@[i].issuer),
                unicode_lowercase(search@),
            ) || occurs_in(unicode_lowercase(vault@[i].account), unicode_lowercase(search@)))),
{
    let needle_s = to_lowercase(search);
    let needle = chars_of(needle_s.as_str());
    let n = vault.entries.len();
    proof {
        assert(n == vault@.len());
        lemma_search_matches_anywhere(vault@, unicode_lowercase(search@), vault@.len());
    }
    let mut r: Vec<usize> = Vec::new();
    for i in 0..n
        invariant
            n == vault@.len(),
            n == vault.entries@.len(),
            needle@ == unicode_lowercase(search@),
            r@ == shown_indices(vault@, needle@, i as nat),
    {
        let e = &vault.entries[i];
        assert(vault@[i as int] == e@);
        let keep = if needle.len() == 0 {
            true
        } else {
            let issuer_l = to_lowercase(e.issuer.as_str());
            let account_l = to_lowercase(e.account.as_str());
            contains_chars(chars_of(issuer_l.as_str()).as_slice(), needle.as_slice())
                || contains_chars(chars_of(account_l.as_str()).as_slice(), needle.as_slice())
        };
        if keep {
            r.push(i);
        }
    }
    r
}

/// A code split in the middle by a space (the first half the longer) when
/// it is all digits; any other text as it is.
pub open spec fn spaced(code: Seq<char>) -> Seq<char> {
    if all_ascii_digits(code) {
        let n = code.len();
        let mid = n / 2 + n % 2;
        code.take(mid as int) + seq![' '] + code.skip(mid as int)
    } else {
        code
    }
}

/// Splits a numeric code in two halves for readability.
pub fn spaced_code(code: &str) -> (r: String)
    ensures
        r@ == spaced(code@),
{
    let cs = chars_of(code);
    let n = cs.len();
    let mut i: usize = 0;
    while i < n
        invariant
            i <= n == cs@.len(),
            cs@ == code@,
            forall|k: int| 0 <= k < i ==> 48 <= #[trigger] (cs@[k] as u32) <= 57,
        decreases n - i,
    {
        let u = cs[i] as u32;
        if u < 48 || u > 57 {
            assert(!(48 <= (cs@[i as int] as u32) <= 57));
            assert(cs@[i as int] == code@[i as int]);
            assert(!all_ascii_digits(code@));
            return string_from_chars(cs.as_slice());
        }
        i = i + 1;
    }
    let mid = n / 2 + n % 2;
    let mut out = copy_chars(cs.as_slice(), 0, mid);
    out.push(' ');
    let rest = copy_chars(cs.as_slice(), mid, n);
    let ghost before = out@;
    let m = rest.len();
    for k in 0..m
        invariant
            m == rest@.len(),
            out@ == before + rest@.take(k as int),
    {
        out.push(rest[k]);
        assert(rest@.take(k + 1) =~= rest@.take(k as int).push(rest@[k as int]));
    }
    assert(rest@.take(m as int) =~= rest@);
    assert(out@ =~= cs@.take(mid as int) + seq![' '] + cs@.skip(mid as int));
    string_from_chars(out.as_slice())
}

/// Taking the space out of a spaced code gives the code back.
pub proof fn lemma_spaced_code_keeps_digits(code: Seq<char>)
    requires
        all_ascii_digits(code),
    ensures
        ({
            let s = spaced(code);
            let mid = code.len() / 2 + code.len() % 2;
            &&& s.len() == code.len() + 1
            &&& s[mid as int] == ' '
            &&& s.take(mid as int) + s.skip(mid + 1int) == code
        }),
{
    let s = spaced(code);
    let mid = code.len() / 2 + code.len() % 2;
    assert(s.take(mid as int) =~= code.take(mid as int));
    assert(s.skip(mid + 1int) =~= code.skip(mid as int));
    assert(code.take(mid as int) + code.skip(mid as int) =~= code);
}

/// The placeholder shown for an account whose secret does not decode.
pub open spec fn placeholder_code() -> Seq<char> {
    seq!['-', '-', '-', '-', '-', '-']
}

/// The code a card shows at `now`, and whether the secret is valid.
pub open spec fn card_code(e: EntryModel, now: u64) -> (Seq<char>, bool) {
    match secret_key(e.secret) {
        Some(k) => (totp_code(k, e.period, e.digits as nat, e.algorithm, now), true),
        None => (placeholder_code(), false),
    }
}

/// Whether a card can be drawn for `e`: a secret that decodes needs at
/// most nine digits (ten to the digit count must fit in a `u32`); an
/// invalid secret shows the placeholder whatever the digit count.
pub open spec fn card_drawable(e: EntryModel) -> bool {
    secret_key(e.secret) is Some ==> e.digits <= 9
}

/// The code shown on an account's card at `now`, and whether the secret is
/// valid.
pub fn display_code(entry: &Entry, now: u64) -> (r: (String, bool))
    requires
        card_drawable(entry@),
    ensures
        (r.0@, r.1) == card_code(entry@, now),
        secret_key(entry.secret@) matches Some(k) ==> r.1 && r.0@ == totp_code(
            k,
            entry.period,
            entry.digits as nat,
            entry.algorithm,
            now,
        ),
        secret_key(entry.secret@) is None ==> !r.1 && r.0@ == seq!['-', '-', '-', '-', '-', '-'],
{
    match decode_secret(entry.secret.as_str()) {
        Some(k) => {
            assert(secret_key(entry.secret@) is Some);
            (generate(k.as_slice(), entry.period, entry.digits, entry.algorithm, now), true)
        },
        None => {
            let p: [char; 6] = ['-', '-', '-', '-', '-', '-'];
            assert(p@ =~= placeholder_code());
            (string_from_chars(p.as_slice()), false)
        },
    }
}

/// The card for `entry` at `now`, or `None` where ten to the digit count
/// would overflow a `u32` (a secret that decodes, with more than nine
/// digits).
pub fn checked_display_code(entry: &Entry, now: u64) -> (r: Option<(String, bool)>)
    ensures
        r is None <==> !card_drawable(entry@),
        r matches Some(c) ==> (c.0@, c.1) == card_code(entry@, now),
        r matches Some(c) ==> (secret_key(entry.secret@) matches Some(k) ==> c.1 && c.0@
            == totp_code(k, entry.period, entry.digits as nat, entry.algorithm, now)),
        r matches Some(c) ==> (secret_key(entry.secret@) is None ==> !c.1 && c.0@ == seq![
            '-',
            '-',
            '-',
            '-',
            '-',
            '-',
        ]),
{
    if entry.digits > 9 {
        if decode_secret(entry.secret.as_str()).is_some() {
            return None;
        }
    }
    Some(display_code(entry, now))
}

/// What the add dialog shows under its fields.
#[derive(Debug, PartialEq, Eq)]
pub enum Preview {
    /// The current code of the secret typed so far.
    Code(String),
    /// Something was typed, but it is not a valid base32 secret.
    InvalidSecret,
    /// Nothing was typed.
    Nothing,
}

/// The add dialog's preview for the typed secret and settings at `now`,
/// or `None` where ten to the digit count would overflow a `u32` (a secret
/// that decodes, with more than nine digits).
pub fn preview(secret: &str, period: u64, digits: u32, algo: Algorithm, now: u64) -> (r: Option<
    Preview,
>)
    ensures
        r is None <==> (secret_key(secret@) is Some && digits > 9),
        r matches Some(Preview::Code(c)) ==> (secret_key(secret@) matches Some(k) && c@
            == totp_code(k, period, digits as nat, algo, now)),
        r matches Some(Preview::InvalidSecret) <==> (secret_key(secret@) is None && secret@.len()
            > 0),
        r matches Some(Preview::Nothing) <==> (secret_key(secret@) is None && secret@.len() == 0),
{
    match decode_secret(secret) {
        Some(k) => {
            if digits > 9 {
                None
            } else {
                Some(Preview::Code(generate(k.as_slice(), period, digits, algo, now)))
            }
        },
        None => {
            if secret.unicode_len() > 0 {
                Some(Preview::InvalidSecret)
            } else {
                Some(Preview::Nothing)
            }
        },
    }
}

/// The word that confirms wiping the vault.
pub open spec fn delete_word() -> Seq<char> {
    seq!['D', 'E', 'L', 'E', 'T', 'E']
}

/// Whether the "forgot password" box holds `DELETE` (surrounding white
/// space allowed).
pub fn forgot_confirmed(text: &str) -> (r: bool)
    ensures
        r == (trim(text@) == delete_word()),
{
    let t = trim_chars(chars_of(text).as_slice());
    let word: [char; 6] = ['D', 'E', 'L', 'E', 'T', 'E'];
    assert(word@ =~= delete_word());
    chars_equal(t.as_slice(), word.as_slice())
}

/// An empty search shows every account, in order.
pub proof fn lemma_empty_search_shows_all(entries: Seq<EntryModel>, n: nat)
    ensures
        shown_indices(entries, Seq::empty(), n) == Seq::new(n, |i: int| i as usize),
    decreases n,
{
    if n > 0 {
        lemma_empty_search_shows_all(entries, (n - 1) as nat);
        assert(Seq::new((n - 1) as nat, |i: int| i as usize).push((n - 1) as usize) =~= Seq::new(
            n,
            |i: int| i as usize,
        ));
    } else {
        assert(shown_indices(entries, Seq::empty(), n) =~= Seq::new(n, |i: int| i as usize));
    }
}

/// The search shows exactly the accounts that match, by increasing index.
pub proof fn lemma_shown_indices_are_the_matches(entries: Seq<EntryModel>, needle: Seq<char>, n: nat)
    requires
        n <= usize::MAX,
    ensures
        forall|k: int, l: int|
            0 <= k < l < shown_indices(entries, needle, n).len() ==> #[trigger] shown_indices(
                entries,
                needle,
                n,
            )[k] < #[trigger] shown_indices(entries, needle, n)[l],
        forall|i: int|
            0 <= i < n ==> (#[trigger] shown_indices(entries, needle, n).contains(i as usize) <==> (
            needle.len() == 0 || entry_matches(entries[i], needle))),
    decreases n,
{
    if n > 0 {
        let m = (n - 1) as nat;
        lemma_shown_indices_are_the_matches(entries, needle, m);
        lemma_shown_below(entries, needle, m);
        let before = shown_indices(entries, needle, m);
        let now = shown_indices(entries, needle, n);
        let keep = needle.len() == 0 || entry_matches(entries[m as int], needle);
        assert forall|k: int, l: int| 0 <= k < l < now.len() implies now[k] < now[l] by {
            if l < before.len() {
                assert(now[k] == before[k] && now[l] == before[l]);
                assert(before[k] < before[l]);
            } else {
                assert(now[k] == before[k]);
                assert((before[k] as int) < m);
            }
        }
        assert forall|i: int| 0 <= i < n implies (#[trigger] now.contains(i as usize) <==> (
            needle.len() == 0 || entry_matches(entries[i], needle))) by {
            if i < m {
                assert(before.contains(i as usize) <==> (needle.len() == 0 || entry_matches(
                    entries[i],
                    needle,
                )));
                if now.contains(i as usize) {
                    let j = choose|j: int| 0 <= j < now.len() && now[j] == i as usize;
                    if j < before.len() {
                        assert(before[j] == i as usize);
                        assert(before.contains(i as usize));
                    } else {
                        assert(now[j] == m as usize);
                    }
                }
                if before.contains(i as usize) {
                    let j = choose|j: int| 0 <= j < before.len() && before[j] == i as usize;
                    assert(now[j] == i as usize);
                    assert(now.contains(i as usize));
                }
            } else {
                if keep {
                    assert(now[before.len() as int] == i as usize);
                    assert(now.contains(i as usize));
                } else {
                    if now.contains(i as usize) {
                        let j = choose|j: int| 0 <= j < now.len() && now[j] == i as usize;
                        assert(now[j] == before[j]);
                        assert((before[j] as int) < m);
                    }
                }
            }
        }
    }
}

/// Whether `needle` occurs at some position of `hay`, anywhere from its
/// start to its end.
pub open spec fn occurs_in(hay: Seq<char>, needle: Seq<char>) -> bool {
    exists|j: int|
        0 <= j <= hay.len() - needle.len() && #[trigger] hay.subrange(j, j + needle.len())
            == needle
}

/// The search shows an account exactly when the lower-cased search text is
/// empty or occurs, at any position, in the lower-cased issuer or in the
/// lower-cased account name.
pub proof fn lemma_search_matches_anywhere(entries: Seq<EntryModel>, needle: Seq<char>, n: nat)
    requires
        n <= usize::MAX,
    ensures
        forall|i: int|
            0 <= i < n ==> (#[trigger] shown_indices(entries, needle, n).contains(i as usize) <==> (
            needle.len() == 0 || occurs_in(unicode_lowercase(entries[i].issuer), needle)
                || occurs_in(unicode_lowercase(entries[i].account), needle))),
{
    lemma_shown_indices_are_the_matches(entries, needle, n);
    assert forall|i: int| 0 <= i < n implies (entry_matches(entries[i], needle) <==> (occurs_in(
        unicode_lowercase(entries[i].issuer),
        needle,
    ) || occurs_in(unicode_lowercase(entries[i].account), needle))) by {
        let hi = unicode_lowercase(entries[i].issuer);
        let ha = unicode_lowercase(entries[i].account);
        if contains_seq(hi, needle) {
            let j = choose|j: int|
                0 <= j && j + needle.len() <= hi.len() && #[trigger] hi.subrange(
                    j,
                    j + needle.len(),
                ) == needle;
            assert(hi.subrange(j, j + needle.len()) == needle);
        }
        if occurs_in(hi, needle) {
            let j = choose|j: int|
                0 <= j <= hi.len() - needle.len() && #[trigger] hi.subrange(j, j + needle.len())
                    == needle;
            assert(hi.subrange(j, j + needle.len()) == needle);
        }
        if contains_seq(ha, needle) {
            let j = choose|j: int|
                0 <= j && j + needle.len() <= ha.len() && #[trigger] ha.subrange(
                    j,
                    j + needle.len(),
                ) == needle;
            assert(ha.subrange(j, j + needle.len()) == needle);
        }
        if occurs_in(ha, needle) {
            let j = choose|j: int|
                0 <= j <= ha.len() - needle.len() && #[trigger] ha.subrange(j, j + needle.len())
                    == needle;
            assert(ha.subrange(j, j + needle.len()) == needle);
        }
    }
}

/// Every index that the search shows is below the bound it was built to.
pub proof fn lemma_shown_below(entries: Seq<EntryModel>, needle: Seq<char>, n: nat)
    requires
        n <= usize::MAX,
    ensures
        forall|k: int|
            0 <= k < shown_indices(entries, needle, n).len() ==> (#[trigger] shown_indices(
                entries,
                needle,
                n,
            )[k] as int) < n,
    decreases n,
{
    if n > 0 {
        let m = (n - 1) as nat;
        lemma_shown_below(entries, needle, m);
        let before = shown_indices(entries, needle, m);
        let now = shown_indices(entries, needle, n);
        assert forall|k: int| 0 <= k < now.len() implies (now[k] as int) < n by {
            if k < before.len() {
                assert(now[k] == before[k]);
            }
        }
    }
}

/// A card with a valid secret shows the code of the account's own period,
/// digit count and algorithm: the zero-padded HOTP value, under that
/// algorithm, of the current time step; a card with an invalid secret
/// shows six dashes.
pub proof fn lemma_card_shows_own_code(e: EntryModel, now: u64)
    ensures
        secret_key(e.secret) matches Some(k) ==> card_code(e, now) == (
        totp_code(k, e.period, e.digits as nat, e.algorithm, now),
        true,
        ),
        secret_key(e.secret) matches Some(k) ==> card_code(e, now).0 == crate::totp::zero_padded(
            crate::totp::hotp_value(
                k,
                (now as nat / crate::totp::effective_period(e.period)) as u64,
                e.digits as nat,
                e.algorithm,
            ),
            e.digits as nat,
        ),
        secret_key(e.secret) is None ==> card_code(e, now) == (
        seq!['-', '-', '-', '-', '-', '-'],
        false,
        ),
{
}

/// An account's name plays no part in its code: two accounts with the same
/// secret, period, digits and algorithm show the same code.
pub proof fn lemma_names_do_not_affect_code(a: EntryModel, b: EntryModel, now: u64)
    requires
        a.secret == b.secret,
        a.period == b.period,
        a.digits == b.digits,
        a.algorithm == b.algorithm,
    ensures
        card_code(a, now) == card_code(b, now),
        card_drawable(a) == card_drawable(b),
{
}

} // verus!
