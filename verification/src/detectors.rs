//! Sensitive-value detectors: the value classes, their checksums, and the
//! search that turns a text into a list of non-overlapping matches.

use vstd::prelude::*;
use vstd::string::*;

use vstd::utf8::*;

use crate::pattern::{
    escape_literal, is_alphabetic, regex_captures, regex_captures_of, regex_escaped,
    unicode_alphabetic, Capture, CARD_PATTERN, CREDENTIAL_PATTERN, EMAIL_PATTERN, IBAN_PATTERN,
    NATIONAL_ID_PATTERN, PASSWORD_PATTERN, PERSON_NAME_PATTERN, PHONE_INTERNATIONAL_PATTERN,
    PHONE_PATTERN, PLACEHOLDER_PATTERN,
};
use crate::text::{
    chars_in, chars_of, digit_value, is_digit, skip_end, skip_start, span_ok, str_equal, substr,
    trim_end_in, trim_in, trim_start_in, lemma_span_valid, CharClass,
};

verus! {

/// The class of a detected value. The placeholder prefix is a Turkish token
/// (`TCKN` in `TCKN_1`), so a masked file reads the same in every tool that
/// shares the convention.
#[derive(Debug, Clone, Copy, PartialEq, Eq, Structural, Hash, PartialOrd, Ord)]
pub enum Kind {
    Password,
    NationalId,
    Iban,
    CreditCard,
    Email,
    Phone,
    PersonName,
    CustomWord,
}

/// Position of a kind in declaration order; also its tie-break rank.
pub open spec fn kind_rank(k: Kind) -> int {
    match k {
        Kind::Password => 0,
        Kind::NationalId => 1,
        Kind::Iban => 2,
        Kind::CreditCard => 3,
        Kind::Email => 4,
        Kind::Phone => 5,
        Kind::PersonName => 6,
        Kind::CustomWord => 7,
    }
}

/// The placeholder prefix of a kind.
pub open spec fn prefix_of(k: Kind) -> Seq<char> {
    match k {
        Kind::Password => seq!['S', 'I', 'F', 'R', 'E'],
        Kind::NationalId => seq!['T', 'C', 'K', 'N'],
        Kind::Iban => seq!['I', 'B', 'A', 'N'],
        Kind::CreditCard => seq!['K', 'A', 'R', 'T'],
        Kind::Email => seq!['E', 'P', 'O', 'S', 'T', 'A'],
        Kind::Phone => seq!['T', 'E', 'L'],
        Kind::PersonName => seq!['K', 'I', 'S', 'I'],
        Kind::CustomWord => seq!['O', 'Z', 'E', 'L'],
    }
}

/// The kinds in declaration order.
pub open spec fn all_kinds() -> Seq<Kind> {
    seq![
        Kind::Password,
        Kind::NationalId,
        Kind::Iban,
        Kind::CreditCard,
        Kind::Email,
        Kind::Phone,
        Kind::PersonName,
        Kind::CustomWord,
    ]
}

/// The kind whose placeholder prefix is `p`, if any.
pub open spec fn kind_with_prefix(p: Seq<char>) -> Option<Kind> {
    if exists|k: Kind| prefix_of(k) == p {
        Some(choose|k: Kind| prefix_of(k) == p)
    } else {
        None
    }
}

/// Different kinds have different prefixes.
pub proof fn lemma_prefixes_distinct(a: Kind, b: Kind)
    ensures
        prefix_of(a) == prefix_of(b) ==> a == b,
{
    if prefix_of(a) == prefix_of(b) {
        assert(prefix_of(a).len() == prefix_of(b).len());
        assert(prefix_of(a)[0] == prefix_of(b)[0]);
        assert(prefix_of(a)[1] == prefix_of(b)[1]);
    }
}

/// No prefix contains an underscore.
pub proof fn lemma_prefix_has_no_underscore(k: Kind)
    ensures
        forall|i: int| 0 <= i < prefix_of(k).len() ==> prefix_of(k)[i] != '_',
        prefix_of(k).len() > 0,
{
}

impl Kind {
    /// Placeholder prefix, e.g. `TCKN` in `TCKN_1`.
    pub fn prefix(self) -> (r: &'static str)
        ensures
            r@ == prefix_of(self),
    {
        match self {
            Kind::Password => {
                proof { reveal_strlit("SIFRE"); }
                "SIFRE"
            },
            Kind::NationalId => {
                proof { reveal_strlit("TCKN"); }
                "TCKN"
            },
            Kind::Iban => {
                proof { reveal_strlit("IBAN"); }
                "IBAN"
            },
            Kind::CreditCard => {
                proof { reveal_strlit("KART"); }
                "KART"
            },
            Kind::Email => {
                proof { reveal_strlit("EPOSTA"); }
                "EPOSTA"
            },
            Kind::Phone => {
                proof { reveal_strlit("TEL"); }
                "TEL"
            },
            Kind::PersonName => {
                proof { reveal_strlit("KISI"); }
                "KISI"
            },
            Kind::CustomWord => {
                proof { reveal_strlit("OZEL"); }
                "OZEL"
            },
        }
    }

    /// Position of the kind in declaration order.
    pub fn rank(self) -> (r: usize)
        ensures
            r as int == kind_rank(self),
    {
        match self {
            Kind::Password => 0,
            Kind::NationalId => 1,
            Kind::Iban => 2,
            Kind::CreditCard => 3,
            Kind::Email => 4,
            Kind::Phone => 5,
            Kind::PersonName => 6,
            Kind::CustomWord => 7,
        }
    }

    /// Every kind, in declaration order.
    pub fn all() -> (r: Vec<Kind>)
        ensures
            r@ == all_kinds(),
    {
        let r = vec![
            Kind::Password,
            Kind::NationalId,
            Kind::Iban,
            Kind::CreditCard,
            Kind::Email,
            Kind::Phone,
            Kind::PersonName,
            Kind::CustomWord,
        ];
        assert(r@ =~= all_kinds());
        r
    }

    /// The kind whose placeholder prefix is `prefix`.
    pub fn from_prefix(prefix: &str) -> (r: Option<Kind>)
        ensures
            r == kind_with_prefix(prefix@),
    {
        let kinds = Kind::all();
        let mut i: usize = 0;
        while i < kinds.len()
            invariant
                kinds@ == all_kinds(),
                i <= 8,
                forall|j: int| 0 <= j < i ==> prefix_of(#[trigger] all_kinds()[j]) != prefix@,
            decreases 8 - i,
        {
            let k = kinds[i];
            if str_equal(k.prefix(), prefix) {
                proof {
                    assert forall|k2: Kind| prefix_of(k2) == prefix@ implies k2 == k by {
                        lemma_prefixes_distinct(k2, k);
                    }
                }
                return Some(k);
            }
            i = i + 1;
        }
        proof {
            assert forall|k: Kind| prefix_of(k) != prefix@ by {
                assert(all_kinds()[kind_rank(k)] == k);
            }
        }
        None
    }
}

/// The ASCII digits of `cs`, in order: what `char::to_digit(10)` keeps.
pub open spec fn digits_of(cs: Seq<char>) -> Seq<char>
    decreases cs.len(),
{
    if cs.len() == 0 {
        seq![]
    } else if is_digit(cs.last()) {
        digits_of(cs.drop_last()).push(cs.last())
    } else {
        digits_of(cs.drop_last())
    }
}

/// One Luhn term: the digit itself, or its double with 9 taken off when
/// the double exceeds 9.
pub open spec fn luhn_term(d: int, doubled: bool) -> int {
    if doubled {
        if 2 * d > 9 {
            2 * d - 9
        } else {
            2 * d
        }
    } else {
        d
    }
}

/// The Luhn sum of `ds`, read from the right; `doubled` says whether the
/// rightmost digit is doubled.
pub open spec fn luhn_sum(ds: Seq<char>, doubled: bool) -> int
    decreases ds.len(),
{
    if ds.len() == 0 {
        0
    } else {
        luhn_term(digit_value(ds.last()), doubled) + luhn_sum(ds.drop_last(), !doubled)
    }
}

/// A card number: 13 to 19 digits whose Luhn sum is a multiple of 10.
/// Characters other than ASCII digits (spaces, dashes) are ignored.
pub open spec fn luhn_ok(cs: Seq<char>) -> bool {
    let ds = digits_of(cs);
    13 <= ds.len() <= 19 && luhn_sum(ds, false) % 10 == 0
}

/// A Turkish national ID: eleven digits, the first not zero, the tenth
/// equal to `(7 * (d1 + d3 + d5 + d7 + d9) - (d2 + d4 + d6 + d8)) mod 10`
/// and the eleventh equal to the sum of the first ten, mod 10.
pub open spec fn tckn_ok(cs: Seq<char>) -> bool {
    let d = digits_of(cs);
    &&& d.len() == 11
    &&& digit_value(d[0]) != 0
    &&& tckn_check_digits(d)
}

proof fn lemma_digits_of_all_digits(cs: Seq<char>)
    ensures
        forall|i: int| 0 <= i < digits_of(cs).len() ==> is_digit(#[trigger] digits_of(cs)[i]),
        digits_of(cs).len() <= cs.len(),
    decreases cs.len(),
{
    if cs.len() > 0 {
        lemma_digits_of_all_digits(cs.drop_last());
    }
}

/// The ASCII digits of `s`.
fn digit_chars(s: &str) -> (ds: Vec<char>)
    ensures
        ds@ == digits_of(s@),
        forall|i: int| 0 <= i < ds@.len() ==> is_digit(#[trigger] ds@[i]),
{
    let cs = chars_of(s);
    let mut ds: Vec<char> = Vec::new();
    let mut i: usize = 0;
    while i < cs.len()
        invariant
            cs@ == s@,
            i <= cs@.len(),
            ds@ == digits_of(cs@.take(i as int)),
        decreases cs@.len() - i,
    {
        assert(cs@.take(i + 1).drop_last() =~= cs@.take(i as int));
        let c = cs[i];
        if '0' <= c && c <= '9' {
            ds.push(c);
        }
        i = i + 1;
    }
    assert(cs@.take(cs@.len() as int) =~= cs@);
    proof {
        lemma_digits_of_all_digits(s@);
    }
    ds
}

/// Luhn checksum over the digits of `raw`; anything but ASCII digits is
/// ignored, and 13 to 19 digits are required.
pub fn luhn_valid(raw: &str) -> (r: bool)
    ensures
        r == luhn_ok(raw@),
{
    let ds = digit_chars(raw);
    let n = ds.len();
    if n < 13 || n > 19 {
        return false;
    }
    let mut sum: u32 = 0;
    let mut k: usize = n;
    let mut doubled = false;
    assert(ds@.take(n as int) =~= ds@);
    while k > 0
        invariant
            n == ds@.len(),
            13 <= n <= 19,
            k <= n,
            forall|i: int| 0 <= i < ds@.len() ==> is_digit(#[trigger] ds@[i]),
            doubled == ((n - k) % 2 == 1),
            sum <= 18 * (n - k),
            sum + luhn_sum(ds@.take(k as int), doubled) == luhn_sum(ds@, false),
        decreases k,
    {
        let c = ds[k - 1];
        let d = (c as u32) - ('0' as u32);
        assert(ds@.take(k as int).drop_last() =~= ds@.take(k - 1));
        assert(is_digit(ds@[k - 1]));
        let term = if doubled {
            if d * 2 > 9 {
                d * 2 - 9
            } else {
                d * 2
            }
        } else {
            d
        };
        assert(term == luhn_term(digit_value(c), doubled));
        sum = sum + term;
        doubled = !doubled;
        k = k - 1;
    }
    assert(ds@.take(0) =~= Seq::<char>::empty());
    assert(ds@.take(n as int) =~= ds@);
    sum % 10 == 0
}

/// The two check digits of an eleven-digit national ID.
pub open spec fn tckn_check_digits(d: Seq<char>) -> bool {
    &&& digit_value(d[9]) == (7 * (digit_value(d[0]) + digit_value(d[2]) + digit_value(d[4])
        + digit_value(d[6]) + digit_value(d[8])) - (digit_value(d[1]) + digit_value(d[3])
        + digit_value(d[5]) + digit_value(d[7]))) % 10
    &&& digit_value(d[10]) == (digit_value(d[0]) + digit_value(d[1]) + digit_value(d[2])
        + digit_value(d[3]) + digit_value(d[4]) + digit_value(d[5]) + digit_value(d[6])
        + digit_value(d[7]) + digit_value(d[8]) + digit_value(d[9])) % 10
}

proof fn lemma_mod_ten_shift(x: int)
    ensures
        (x + 100) % 10 == x % 10,
{
    vstd::arithmetic::div_mod::lemma_mod_multiples_vanish(10, x, 10);
    assert(10 * 10 + x == x + 100);
}

fn tckn_check_digits_hold(d: &Vec<char>) -> (r: bool)
    requires
        d@.len() == 11,
        forall|i: int| 0 <= i < 11 ==> is_digit(#[trigger] d@[i]),
    ensures
        r == tckn_check_digits(d@),
{
    let mut v: Vec<u32> = Vec::new();
    let mut i: usize = 0;
    while i < 11
        invariant
            d@.len() == 11,
            forall|k: int| 0 <= k < 11 ==> is_digit(#[trigger] d@[k]),
            i <= 11,
            v@.len() == i,
            forall|k: int| 0 <= k < i ==> #[trigger] v@[k] as int == digit_value(d@[k]) && v@[k] < 10,
        decreases 11 - i,
    {
        assert(is_digit(d@[i as int]));
        v.push((d[i] as u32) - ('0' as u32));
        i = i + 1;
    }
    let odd = v[0] + v[2] + v[4] + v[6] + v[8];
    let even = v[1] + v[3] + v[5] + v[7];
    let ghost x = 7 * (odd as int) - (even as int);
    // `odd * 7 - even` may be negative; adding 100 keeps it in range
    // without changing its remainder.
    let digit10 = (odd * 7 + 100 - even) % 10;
    let digit11 = (v[0] + v[1] + v[2] + v[3] + v[4] + v[5] + v[6] + v[7] + v[8] + v[9]) % 10;
    proof {
        lemma_mod_ten_shift(x);
        assert((odd * 7 + 100 - even) as int == x + 100);
    }
    v[9] == digit10 && v[10] == digit11
}

/// Turkish national ID checksum over the digits of `raw`.
pub fn tckn_valid(raw: &str) -> (r: bool)
    ensures
        r == tckn_ok(raw@),
{
    let d = digit_chars(raw);
    if d.len() != 11 || d[0] == '0' {
        return false;
    }
    assert(digit_value(d@[0]) != 0);
    tckn_check_digits_hold(&d)
}

/// One detected value with its byte range in the source text.
#[derive(Debug, Clone, PartialEq, Eq)]
pub struct Match {
    pub start: usize,
    pub end: usize,
    pub value: String,
    pub kind: Kind,
}

/// A match as a mathematical value: start, end, characters, kind.
pub type MatchView = (usize, usize, Seq<char>, Kind);

impl View for Match {
    type V = MatchView;

    open spec fn view(&self) -> MatchView {
        (self.start, self.end, self.value@, self.kind)
    }
}

/// The views of a sequence of matches.
pub open spec fn views(ms: Seq<Match>) -> Seq<MatchView> {
    ms.map_values(|m: Match| m@)
}

/// `m` lies in the text `t` on character boundaries and carries exactly
/// the characters of its span.
pub open spec fn fits(t: Seq<char>, m: MatchView) -> bool {
    &&& span_ok(encode_utf8(t), m.0 as int, m.1 as int)
    &&& m.2 == chars_in(encode_utf8(t), m.0 as int, m.1 as int)
}

/// Every match of `ms` fits `t`.
pub open spec fn all_fit(t: Seq<char>, ms: Seq<MatchView>) -> bool {
    forall|i: int| 0 <= i < ms.len() ==> fits(t, #[trigger] ms[i])
}

/// What a detector asks of a candidate value beyond matching its pattern.
#[derive(Debug, Clone, Copy, PartialEq, Eq, Structural)]
pub enum Check {
    /// Nothing.
    Any,
    /// The Luhn checksum of a card number.
    Luhn,
    /// The checksum of a Turkish national ID.
    NationalId,
    /// At least three characters once surrounding quotes are taken off.
    QuotedValue,
    /// The shape of a password seen without a label.
    CredentialShape,
    /// A number of ASCII digits in `min..=max`.
    DigitCount { min: usize, max: usize },
}

/// `pat` occurs in `s` at index `i`.
pub open spec fn occurs_at(s: Seq<char>, i: int, pat: Seq<char>) -> bool {
    0 <= i && i + pat.len() <= s.len() && s.subrange(i, i + pat.len()) == pat
}

/// `pat` occurs somewhere in `s`.
pub open spec fn contains_seq(s: Seq<char>, pat: Seq<char>) -> bool {
    exists|i: int| occurs_at(s, i, pat)
}

/// `s` starts with `www.`, letters in either case. This is what
/// `s.to_lowercase().starts_with("www.")` decides: `W` and `w` are the only
/// characters whose lowercase starts with `w`, `.` the only one whose
/// lowercase starts with `.`, and the one character with a longer
/// lowercase form (U+0130) lowercases to a string starting with `i`.
pub open spec fn starts_www(s: Seq<char>) -> bool {
    &&& s.len() >= 4
    &&& (s[0] == 'w' || s[0] == 'W')
    &&& (s[1] == 'w' || s[1] == 'W')
    &&& (s[2] == 'w' || s[2] == 'W')
    &&& s[3] == '.'
}

/// A character of `@!#$%^&*?+=~`.
pub open spec fn is_special(c: char) -> bool {
    c == '@' || c == '!' || c == '#' || c == '$' || c == '%' || c == '^' || c == '&' || c == '*'
        || c == '?' || c == '+' || c == '=' || c == '~'
}

/// Whether `v` is, as a whole, one of the placeholders this library mints.
pub open spec fn placeholder_like(v: Seq<char>) -> bool {
    match regex_captures_of(PLACEHOLDER_PATTERN@, v, 0) {
        Some(cs) => cs.len() > 0,
        None => false,
    }
}

/// Whether an e-mail address occurs in `v`.
pub open spec fn email_inside(v: Seq<char>) -> bool {
    match regex_captures_of(EMAIL_PATTERN@, v, 0) {
        Some(cs) => cs.len() > 0,
        None => false,
    }
}

/// A credential-shaped token with its surrounding punctuation taken off.
pub open spec fn credential_core(raw: Seq<char>) -> Seq<char> {
    trim_start_in(trim_end_in(raw, CharClass::ClosingPunct), CharClass::OpeningPunct)
}

/// A token that looks like a password: at least six characters, not a
/// URL, not an e-mail address, not a placeholder, and holding a letter,
/// an ASCII digit and one of `@!#$%^&*?+=~`.
pub open spec fn credential_shape(raw: Seq<char>) -> bool {
    let v = credential_core(raw);
    &&& v.len() >= 6
    &&& !contains_seq(v, seq![':', '/', '/'])
    &&& !starts_www(v)
    &&& !placeholder_like(v)
    &&& !email_inside(v)
    &&& exists|i: int| 0 <= i < v.len() && unicode_alphabetic(#[trigger] v[i])
    &&& exists|i: int| 0 <= i < v.len() && is_digit(#[trigger] v[i])
    &&& exists|i: int| 0 <= i < v.len() && is_special(#[trigger] v[i])
}

/// Whether the value `v` passes `check`.
pub open spec fn check_ok(check: Check, v: Seq<char>) -> bool {
    match check {
        Check::Any => true,
        Check::Luhn => luhn_ok(v),
        Check::NationalId => tckn_ok(v),
        Check::QuotedValue => trim_in(v, CharClass::Quote).len() >= 3,
        Check::CredentialShape => credential_shape(v),
        Check::DigitCount { min, max } => min <= digits_of(v).len() <= max,
    }
}

/// True when the token is, as a whole, one of our placeholders.
pub fn is_placeholder(value: &str) -> (r: bool)
    ensures
        r == placeholder_like(value@),
{
    match regex_captures(PLACEHOLDER_PATTERN, value, 0) {
        Some(found) => found.len() > 0,
        None => false,
    }
}

fn email_found(value: &str) -> (r: bool)
    ensures
        r == email_inside(value@),
{
    match regex_captures(EMAIL_PATTERN, value, 0) {
        Some(found) => found.len() > 0,
        None => false,
    }
}

fn has_www_prefix(cs: &Vec<char>, a: usize, b: usize) -> (r: bool)
    requires
        a <= b <= cs@.len(),
    ensures
        r == starts_www(cs@.subrange(a as int, b as int)),
{
    if b - a < 4 {
        return false;
    }
    let c0 = cs[a];
    let c1 = cs[a + 1];
    let c2 = cs[a + 2];
    let c3 = cs[a + 3];
    (c0 == 'w' || c0 == 'W') && (c1 == 'w' || c1 == 'W') && (c2 == 'w' || c2 == 'W') && c3 == '.'
}

fn has_scheme_separator(cs: &Vec<char>, a: usize, b: usize) -> (r: bool)
    requires
        a <= b <= cs@.len(),
    ensures
        r == contains_seq(cs@.subrange(a as int, b as int), seq![':', '/', '/']),
{
    let ghost v = cs@.subrange(a as int, b as int);
    let mut i = a;
    while b - i >= 3
        invariant
            a <= i <= b,
            b <= cs@.len(),
            v == cs@.subrange(a as int, b as int),
            forall|k: int| 0 <= k < i - a ==> !occurs_at(v, k, seq![':', '/', '/']),
        decreases b - i,
    {
        if cs[i] == ':' && cs[i + 1] == '/' && cs[i + 2] == '/' {
            assert(occurs_at(v, i - a, seq![':', '/', '/'])) by {
                assert(v.subrange(i - a, i - a + 3) =~= seq![':', '/', '/']);
            }
            return true;
        }
        assert(!occurs_at(v, i - a, seq![':', '/', '/'])) by {
            if occurs_at(v, i - a, seq![':', '/', '/']) {
                assert(v.subrange(i - a, i - a + 3)[0] == v[i - a]);
                assert(v.subrange(i - a, i - a + 3)[1] == v[i - a + 1]);
                assert(v.subrange(i - a, i - a + 3)[2] == v[i - a + 2]);
            }
        }
        i = i + 1;
    }
    assert forall|k: int| !occurs_at(v, k, seq![':', '/', '/']) by {
        if 0 <= k && k + 3 <= v.len() {
            assert(k < i - a);
        }
    }
    false
}

/// The shape test for unlabelled passwords.
fn credential_shape_check(raw: &str) -> (r: bool)
    ensures
        r == credential_shape(raw@),
{
    let cs = chars_of(raw);
    let n = cs.len();
    let b = skip_end(&cs, 0, n, CharClass::ClosingPunct);
    assert(cs@.subrange(0, n as int) =~= cs@);
    let a = skip_start(&cs, 0, b, CharClass::OpeningPunct);
    let ghost v = cs@.subrange(a as int, b as int);
    assert(v == credential_core(raw@));
    if b - a < 6 || has_scheme_separator(&cs, a, b) || has_www_prefix(&cs, a, b) {
        return false;
    }
    let core = raw.substring_char(a, b);
    if is_placeholder(core) || email_found(core) {
        return false;
    }
    let mut alpha = false;
    let mut digit = false;
    let mut special = false;
    let mut i = a;
    while i < b
        invariant
            a <= i <= b <= cs@.len(),
            v == cs@.subrange(a as int, b as int),
            alpha == exists|k: int| 0 <= k < i - a && unicode_alphabetic(#[trigger] v[k]),
            digit == exists|k: int| 0 <= k < i - a && is_digit(#[trigger] v[k]),
            special == exists|k: int| 0 <= k < i - a && is_special(#[trigger] v[k]),
        decreases b - i,
    {
        let c = cs[i];
        assert(v[i - a] == c);
        if is_alphabetic(c) {
            alpha = true;
        }
        if '0' <= c && c <= '9' {
            digit = true;
        }
        if c == '@' || c == '!' || c == '#' || c == '$' || c == '%' || c == '^' || c == '&' || c
            == '*' || c == '?' || c == '+' || c == '=' || c == '~' {
            special = true;
        }
        i = i + 1;
    }
    alpha && digit && special
}

/// Whether `value` passes `check`.
pub fn check_value(check: Check, value: &str) -> (r: bool)
    ensures
        r == check_ok(check, value@),
{
    match check {
        Check::Any => true,
        Check::Luhn => luhn_valid(value),
        Check::NationalId => tckn_valid(value),
        Check::QuotedValue => {
            let cs = chars_of(value);
            let n = cs.len();
            let a = skip_start(&cs, 0, n, CharClass::Quote);
            let b = skip_end(&cs, a, n, CharClass::Quote);
            assert(cs@.subrange(0, n as int) =~= cs@);
            b - a >= 3
        },
        Check::CredentialShape => credential_shape_check(value),
        Check::DigitCount { min, max } => {
            let ds = digit_chars(value);
            min <= ds.len() && ds.len() <= max
        },
    }
}

/// Neither neighbour of `[s, e)` in `t` is an ASCII digit: the character
/// just before the span and the one just after it, where they exist.
pub open spec fn digit_isolated(t: Seq<char>, s: int, e: int) -> bool {
    let b = encode_utf8(t);
    let before = chars_in(b, 0, s);
    let after = chars_in(b, e, b.len() as int);
    &&& (before.len() == 0 || !is_digit(before.last()))
    &&& (after.len() == 0 || !is_digit(after[0]))
}

proof fn lemma_decode_nonempty(bytes: Seq<u8>)
    requires
        valid_utf8(bytes),
        bytes.len() > 0,
    ensures
        decode_utf8(bytes).len() > 0,
{
    reveal_with_fuel(decode_utf8, 1);
}

/// The characters of `[lo, hi)` and `[lo, mid)`, `[mid, hi)` of valid
/// UTF-8, when all three are spans.
proof fn lemma_chars_in_split(b: Seq<u8>, lo: int, mid: int, hi: int)
    requires
        valid_utf8(b),
        span_ok(b, lo, mid),
        span_ok(b, mid, hi),
    ensures
        chars_in(b, lo, hi) == chars_in(b, lo, mid) + chars_in(b, mid, hi),
        valid_utf8(b.subrange(lo, mid)),
        valid_utf8(b.subrange(mid, hi)),
{
    lemma_span_valid(b, lo, hi);
    lemma_span_valid(b, lo, mid);
    lemma_span_valid(b, mid, hi);
    let whole = b.subrange(lo, hi);
    let k = mid - lo;
    if mid < hi {
        is_char_boundary_iff_not_is_continuation_byte(b, mid);
        is_char_boundary_iff_not_is_continuation_byte(whole, k);
        assert(whole[k] == b[mid]);
    } else {
        is_char_boundary_start_end_of_seq(whole);
    }
    decode_utf8_split(whole, k);
    assert(whole.subrange(0, k) =~= b.subrange(lo, mid));
    assert(whole.subrange(k, whole.len() as int) =~= b.subrange(mid, hi));
}

/// True when neither neighbour of `start..end` is an ASCII digit.
pub fn digit_isolated_in(text: &str, start: usize, end: usize) -> (r: bool)
    requires
        span_ok(text.spec_bytes(), start as int, end as int),
    ensures
        r == digit_isolated(text@, start as int, end as int),
{
    let ghost b = text.spec_bytes();
    let n = text.as_bytes().len();
    proof {
        encode_utf8_valid_utf8(text@);
        is_char_boundary_start_end_of_seq(b);
    }
    let before_ok = if start == 0 {
        proof {
            assert(b.subrange(0, 0) =~= Seq::<u8>::empty());
        }
        true
    } else {
        let mut p = start - 1;
        while !text.is_char_boundary(p)
            invariant
                p < start,
                start as int <= b.len(),
                b == text.spec_bytes(),
                valid_utf8(b),
                is_char_boundary(b, 0),
            decreases p,
        {
            p = p - 1;
        }
        let piece = chars_of(substr(text, p, start));
        proof {
            lemma_chars_in_split(b, 0, p as int, start as int);
            lemma_decode_nonempty(b.subrange(p as int, start as int));
        }
        !('0' <= piece[piece.len() - 1] && piece[piece.len() - 1] <= '9')
    };
    let after_ok = if end == n {
        proof {
            assert(b.subrange(end as int, end as int) =~= Seq::<u8>::empty());
        }
        true
    } else {
        let mut q = end + 1;
        while q < n && !text.is_char_boundary(q)
            invariant
                end < q <= n,
                n == b.len(),
                b == text.spec_bytes(),
            decreases n - q,
        {
            q = q + 1;
        }
        let piece = chars_of(substr(text, end, q));
        proof {
            lemma_chars_in_split(b, end as int, q as int, n as int);
            lemma_decode_nonempty(b.subrange(end as int, q as int));
        }
        !('0' <= piece[0] && piece[0] <= '9')
    };
    before_ok && after_ok
}

/// A search for one class of value: its pattern, the capture group that
/// carries the value (0 for the whole match), the check the value must
/// pass, and whether a digit may touch the match on either side.
#[derive(Debug, Clone, Copy)]
pub struct Detector {
    pub kind: Kind,
    pub pattern: &'static str,
    pub group: usize,
    pub check: Check,
    pub digit_boundary: bool,
}

/// The byte span a capture reports for the value: the group's, or the
/// whole match when the group did not take part.
pub open spec fn value_span(c: Capture) -> (usize, usize) {
    match c.1 {
        Some(g) => g,
        None => c.0,
    }
}

/// Whether detector `d` keeps capture `c` found in `t`: a non-empty value
/// that passes the check, with no digit touching it when that is asked.
pub open spec fn capture_kept(d: Detector, t: Seq<char>, c: Capture) -> bool {
    let (s, e) = value_span(c);
    &&& s < e
    &&& check_ok(d.check, chars_in(encode_utf8(t), s as int, e as int))
    &&& (d.digit_boundary ==> digit_isolated(t, s as int, e as int))
}

/// The match that detector `d` makes of capture `c` in `t`.
pub open spec fn capture_match(d: Detector, t: Seq<char>, c: Capture) -> MatchView {
    let (s, e) = value_span(c);
    (s, e, chars_in(encode_utf8(t), s as int, e as int), d.kind)
}

/// The matches detector `d` makes of the captures `cs` in `t`, in order.
pub open spec fn kept_captures(d: Detector, t: Seq<char>, cs: Seq<Capture>) -> Seq<MatchView>
    decreases cs.len(),
{
    if cs.len() == 0 {
        seq![]
    } else {
        let rest = kept_captures(d, t, cs.drop_last());
        if capture_kept(d, t, cs.last()) {
            rest.push(capture_match(d, t, cs.last()))
        } else {
            rest
        }
    }
}

/// Everything detector `d` finds in `t`.
pub open spec fn found_by(d: Detector, t: Seq<char>) -> Seq<MatchView> {
    match regex_captures_of(d.pattern@, t, d.group) {
        Some(cs) => kept_captures(d, t, cs),
        None => seq![],
    }
}

/// Everything detector `d` finds in `text`.
pub fn find(d: &Detector, text: &str) -> (r: Vec<Match>)
    ensures
        views(r@) == found_by(*d, text@),
        all_fit(text@, views(r@)),
{
    let mut out: Vec<Match> = Vec::new();
    let found = regex_captures(d.pattern, text, d.group);
    match found {
        None => {
            assert(views(out@) =~= Seq::<MatchView>::empty());
            out
        },
        Some(caps) => {
            let ghost cs = caps@;
            let mut i: usize = 0;
            while i < caps.len()
                invariant
                    cs == caps@,
                    regex_captures_of(d.pattern@, text@, d.group) == Some(cs),
                    crate::pattern::captures_fit(text.spec_bytes(), cs),
                    i <= cs.len(),
                    views(out@) == kept_captures(*d, text@, cs.take(i as int)),
                    all_fit(text@, views(out@)),
                decreases cs.len() - i,
            {
                assert(cs.take(i + 1).drop_last() =~= cs.take(i as int));
                let c = caps[i];
                let (s, e) = match c.1 {
                    Some(g) => g,
                    None => c.0,
                };
                assert(span_ok(text.spec_bytes(), s as int, e as int));
                if s < e {
                    let piece = substr(text, s, e);
                    if check_value(d.check, piece) && (!d.digit_boundary || digit_isolated_in(
                        text,
                        s,
                        e,
                    )) {
                        let m = Match { start: s, end: e, value: String::from_str(piece), kind: d.kind };
                        let ghost before = out@;
                        out.push(m);
                        assert(views(out@) =~= views(before).push(m@));
                    }
                }
                i = i + 1;
            }
            assert(cs.take(cs.len() as int) =~= cs);
            out
        },
    }
}

/// The order matches are considered in when overlaps are resolved:
/// earlier start first, then the longer one, then the lower kind.
pub open spec fn goes_before(a: MatchView, b: MatchView) -> bool {
    ||| a.0 < b.0
    ||| a.0 == b.0 && b.1 - b.0 < a.1 - a.0
    ||| a.0 == b.0 && b.1 - b.0 == a.1 - a.0 && kind_rank(a.3) < kind_rank(b.3)
}

/// `x` placed into the sorted `s` ahead of the first element it goes
/// before, so that equal elements keep their order.
pub open spec fn insert_in_order(s: Seq<MatchView>, x: MatchView) -> Seq<MatchView>
    decreases s.len(),
{
    if s.len() == 0 {
        seq![x]
    } else if goes_before(x, s[0]) {
        seq![x] + s
    } else {
        seq![s[0]] + insert_in_order(s.drop_first(), x)
    }
}

/// `s` stably sorted by `goes_before`.
pub open spec fn in_order(s: Seq<MatchView>) -> Seq<MatchView>
    decreases s.len(),
{
    if s.len() == 0 {
        seq![]
    } else {
        insert_in_order(in_order(s.drop_last()), s.last())
    }
}

/// Walking `s` in order, keep each match that starts at or after the end
/// of the last one kept.
pub open spec fn keep_first_fit(s: Seq<MatchView>) -> Seq<MatchView>
    decreases s.len(),
{
    if s.len() == 0 {
        seq![]
    } else {
        let kept = keep_first_fit(s.drop_last());
        if kept.len() > 0 && s.last().0 < kept.last().1 {
            kept
        } else {
            kept.push(s.last())
        }
    }
}

/// What overlap resolution leaves of `s`.
pub open spec fn without_overlaps(s: Seq<MatchView>) -> Seq<MatchView> {
    keep_first_fit(in_order(s))
}

/// Every match of `s` starts no later than it ends.
pub open spec fn well_ordered_spans(s: Seq<MatchView>) -> bool {
    forall|i: int| 0 <= i < s.len() ==> (#[trigger] s[i]).0 <= s[i].1
}

/// Every match of `s` ends at or before the start of every later one.
pub open spec fn disjoint_ascending(s: Seq<MatchView>) -> bool {
    forall|i: int, j: int| 0 <= i < j < s.len() ==> (#[trigger] s[i]).1 <= (#[trigger] s[j]).0
}

/// The index at which `insert_in_order` places `x`.
pub open spec fn insert_index(s: Seq<MatchView>, x: MatchView) -> int
    decreases s.len(),
{
    if s.len() == 0 {
        0
    } else if goes_before(x, s[0]) {
        0
    } else {
        1 + insert_index(s.drop_first(), x)
    }
}

proof fn lemma_insert_in_order(s: Seq<MatchView>, x: MatchView)
    ensures
        0 <= insert_index(s, x) <= s.len(),
        insert_in_order(s, x) == s.insert(insert_index(s, x), x),
        forall|j: int| 0 <= j < insert_index(s, x) ==> !goes_before(x, #[trigger] s[j]),
        insert_index(s, x) < s.len() ==> goes_before(x, s[insert_index(s, x)]),
    decreases s.len(),
{
    if s.len() > 0 && !goes_before(x, s[0]) {
        lemma_insert_in_order(s.drop_first(), x);
        let k = insert_index(s.drop_first(), x);
        assert(insert_in_order(s, x) =~= s.insert(insert_index(s, x), x));
        assert forall|j: int| 0 <= j < insert_index(s, x) implies !goes_before(x, #[trigger] s[j]) by {
            if j > 0 {
                assert(s[j] == s.drop_first()[j - 1]);
            }
        }
    } else if s.len() > 0 {
        assert(insert_in_order(s, x) =~= s.insert(0, x));
    } else {
        assert(insert_in_order(s, x) =~= s.insert(0, x));
    }
}

/// Sorting keeps exactly the elements it was given.
proof fn lemma_in_order_members(s: Seq<MatchView>)
    ensures
        in_order(s).len() == s.len(),
        forall|y: MatchView| #[trigger] in_order(s).contains(y) <==> s.contains(y),
    decreases s.len(),
{
    if s.len() > 0 {
        let rest = in_order(s.drop_last());
        lemma_in_order_members(s.drop_last());
        lemma_insert_in_order(rest, s.last());
        let k = insert_index(rest, s.last());
        assert forall|y: MatchView| #[trigger] in_order(s).contains(y) <==> s.contains(y) by {
            let r = rest.insert(k, s.last());
            if r.contains(y) {
                let i = choose|i: int| 0 <= i < r.len() && r[i] == y;
                if i != k {
                    let j = if i < k { i } else { i - 1 };
                    assert(rest[j] == y);
                    assert(rest.contains(y));
                    assert(s.drop_last().contains(y));
                    let m = choose|m: int| 0 <= m < s.drop_last().len() && s.drop_last()[m] == y;
                    assert(s[m] == y);
                } else {
                    assert(s[s.len() - 1] == y);
                }
            }
            if s.contains(y) {
                let i = choose|i: int| 0 <= i < s.len() && s[i] == y;
                if i == s.len() - 1 {
                    assert(r[k] == y);
                } else {
                    assert(s.drop_last()[i] == y);
                    assert(s.drop_last().contains(y));
                    assert(rest.contains(y));
                    let j = choose|j: int| 0 <= j < rest.len() && rest[j] == y;
                    if j < k {
                        assert(r[j] == y);
                    } else {
                        assert(r[j + 1] == y);
                    }
                }
            }
        }
    }
}

/// What `keep_first_fit` keeps comes from its input, in ascending
/// order, with no two kept matches sharing a byte.
proof fn lemma_keep_first_fit(s: Seq<MatchView>)
    requires
        well_ordered_spans(s),
    ensures
        disjoint_ascending(keep_first_fit(s)),
        well_ordered_spans(keep_first_fit(s)),
        forall|y: MatchView| #[trigger] keep_first_fit(s).contains(y) ==> s.contains(y),
    decreases s.len(),
{
    if s.len() > 0 {
        let p = s.drop_last();
        assert forall|i: int| 0 <= i < p.len() implies (#[trigger] p[i]).0 <= p[i].1 by {
            assert(p[i] == s[i]);
        }
        lemma_keep_first_fit(p);
        let kept = keep_first_fit(p);
        let x = s.last();
        assert(x.0 <= x.1) by {
            assert(s[s.len() - 1] == x);
        }
        if !(kept.len() > 0 && x.0 < kept.last().1) {
            let r = kept.push(x);
            assert forall|i: int, j: int| 0 <= i < j < r.len() implies (#[trigger] r[i]).1 <= (
            #[trigger] r[j]).0 by {
                if j == r.len() - 1 {
                    if i < j - 1 {
                        assert(kept[i].1 <= kept[kept.len() - 1].0);
                    }
                    assert(kept[kept.len() - 1].0 <= kept[kept.len() - 1].1);
                }
            }
            assert forall|y: MatchView| #[trigger] r.contains(y) implies s.contains(y) by {
                let i = choose|i: int| 0 <= i < r.len() && r[i] == y;
                if i < kept.len() {
                    assert(kept.contains(y));
                    let m = choose|m: int| 0 <= m < p.len() && p[m] == y;
                    assert(s[m] == y);
                } else {
                    assert(s[s.len() - 1] == y);
                }
            }
        } else {
            assert forall|y: MatchView| #[trigger] kept.contains(y) implies s.contains(y) by {
                let m = choose|m: int| 0 <= m < p.len() && p[m] == y;
                assert(s[m] == y);
            }
        }
    }
}

/// Whether `a` goes before `b` in overlap resolution.
fn match_goes_before(a: &Match, b: &Match) -> (r: bool)
    requires
        a.start <= a.end,
        b.start <= b.end,
    ensures
        r == goes_before(a@, b@),
{
    a.start < b.start || (a.start == b.start && b.end - b.start < a.end - a.start) || (a.start
        == b.start && b.end - b.start == a.end - a.start && a.kind.rank() < b.kind.rank())
}

/// Keep the earliest match, breaking ties by length, and drop anything
/// that overlaps a kept one. Two placeholders must never share a byte.
pub fn dedupe_overlaps(matches: Vec<Match>) -> (kept: Vec<Match>)
    requires
        well_ordered_spans(views(matches@)),
    ensures
        views(kept@) == without_overlaps(views(matches@)),
        disjoint_ascending(views(kept@)),
        forall|y: MatchView| #[trigger] views(kept@).contains(y) ==> views(matches@).contains(y),
{
    let ghost input = views(matches@);
    let mut sorted: Vec<Match> = Vec::new();
    for m in it: matches
        invariant
            it.seq() == matches@,
            input == views(matches@),
            well_ordered_spans(input),
            views(sorted@) == in_order(input.take(it.index() as int)),
            well_ordered_spans(views(sorted@)),
    {
        let ghost before = sorted@;
        let ghost i = it.index();
        assert(input.take(i + 1).drop_last() =~= input.take(i as int));
        assert(input[i as int] == m@);
        assert(m.start <= m.end) by {
            assert(input[i as int].0 <= input[i as int].1);
        }
        proof {
            lemma_insert_in_order(views(sorted@), m@);
        }
        assert forall|j: int| 0 <= j < sorted@.len() implies (#[trigger] sorted@[j]).start
            <= sorted@[j].end by {
            assert(views(sorted@)[j] == sorted@[j]@);
        }
        let mut k: usize = 0;
        while k < sorted.len() && !match_goes_before(&m, &sorted[k])
            invariant
                k <= sorted@.len(),
                sorted@ == before,
                m.start <= m.end,
                well_ordered_spans(views(sorted@)),
                forall|j: int| 0 <= j < sorted@.len() ==> (#[trigger] sorted@[j]).start
                    <= sorted@[j].end,
                forall|j: int| 0 <= j < k ==> !goes_before(m@, #[trigger] views(sorted@)[j]),
            decreases sorted@.len() - k,
        {
            assert(views(sorted@)[k as int] == sorted@[k as int]@);
            assert(sorted@[k as int].start <= sorted@[k as int].end) by {
                assert(views(sorted@)[k as int].0 <= views(sorted@)[k as int].1);
            }
            k = k + 1;
        }
        proof {
            let s = views(before);
            let idx = insert_index(s, m@);
            if k < idx {
                assert(k < sorted@.len());
                assert(goes_before(m@, s[k as int]));
            }
            if idx < k {
                assert(goes_before(m@, s[idx]));
                assert(!goes_before(m@, views(sorted@)[idx]));
            }
        }
        sorted.insert(k, m);
        assert(views(sorted@) =~= views(before).insert(k as int, m@));
        assert(well_ordered_spans(views(sorted@))) by {
            assert forall|j: int| 0 <= j < views(sorted@).len() implies (
            #[trigger] views(sorted@)[j]).0 <= views(sorted@)[j].1 by {
                if j < k {
                    assert(views(sorted@)[j] == views(before)[j]);
                } else if j > k {
                    assert(views(sorted@)[j] == views(before)[j - 1]);
                }
            }
        }
    }
    assert(input.take(input.len() as int) =~= input);
    let ghost ordered = views(sorted@);
    let mut kept: Vec<Match> = Vec::new();
    for m in it: sorted
        invariant
            it.seq() == sorted@,
            ordered == views(sorted@),
            views(kept@) == keep_first_fit(ordered.take(it.index() as int)),
    {
        let ghost i = it.index();
        assert(ordered.take(i + 1).drop_last() =~= ordered.take(i as int));
        assert(ordered[i as int] == m@);
        let n = kept.len();
        if n > 0 && m.start < kept[n - 1].end {
            assert(views(kept@).last() == kept@[n - 1]@);
        } else {
            let ghost before = kept@;
            kept.push(m);
            assert(views(kept@) =~= views(before).push(m@));
        }
    }
    assert(ordered.take(ordered.len() as int) =~= ordered);
    proof {
        lemma_in_order_members(input);
        lemma_keep_first_fit(in_order(input));
    }
    kept
}

/// Labelled secrets such as `password: value`; the value is checked.
pub open spec fn password_detector() -> Detector {
    Detector {
        kind: Kind::Password,
        pattern: PASSWORD_PATTERN,
        group: 2,
        check: Check::QuotedValue,
        digit_boundary: false,
    }
}

/// Password-shaped tokens with no label at all.
pub open spec fn credential_detector() -> Detector {
    Detector {
        kind: Kind::Password,
        pattern: CREDENTIAL_PATTERN,
        group: 0,
        check: Check::CredentialShape,
        digit_boundary: false,
    }
}

/// Turkish IBANs.
pub open spec fn iban_detector() -> Detector {
    Detector { kind: Kind::Iban, pattern: IBAN_PATTERN, group: 0, check: Check::Any, digit_boundary: false }
}

/// Card numbers that pass the Luhn check.
pub open spec fn card_detector() -> Detector {
    Detector {
        kind: Kind::CreditCard,
        pattern: CARD_PATTERN,
        group: 0,
        check: Check::Luhn,
        digit_boundary: false,
    }
}

/// National IDs that pass their checksum.
pub open spec fn national_id_detector() -> Detector {
    Detector {
        kind: Kind::NationalId,
        pattern: NATIONAL_ID_PATTERN,
        group: 0,
        check: Check::NationalId,
        digit_boundary: false,
    }
}

/// E-mail addresses.
pub open spec fn email_detector() -> Detector {
    Detector { kind: Kind::Email, pattern: EMAIL_PATTERN, group: 0, check: Check::Any, digit_boundary: false }
}

/// Turkish phone numbers: 10 to 12 digits, no digit touching the match.
pub open spec fn phone_detector() -> Detector {
    Detector {
        kind: Kind::Phone,
        pattern: PHONE_PATTERN,
        group: 0,
        check: Check::DigitCount { min: 10, max: 12 },
        digit_boundary: true,
    }
}

/// International phone numbers: 9 to 14 digits, no digit touching them.
pub open spec fn phone_international_detector() -> Detector {
    Detector {
        kind: Kind::Phone,
        pattern: PHONE_INTERNATIONAL_PATTERN,
        group: 0,
        check: Check::DigitCount { min: 9, max: 14 },
        digit_boundary: true,
    }
}

/// Capitalised Turkish names.
pub open spec fn person_name_detector() -> Detector {
    Detector {
        kind: Kind::PersonName,
        pattern: PERSON_NAME_PATTERN,
        group: 0,
        check: Check::Any,
        digit_boundary: false,
    }
}

fn password() -> (d: Detector)
    ensures
        d == password_detector(),
{
    Detector {
        kind: Kind::Password,
        pattern: PASSWORD_PATTERN,
        group: 2,
        check: Check::QuotedValue,
        digit_boundary: false,
    }
}

fn credential_like() -> (d: Detector)
    ensures
        d == credential_detector(),
{
    Detector {
        kind: Kind::Password,
        pattern: CREDENTIAL_PATTERN,
        group: 0,
        check: Check::CredentialShape,
        digit_boundary: false,
    }
}

fn iban() -> (d: Detector)
    ensures
        d == iban_detector(),
{
    Detector { kind: Kind::Iban, pattern: IBAN_PATTERN, group: 0, check: Check::Any, digit_boundary: false }
}

fn credit_card() -> (d: Detector)
    ensures
        d == card_detector(),
{
    Detector {
        kind: Kind::CreditCard,
        pattern: CARD_PATTERN,
        group: 0,
        check: Check::Luhn,
        digit_boundary: false,
    }
}

fn national_id() -> (d: Detector)
    ensures
        d == national_id_detector(),
{
    Detector {
        kind: Kind::NationalId,
        pattern: NATIONAL_ID_PATTERN,
        group: 0,
        check: Check::NationalId,
        digit_boundary: false,
    }
}

fn email() -> (d: Detector)
    ensures
        d == email_detector(),
{
    Detector { kind: Kind::Email, pattern: EMAIL_PATTERN, group: 0, check: Check::Any, digit_boundary: false }
}

fn phone() -> (d: Detector)
    ensures
        d == phone_detector(),
{
    Detector {
        kind: Kind::Phone,
        pattern: PHONE_PATTERN,
        group: 0,
        check: Check::DigitCount { min: 10, max: 12 },
        digit_boundary: true,
    }
}

fn phone_international() -> (d: Detector)
    ensures
        d == phone_international_detector(),
{
    Detector {
        kind: Kind::Phone,
        pattern: PHONE_INTERNATIONAL_PATTERN,
        group: 0,
        check: Check::DigitCount { min: 9, max: 14 },
        digit_boundary: true,
    }
}

fn person_name() -> (d: Detector)
    ensures
        d == person_name_detector(),
{
    Detector {
        kind: Kind::PersonName,
        pattern: PERSON_NAME_PATTERN,
        group: 0,
        check: Check::Any,
        digit_boundary: false,
    }
}

/// Which detectors run, and the user's own word list.
#[derive(Debug, Clone, PartialEq, Eq)]
pub struct Settings {
    pub enabled: Vec<Kind>,
    pub custom_words: Vec<String>,
}

/// The detectors on by default: every kind but person names.
pub open spec fn default_kinds() -> Seq<Kind> {
    seq![
        Kind::Password,
        Kind::NationalId,
        Kind::Iban,
        Kind::CreditCard,
        Kind::Email,
        Kind::Phone,
        Kind::CustomWord,
    ]
}

impl Default for Settings {
    /// Person names are off by default: that detector is deliberately
    /// loose, and a terminal session has no preview pane to confirm its
    /// matches in.
    fn default() -> (s: Self)
        ensures
            s.enabled@ == default_kinds(),
            s.custom_words@.len() == 0,
    {
        let enabled = vec![
            Kind::Password,
            Kind::NationalId,
            Kind::Iban,
            Kind::CreditCard,
            Kind::Email,
            Kind::Phone,
            Kind::CustomWord,
        ];
        assert(enabled@ =~= default_kinds());
        Settings { enabled, custom_words: Vec::new() }
    }
}

/// The characters of each word.
pub open spec fn words_view(ws: Seq<String>) -> Seq<Seq<char>> {
    ws.map_values(|w: String| w@)
}

/// The words trimmed of whitespace, empty ones dropped, in order.
pub open spec fn cleaned_words(ws: Seq<Seq<char>>) -> Seq<Seq<char>>
    decreases ws.len(),
{
    if ws.len() == 0 {
        seq![]
    } else {
        let rest = cleaned_words(ws.drop_last());
        let w = trim_in(ws.last(), CharClass::Whitespace);
        if w.len() > 0 {
            rest.push(w)
        } else {
            rest
        }
    }
}

/// `w` placed into `s` ahead of the first shorter word.
pub open spec fn insert_longer_first(s: Seq<Seq<char>>, w: Seq<char>) -> Seq<Seq<char>>
    decreases s.len(),
{
    if s.len() == 0 {
        seq![w]
    } else if w.len() > s[0].len() {
        seq![w] + s
    } else {
        seq![s[0]] + insert_longer_first(s.drop_first(), w)
    }
}

/// The words stably sorted longest first, so a longer phrase wins over
/// its own prefix.
pub open spec fn longest_first(ws: Seq<Seq<char>>) -> Seq<Seq<char>>
    decreases ws.len(),
{
    if ws.len() == 0 {
        seq![]
    } else {
        insert_longer_first(longest_first(ws.drop_last()), ws.last())
    }
}

/// The escaped words joined by `|`.
pub open spec fn alternation(ws: Seq<Seq<char>>) -> Seq<char>
    decreases ws.len(),
{
    if ws.len() == 0 {
        seq![]
    } else if ws.len() == 1 {
        regex_escaped(ws[0])
    } else {
        alternation(ws.drop_last()) + seq!['|'] + regex_escaped(ws.last())
    }
}

/// The case-insensitive pattern for the word list, or `None` when no
/// word is left after trimming.
pub open spec fn custom_word_pattern(ws: Seq<Seq<char>>) -> Option<Seq<char>> {
    let cleaned = cleaned_words(ws);
    if cleaned.len() == 0 {
        None
    } else {
        Some(seq!['(', '?', 'i', ')', '(', '?', ':'] + alternation(longest_first(cleaned)) + seq![')'])
    }
}

/// The whole-match spans of `cs` that are not empty, as matches of kind
/// `k`.
pub open spec fn whole_matches(t: Seq<char>, cs: Seq<Capture>, k: Kind) -> Seq<MatchView>
    decreases cs.len(),
{
    if cs.len() == 0 {
        seq![]
    } else if cs.last().0.0 < cs.last().0.1 {
        whole_matches(t, cs.drop_last(), k).push(
            (
                cs.last().0.0,
                cs.last().0.1,
                chars_in(encode_utf8(t), cs.last().0.0 as int, cs.last().0.1 as int),
                k,
            ),
        )
    } else {
        whole_matches(t, cs.drop_last(), k)
    }
}

/// Every occurrence of a word of the list in `t`.
pub open spec fn custom_found(t: Seq<char>, ws: Seq<Seq<char>>) -> Seq<MatchView> {
    match custom_word_pattern(ws) {
        None => seq![],
        Some(p) => match regex_captures_of(p, t, 0) {
            Some(cs) => whole_matches(t, cs, Kind::CustomWord),
            None => seq![],
        },
    }
}

fn push_longer_first(sorted: &mut Vec<String>, w: String)
    ensures
        words_view(final(sorted)@) == insert_longer_first(words_view(old(sorted)@), w@),
{
    let ghost s0 = words_view(sorted@);
    let wl = w.as_str().unicode_len();
    let mut k: usize = 0;
    while k < sorted.len() && !(wl > sorted[k].as_str().unicode_len())
        invariant
            k <= sorted@.len(),
            words_view(sorted@) == s0,
            wl == w@.len(),
            forall|j: int| 0 <= j < k ==> !(w@.len() > (#[trigger] s0[j]).len()),
        decreases sorted@.len() - k,
    {
        assert(s0[k as int] == sorted@[k as int]@);
        k = k + 1;
    }
    proof {
        lemma_insert_longer_first(s0, w@, k as int);
    }
    sorted.insert(k, w);
    assert(words_view(sorted@) =~= s0.insert(k as int, w@));
}

proof fn lemma_insert_longer_first(s: Seq<Seq<char>>, w: Seq<char>, k: int)
    requires
        0 <= k <= s.len(),
        forall|j: int| 0 <= j < k ==> !(w.len() > (#[trigger] s[j]).len()),
        k < s.len() ==> w.len() > s[k].len(),
    ensures
        insert_longer_first(s, w) == s.insert(k, w),
    decreases s.len(),
{
    if s.len() == 0 {
        assert(seq![w] =~= s.insert(k, w));
    } else if k == 0 {
        assert(seq![w] + s =~= s.insert(k, w));
    } else {
        assert forall|j: int| 0 <= j < k - 1 implies !(w.len() > (#[trigger] s.drop_first()[j]).len()) by {
            assert(s.drop_first()[j] == s[j + 1]);
        }
        lemma_insert_longer_first(s.drop_first(), w, k - 1);
        assert(seq![s[0]] + s.drop_first().insert(k - 1, w) =~= s.insert(k, w));
    }
}

/// The case-insensitive pattern that finds any word of the list.
fn custom_word_regex(words: &Vec<String>) -> (r: Option<String>)
    ensures
        match r {
            Some(p) => custom_word_pattern(words_view(words@)) == Some(p@),
            None => custom_word_pattern(words_view(words@)) is None,
        },
{
    let ghost ws = words_view(words@);
    let mut cleaned: Vec<String> = Vec::new();
    let mut i: usize = 0;
    while i < words.len()
        invariant
            ws == words_view(words@),
            i <= words@.len(),
            words_view(cleaned@) == cleaned_words(ws.take(i as int)),
        decreases words@.len() - i,
    {
        assert(ws.take(i + 1).drop_last() =~= ws.take(i as int));
        assert(ws[i as int] == words@[i as int]@);
        let w = words[i].as_str();
        let cs = chars_of(w);
        let n = cs.len();
        let a = skip_start(&cs, 0, n, CharClass::Whitespace);
        let b = skip_end(&cs, a, n, CharClass::Whitespace);
        assert(cs@.subrange(0, n as int) =~= cs@);
        if a < b {
            let trimmed = String::from_str(w.substring_char(a, b));
            let ghost before = cleaned@;
            cleaned.push(trimmed);
            assert(words_view(cleaned@) =~= words_view(before).push(trimmed@));
        }
        i = i + 1;
    }
    assert(ws.take(ws.len() as int) =~= ws);
    if cleaned.len() == 0 {
        return None;
    }
    let ghost cw = words_view(cleaned@);
    let mut sorted: Vec<String> = Vec::new();
    for w in it: cleaned
        invariant
            it.seq() == cleaned@,
            cw == words_view(cleaned@),
            words_view(sorted@) == longest_first(cw.take(it.index() as int)),
    {
        assert(cw.take(it.index() + 1).drop_last() =~= cw.take(it.index() as int));
        assert(cw[it.index() as int] == w@);
        push_longer_first(&mut sorted, w);
    }
    assert(cw.take(cw.len() as int) =~= cw);
    let ghost sv = words_view(sorted@);
    let mut alt = String::new();
    let mut k: usize = 0;
    while k < sorted.len()
        invariant
            sv == words_view(sorted@),
            sv.len() > 0,
            k <= sv.len(),
            alt@ == alternation(sv.take(k as int)),
        decreases sv.len() - k,
    {
        assert(sv.take(k + 1).drop_last() =~= sv.take(k as int));
        assert(sv[k as int] == sorted@[k as int]@);
        let escaped = escape_literal(sorted[k].as_str());
        if k > 0 {
            proof { reveal_strlit("|"); }
            alt = alt.concat("|");
        } else {
            assert(alt@ =~= Seq::<char>::empty());
        }
        alt = alt.concat(escaped.as_str());
        assert(sv.take(k + 1).len() == k + 1);
        if k == 0 {
            assert(alt@ =~= regex_escaped(sv.take(1)[0]));
        }
        k = k + 1;
    }
    assert(sv.take(sv.len() as int) =~= sv);
    proof {
        reveal_strlit("(?i)(?:");
        reveal_strlit(")");
    }
    let pattern = String::from_str("(?i)(?:").concat(alt.as_str()).concat(")");
    assert(pattern@ =~= seq!['(', '?', 'i', ')', '(', '?', ':'] + alternation(sv) + seq![')']);
    Some(pattern)
}

/// Every occurrence of a word of the list in `text`, case-insensitively.
fn custom_word_matches(text: &str, words: &Vec<String>) -> (r: Vec<Match>)
    ensures
        views(r@) == custom_found(text@, words_view(words@)),
        all_fit(text@, views(r@)),
{
    let mut out: Vec<Match> = Vec::new();
    let pattern = match custom_word_regex(words) {
        Some(p) => p,
        None => {
            assert(views(out@) =~= Seq::<MatchView>::empty());
            return out;
        },
    };
    match regex_captures(pattern.as_str(), text, 0) {
        None => {
            assert(views(out@) =~= Seq::<MatchView>::empty());
            out
        },
        Some(caps) => {
            let ghost cs = caps@;
            let mut i: usize = 0;
            while i < caps.len()
                invariant
                    cs == caps@,
                    crate::pattern::captures_fit(text.spec_bytes(), cs),
                    i <= cs.len(),
                    views(out@) == whole_matches(text@, cs.take(i as int), Kind::CustomWord),
                    all_fit(text@, views(out@)),
                decreases cs.len() - i,
            {
                assert(cs.take(i + 1).drop_last() =~= cs.take(i as int));
                let (s, e) = caps[i].0;
                assert(span_ok(text.spec_bytes(), s as int, e as int));
                if s < e {
                    let piece = substr(text, s, e);
                    let m = Match { start: s, end: e, value: String::from_str(piece), kind: Kind::CustomWord };
                    let ghost before = out@;
                    out.push(m);
                    assert(views(out@) =~= views(before).push(m@));
                }
                i = i + 1;
            }
            assert(cs.take(cs.len() as int) =~= cs);
            out
        },
    }
}

/// Everything the enabled detectors find in `t`, before placeholders and
/// overlaps are taken out: the word list first, then labelled and
/// unlabelled passwords, IBANs, cards, national IDs, e-mail addresses,
/// international then national phone numbers, and person names.
pub open spec fn candidates(t: Seq<char>, kinds: Seq<Kind>, ws: Seq<Seq<char>>) -> Seq<MatchView> {
    (if kinds.contains(Kind::CustomWord) {
        custom_found(t, ws)
    } else {
        seq![]
    }) + (if kinds.contains(Kind::Password) {
        found_by(password_detector(), t) + found_by(credential_detector(), t)
    } else {
        seq![]
    }) + (if kinds.contains(Kind::Iban) {
        found_by(iban_detector(), t)
    } else {
        seq![]
    }) + (if kinds.contains(Kind::CreditCard) {
        found_by(card_detector(), t)
    } else {
        seq![]
    }) + (if kinds.contains(Kind::NationalId) {
        found_by(national_id_detector(), t)
    } else {
        seq![]
    }) + (if kinds.contains(Kind::Email) {
        found_by(email_detector(), t)
    } else {
        seq![]
    }) + (if kinds.contains(Kind::Phone) {
        found_by(phone_international_detector(), t) + found_by(phone_detector(), t)
    } else {
        seq![]
    }) + (if kinds.contains(Kind::PersonName) {
        found_by(person_name_detector(), t)
    } else {
        seq![]
    })
}

/// `s` without the matches whose value is already a placeholder.
pub open spec fn drop_placeholders(s: Seq<MatchView>) -> Seq<MatchView>
    decreases s.len(),
{
    if s.len() == 0 {
        seq![]
    } else {
        let rest = drop_placeholders(s.drop_last());
        if placeholder_like(s.last().2) {
            rest
        } else {
            rest.push(s.last())
        }
    }
}

/// What `detect` reports for the text `t`, the enabled kinds and the
/// word list.
pub open spec fn detected(t: Seq<char>, kinds: Seq<Kind>, ws: Seq<Seq<char>>) -> Seq<MatchView> {
    without_overlaps(drop_placeholders(candidates(t, kinds, ws)))
}

fn contains_kind(kinds: &Vec<Kind>, k: Kind) -> (r: bool)
    ensures
        r == kinds@.contains(k),
{
    let mut i: usize = 0;
    while i < kinds.len()
        invariant
            i <= kinds@.len(),
            forall|j: int| 0 <= j < i ==> kinds@[j] != k,
        decreases kinds@.len() - i,
    {
        if kinds[i] == k {
            assert(kinds@[i as int] == k);
            return true;
        }
        i = i + 1;
    }
    false
}

fn append_matches(acc: &mut Vec<Match>, more: Vec<Match>, Ghost(t): Ghost<Seq<char>>)
    requires
        all_fit(t, views(old(acc)@)),
        all_fit(t, views(more@)),
    ensures
        views(final(acc)@) == views(old(acc)@) + views(more@),
        all_fit(t, views(final(acc)@)),
{
    let mut more = more;
    let ghost a = views(acc@);
    let ghost b = views(more@);
    acc.append(&mut more);
    assert(views(acc@) =~= a + b);
}

/// All matches in `text`, de-overlapped: earliest start wins, then the
/// longest, then the lower kind.
pub fn detect(text: &str, settings: &Settings) -> (r: Vec<Match>)
    ensures
        views(r@) == detected(text@, settings.enabled@, words_view(settings.custom_words@)),
        disjoint_ascending(views(r@)),
        all_fit(text@, views(r@)),
        forall|i: int| 0 <= i < r@.len() ==> (#[trigger] r@[i]).start < r@[i].end,
{
    let ghost t = text@;
    let ghost kinds = settings.enabled@;
    let ghost ws = words_view(settings.custom_words@);
    let mut matches: Vec<Match> = Vec::new();
    assert(views(matches@) =~= Seq::<MatchView>::empty());
    let ghost mut expect: Seq<MatchView> = seq![];
    if contains_kind(&settings.enabled, Kind::CustomWord) {
        append_matches(&mut matches, custom_word_matches(text, &settings.custom_words), Ghost(t));
    }
    assert(views(matches@) =~= (if kinds.contains(Kind::CustomWord) {
        custom_found(t, ws)
    } else {
        seq![]
    }));
    let ghost c1 = views(matches@);
    if contains_kind(&settings.enabled, Kind::Password) {
        append_matches(&mut matches, find(&password(), text), Ghost(t));
        append_matches(&mut matches, find(&credential_like(), text), Ghost(t));
    }
    assert(views(matches@) =~= c1 + (if kinds.contains(Kind::Password) {
        found_by(password_detector(), t) + found_by(credential_detector(), t)
    } else {
        seq![]
    }));
    let ghost c2 = views(matches@);
    if contains_kind(&settings.enabled, Kind::Iban) {
        append_matches(&mut matches, find(&iban(), text), Ghost(t));
    }
    assert(views(matches@) =~= c2 + (if kinds.contains(Kind::Iban) {
        found_by(iban_detector(), t)
    } else {
        seq![]
    }));
    let ghost c3 = views(matches@);
    if contains_kind(&settings.enabled, Kind::CreditCard) {
        append_matches(&mut matches, find(&credit_card(), text), Ghost(t));
    }
    assert(views(matches@) =~= c3 + (if kinds.contains(Kind::CreditCard) {
        found_by(card_detector(), t)
    } else {
        seq![]
    }));
    let ghost c4 = views(matches@);
    if contains_kind(&settings.enabled, Kind::NationalId) {
        append_matches(&mut matches, find(&national_id(), text), Ghost(t));
    }
    assert(views(matches@) =~= c4 + (if kinds.contains(Kind::NationalId) {
        found_by(national_id_detector(), t)
    } else {
        seq![]
    }));
    let ghost c5 = views(matches@);
    if contains_kind(&settings.enabled, Kind::Email) {
        append_matches(&mut matches, find(&email(), text), Ghost(t));
    }
    assert(views(matches@) =~= c5 + (if kinds.contains(Kind::Email) {
        found_by(email_detector(), t)
    } else {
        seq![]
    }));
    let ghost c6 = views(matches@);
    if contains_kind(&settings.enabled, Kind::Phone) {
        append_matches(&mut matches, find(&phone_international(), text), Ghost(t));
        append_matches(&mut matches, find(&phone(), text), Ghost(t));
    }
    assert(views(matches@) =~= c6 + (if kinds.contains(Kind::Phone) {
        found_by(phone_international_detector(), t) + found_by(phone_detector(), t)
    } else {
        seq![]
    }));
    let ghost c7 = views(matches@);
    if contains_kind(&settings.enabled, Kind::PersonName) {
        append_matches(&mut matches, find(&person_name(), text), Ghost(t));
    }
    assert(views(matches@) =~= c7 + (if kinds.contains(Kind::PersonName) {
        found_by(person_name_detector(), t)
    } else {
        seq![]
    }));
    assert(views(matches@) == candidates(t, kinds, ws));
    let ghost all = views(matches@);
    let mut kept: Vec<Match> = Vec::new();
    for m in it: matches
        invariant
            it.seq() == matches@,
            all == views(matches@),
            all_fit(t, all),
            views(kept@) == drop_placeholders(all.take(it.index() as int)),
            all_fit(t, views(kept@)),
    {
        let ghost i = it.index();
        assert(all.take(i + 1).drop_last() =~= all.take(i as int));
        assert(all[i as int] == m@);
        if !is_placeholder(m.value.as_str()) {
            let ghost before = kept@;
            kept.push(m);
            assert(views(kept@) =~= views(before).push(m@));
            assert(fits(t, all[i as int]));
        }
    }
    assert(all.take(all.len() as int) =~= all);
    assert(well_ordered_spans(views(kept@))) by {
        assert forall|i: int| 0 <= i < views(kept@).len() implies (#[trigger] views(kept@)[i]).0
            <= views(kept@)[i].1 by {
            assert(fits(t, views(kept@)[i]));
        }
    }
    let ghost pre = views(kept@);
    let r = dedupe_overlaps(kept);
    assert forall|i: int| 0 <= i < views(r@).len() implies fits(t, #[trigger] views(r@)[i]) by {
        assert(views(r@).contains(views(r@)[i]));
        let j = choose|j: int| 0 <= j < pre.len() && pre[j] == views(r@)[i];
        assert(fits(t, pre[j]));
    }
    proof {
        lemma_detected_not_empty(r@, t, kinds, ws);
    }
    r
}

proof fn lemma_detected_not_empty(r: Seq<Match>, t: Seq<char>, kinds: Seq<Kind>, ws: Seq<Seq<char>>)
    requires
        views(r) == detected(t, kinds, ws),
    ensures
        forall|i: int| 0 <= i < r.len() ==> (#[trigger] r[i]).start < r[i].end,
{
    law_detected_values_are_validated(t, kinds, ws);
    assert forall|i: int| 0 <= i < r.len() implies (#[trigger] r[i]).start < r[i].end by {
        assert(views(r)[i] == r[i]@);
        assert(validated(detected(t, kinds, ws)[i], kinds));
    }
}

/// What detect promises of every value it reports, whatever the text.
pub open spec fn validated(y: MatchView, kinds: Seq<Kind>) -> bool {
    &&& y.0 < y.1
    &&& kinds.contains(y.3)
    &&& !placeholder_like(y.2)
    &&& (y.3 == Kind::NationalId ==> tckn_ok(y.2))
    &&& (y.3 == Kind::CreditCard ==> luhn_ok(y.2))
}

proof fn lemma_kept_captures(d: Detector, t: Seq<char>, cs: Seq<Capture>)
    ensures
        forall|y: MatchView| #[trigger] kept_captures(d, t, cs).contains(y) ==> y.0 < y.1 && y.3 == d.kind && check_ok(
            d.check,
            y.2,
        ),
    decreases cs.len(),
{
    if cs.len() > 0 {
        lemma_kept_captures(d, t, cs.drop_last());
        let rest = kept_captures(d, t, cs.drop_last());
        assert forall|y: MatchView| #[trigger] kept_captures(d, t, cs).contains(y) implies y.0 < y.1 && y.3
            == d.kind && check_ok(d.check, y.2) by {
            if capture_kept(d, t, cs.last()) {
                let r = rest.push(capture_match(d, t, cs.last()));
                let i = choose|i: int| 0 <= i < r.len() && r[i] == y;
                if i < rest.len() {
                    assert(rest[i] == y);
                    assert(rest.contains(y));
                }
            }
        }
    }
}

proof fn lemma_found_by(d: Detector, t: Seq<char>)
    ensures
        forall|y: MatchView| #[trigger] found_by(d, t).contains(y) ==> y.0 < y.1 && y.3 == d.kind && check_ok(
            d.check,
            y.2,
        ),
{
    if let Some(cs) = regex_captures_of(d.pattern@, t, d.group) {
        lemma_kept_captures(d, t, cs);
    }
}

proof fn lemma_whole_matches(t: Seq<char>, cs: Seq<Capture>, k: Kind)
    ensures
        forall|y: MatchView| #[trigger] whole_matches(t, cs, k).contains(y) ==> y.0 < y.1 && y.3 == k,
    decreases cs.len(),
{
    if cs.len() > 0 {
        lemma_whole_matches(t, cs.drop_last(), k);
        let rest = whole_matches(t, cs.drop_last(), k);
        assert forall|y: MatchView| #[trigger] whole_matches(t, cs, k).contains(y) implies y.0 < y.1 && y.3 == k by {
            let r = whole_matches(t, cs, k);
            let i = choose|i: int| 0 <= i < r.len() && r[i] == y;
            if i < rest.len() {
                assert(rest[i] == y);
                assert(rest.contains(y));
            }
        }
    }
}

proof fn lemma_add_contains(a: Seq<MatchView>, b: Seq<MatchView>, y: MatchView)
    requires
        (a + b).contains(y),
    ensures
        a.contains(y) || b.contains(y),
{
    let i = choose|i: int| 0 <= i < (a + b).len() && (a + b)[i] == y;
    if i < a.len() {
        assert(a[i] == y);
    } else {
        assert(b[i - a.len()] == y);
    }
}

proof fn lemma_drop_placeholders(s: Seq<MatchView>)
    ensures
        forall|y: MatchView| #[trigger] drop_placeholders(s).contains(y) ==> s.contains(y) && !placeholder_like(y.2),
    decreases s.len(),
{
    if s.len() > 0 {
        let p = s.drop_last();
        lemma_drop_placeholders(p);
        let rest = drop_placeholders(p);
        assert forall|y: MatchView| #[trigger] drop_placeholders(s).contains(y) implies s.contains(y)
            && !placeholder_like(y.2) by {
            let r = drop_placeholders(s);
            let i = choose|i: int| 0 <= i < r.len() && r[i] == y;
            if i < rest.len() {
                assert(rest[i] == y);
                assert(rest.contains(y));
                let j = choose|j: int| 0 <= j < p.len() && p[j] == y;
                assert(s[j] == y);
            } else {
                assert(s[s.len() - 1] == y);
            }
        }
    }
}

proof fn lemma_keep_first_fit_members(s: Seq<MatchView>)
    ensures
        forall|y: MatchView| #[trigger] keep_first_fit(s).contains(y) ==> s.contains(y),
    decreases s.len(),
{
    if s.len() > 0 {
        let p = s.drop_last();
        lemma_keep_first_fit_members(p);
        let kept = keep_first_fit(p);
        assert forall|y: MatchView| #[trigger] keep_first_fit(s).contains(y) implies s.contains(y) by {
            let r = keep_first_fit(s);
            let i = choose|i: int| 0 <= i < r.len() && r[i] == y;
            if i < kept.len() {
                assert(kept[i] == y);
                assert(kept.contains(y));
                let j = choose|j: int| 0 <= j < p.len() && p[j] == y;
                assert(s[j] == y);
            } else {
                assert(s[s.len() - 1] == y);
            }
        }
    }
}

proof fn lemma_candidate_validated(t: Seq<char>, kinds: Seq<Kind>, ws: Seq<Seq<char>>, y: MatchView)
    requires
        candidates(t, kinds, ws).contains(y),
    ensures
        y.0 < y.1,
        kinds.contains(y.3),
        y.3 == Kind::NationalId ==> tckn_ok(y.2),
        y.3 == Kind::CreditCard ==> luhn_ok(y.2),
{
    let b1 = if kinds.contains(Kind::CustomWord) { custom_found(t, ws) } else { seq![] };
    let b2 = if kinds.contains(Kind::Password) {
        found_by(password_detector(), t) + found_by(credential_detector(), t)
    } else {
        seq![]
    };
    let b3 = if kinds.contains(Kind::Iban) { found_by(iban_detector(), t) } else { seq![] };
    let b4 = if kinds.contains(Kind::CreditCard) { found_by(card_detector(), t) } else { seq![] };
    let b5 = if kinds.contains(Kind::NationalId) { found_by(national_id_detector(), t) } else { seq![] };
    let b6 = if kinds.contains(Kind::Email) { found_by(email_detector(), t) } else { seq![] };
    let b7 = if kinds.contains(Kind::Phone) {
        found_by(phone_international_detector(), t) + found_by(phone_detector(), t)
    } else {
        seq![]
    };
    let b8 = if kinds.contains(Kind::PersonName) { found_by(person_name_detector(), t) } else { seq![] };
    assert(candidates(t, kinds, ws) == b1 + b2 + b3 + b4 + b5 + b6 + b7 + b8);
    lemma_found_by(password_detector(), t);
    lemma_found_by(credential_detector(), t);
    lemma_found_by(iban_detector(), t);
    lemma_found_by(card_detector(), t);
    lemma_found_by(national_id_detector(), t);
    lemma_found_by(email_detector(), t);
    lemma_found_by(phone_international_detector(), t);
    lemma_found_by(phone_detector(), t);
    lemma_found_by(person_name_detector(), t);
    if let Some(p) = custom_word_pattern(ws) {
        if let Some(cs) = regex_captures_of(p, t, 0) {
            lemma_whole_matches(t, cs, Kind::CustomWord);
        }
    }
    lemma_add_contains(b1 + b2 + b3 + b4 + b5 + b6 + b7, b8, y);
    if (b1 + b2 + b3 + b4 + b5 + b6 + b7).contains(y) {
        lemma_add_contains(b1 + b2 + b3 + b4 + b5 + b6, b7, y);
        if (b1 + b2 + b3 + b4 + b5 + b6).contains(y) {
            lemma_add_contains(b1 + b2 + b3 + b4 + b5, b6, y);
            if (b1 + b2 + b3 + b4 + b5).contains(y) {
                lemma_add_contains(b1 + b2 + b3 + b4, b5, y);
                if (b1 + b2 + b3 + b4).contains(y) {
                    lemma_add_contains(b1 + b2 + b3, b4, y);
                    if (b1 + b2 + b3).contains(y) {
                        lemma_add_contains(b1 + b2, b3, y);
                        if (b1 + b2).contains(y) {
                            lemma_add_contains(b1, b2, y);
                            if b2.contains(y) {
                                lemma_add_contains(
                                    found_by(password_detector(), t),
                                    found_by(credential_detector(), t),
                                    y,
                                );
                            }
                        }
                    }
                }
            }
        } else {
            lemma_add_contains(found_by(phone_international_detector(), t), found_by(phone_detector(), t), y);
        }
    }
}

/// Every value detect reports is not empty, is of an enabled kind and is
/// not already a placeholder; a national ID it reports passes the TCKN checksum and a
/// card number passes the Luhn check. A number that fails its checksum is
/// left alone.
pub proof fn law_detected_values_are_validated(t: Seq<char>, kinds: Seq<Kind>, ws: Seq<Seq<char>>)
    ensures
        forall|i: int| 0 <= i < detected(t, kinds, ws).len() ==> validated(#[trigger] detected(t, kinds, ws)[i], kinds),
{
    let c = candidates(t, kinds, ws);
    let d = drop_placeholders(c);
    lemma_drop_placeholders(c);
    lemma_in_order_members(d);
    lemma_keep_first_fit_members(in_order(d));
    assert forall|i: int| 0 <= i < detected(t, kinds, ws).len() implies validated(
        #[trigger] detected(t, kinds, ws)[i],
        kinds,
    ) by {
        let y = detected(t, kinds, ws)[i];
        assert(keep_first_fit(in_order(d)).contains(y));
        assert(in_order(d).contains(y));
        assert(d.contains(y));
        lemma_candidate_validated(t, kinds, ws, y);
    }
}

/// A string of ASCII digits is its own digit sequence.
proof fn lemma_digits_of_digits(cs: Seq<char>)
    requires
        forall|i: int| 0 <= i < cs.len() ==> '0' <= #[trigger] cs[i] <= '9',
    ensures
        digits_of(cs) == cs,
    decreases cs.len(),
{
    if cs.len() > 0 {
        assert(cs.drop_last().len() < cs.len());
        assert forall|i: int| 0 <= i < cs.drop_last().len() implies '0' <= #[trigger] cs.drop_last()[i] <= '9' by {
            assert(cs.drop_last()[i] == cs[i]);
        }
        lemma_digits_of_digits(cs.drop_last());
        assert('0' <= cs[cs.len() - 1] <= '9');
        assert(cs.drop_last().push(cs.last()) =~= cs);
    }
}

/// A Turkish national ID of eleven ASCII digits d1 .. d11 passes exactly
/// when d1 is not 0, d10 is (7 * (d1 + d3 + d5 + d7 + d9) - (d2 + d4 + d6 +
/// d8)) mod 10, and d11 is (d1 + ... + d10) mod 10.
pub proof fn law_tckn_check_digits(cs: Seq<char>)
    requires
        cs.len() == 11,
        forall|i: int| 0 <= i < 11 ==> '0' <= #[trigger] cs[i] <= '9',
    ensures
        tckn_ok(cs) <==> ({
            let v = |i: int| cs[i] as int - 48;
            &&& v(0) != 0
            &&& v(9) == (7 * (v(0) + v(2) + v(4) + v(6) + v(8)) - (v(1) + v(3) + v(5) + v(7))) % 10
            &&& v(10) == (v(0) + v(1) + v(2) + v(3) + v(4) + v(5) + v(6) + v(7) + v(8) + v(9)) % 10
        }),
{
    lemma_digits_of_digits(cs);
}

/// The sum of the decimal digits of `2 * d`.
pub open spec fn doubled_digit_sum(d: int) -> int {
    (2 * d) / 10 + (2 * d) % 10
}

/// What the digit `d` adds to a Luhn sum when it stands `p` places from
/// the right end (the last digit is 0 places from it): itself at an even
/// place, the digit sum of its double at an odd one.
pub open spec fn luhn_weight(d: int, p: int) -> int {
    if p % 2 == 1 {
        doubled_digit_sum(d)
    } else {
        d
    }
}

/// The Luhn sum of the first `i` digits of `ds`, read from the left, with
/// each place counted `shift` further from the right end than it is.
pub open spec fn luhn_sum_from_left(ds: Seq<char>, i: int, shift: int) -> int
    decreases i,
{
    if i <= 0 {
        0
    } else {
        luhn_sum_from_left(ds, i - 1, shift) + luhn_weight(ds[i - 1] as int - 48, ds.len() - i + shift)
    }
}

proof fn lemma_luhn_from_left_shift(ds: Seq<char>, i: int, a: int, b: int)
    requires
        a % 2 == b % 2,
    ensures
        luhn_sum_from_left(ds, i, a) == luhn_sum_from_left(ds, i, b),
    decreases i,
{
    if i > 0 {
        lemma_luhn_from_left_shift(ds, i - 1, a, b);
        assert((ds.len() - i + a) % 2 == (ds.len() - i + b) % 2) by {
            vstd::arithmetic::div_mod::lemma_mod_adds(ds.len() - i, a, 2);
            vstd::arithmetic::div_mod::lemma_mod_adds(ds.len() - i, b, 2);
        }
    }
}

proof fn lemma_luhn_from_left_drop(ds: Seq<char>, i: int, shift: int)
    requires
        ds.len() > 0,
        0 <= i < ds.len(),
    ensures
        luhn_sum_from_left(ds, i, shift) == luhn_sum_from_left(ds.drop_last(), i, shift - 1),
    decreases i,
{
    if i > 0 {
        lemma_luhn_from_left_drop(ds, i - 1, shift);
        assert(ds.drop_last()[i - 1] == ds[i - 1]);
        assert(ds.len() - i + shift == ds.drop_last().len() - i + (shift - 1) + 2);
        assert((ds.len() - i + shift) % 2 == (ds.drop_last().len() - i + (shift - 1)) % 2) by {
            vstd::arithmetic::div_mod::lemma_mod_add_multiples_vanish(ds.drop_last().len() - i + (shift - 1), 2);
        }
    }
}

proof fn lemma_luhn_sum_from_left(ds: Seq<char>, doubled: bool)
    requires
        forall|i: int| 0 <= i < ds.len() ==> '0' <= #[trigger] ds[i] <= '9',
    ensures
        luhn_sum(ds, doubled) == luhn_sum_from_left(ds, ds.len() as int, if doubled { 1 } else { 0 }),
    decreases ds.len(),
{
    if ds.len() > 0 {
        let s: int = if doubled { 1 } else { 0 };
        let t: int = if doubled { 0 } else { 1 };
        let dl = ds.drop_last();
        assert forall|i: int| 0 <= i < dl.len() implies '0' <= #[trigger] dl[i] <= '9' by {
            assert(dl[i] == ds[i]);
        }
        lemma_luhn_sum_from_left(dl, !doubled);
        lemma_luhn_from_left_drop(ds, ds.len() - 1, s);
        lemma_luhn_from_left_shift(dl, dl.len() as int, s - 1, t);
        let d = ds[ds.len() - 1] as int - 48;
        assert('0' <= ds[ds.len() - 1] <= '9');
        assert(luhn_term(digit_value(ds.last()), doubled) == luhn_weight(d, s));
    }
}

/// A card number passes exactly when it has 13 to 19 ASCII digits (other
/// characters, such as spaces and dashes, are ignored) and their Luhn sum
/// is a multiple of 10: reading from the right, every second digit counts
/// as the digit sum of its double, the others as themselves.
pub proof fn law_luhn_checksum(cs: Seq<char>)
    ensures
        luhn_ok(cs) <==> ({
            let ds = digits_of(cs);
            &&& 13 <= ds.len() <= 19
            &&& luhn_sum_from_left(ds, ds.len() as int, 0) % 10 == 0
        }),
{
    lemma_digits_of_all_digits(cs);
    let ds = digits_of(cs);
    assert forall|i: int| 0 <= i < ds.len() implies '0' <= #[trigger] ds[i] <= '9' by {
        assert(is_digit(ds[i]));
    }
    lemma_luhn_sum_from_left(ds, false);
}

/// The ASCII digits a string holds are exactly its characters between
/// `0` and `9`, in order; a string of such digits is all digits.
pub proof fn law_digits_of_digit_string(cs: Seq<char>)
    requires
        forall|i: int| 0 <= i < cs.len() ==> '0' <= #[trigger] cs[i] <= '9',
    ensures
        digits_of(cs) == cs,
{
    lemma_digits_of_digits(cs);
}

proof fn lemma_kept_capture_found(d: Detector, t: Seq<char>, cs: Seq<Capture>, i: int)
    requires
        0 <= i < cs.len(),
        capture_kept(d, t, cs[i]),
    ensures
        kept_captures(d, t, cs).contains(capture_match(d, t, cs[i])),
    decreases cs.len(),
{
    let rest = kept_captures(d, t, cs.drop_last());
    if i < cs.len() - 1 {
        assert(cs.drop_last()[i] == cs[i]);
        lemma_kept_capture_found(d, t, cs.drop_last(), i);
        let j = choose|j: int| 0 <= j < rest.len() && rest[j] == capture_match(d, t, cs[i]);
        if capture_kept(d, t, cs.last()) {
            assert(rest.push(capture_match(d, t, cs.last()))[j] == rest[j]);
        }
    } else {
        let r = rest.push(capture_match(d, t, cs.last()));
        assert(r[rest.len() as int] == capture_match(d, t, cs[i]));
    }
}

proof fn lemma_contains_left(a: Seq<MatchView>, b: Seq<MatchView>, y: MatchView)
    requires
        a.contains(y),
    ensures
        (a + b).contains(y),
{
    let i = choose|i: int| 0 <= i < a.len() && a[i] == y;
    assert((a + b)[i] == y);
}

proof fn lemma_contains_right(a: Seq<MatchView>, b: Seq<MatchView>, y: MatchView)
    requires
        b.contains(y),
    ensures
        (a + b).contains(y),
{
    let i = choose|i: int| 0 <= i < b.len() && b[i] == y;
    assert((a + b)[a.len() + i] == y);
}

/// With phone numbers enabled, every match of the international pattern
/// `\+\d{1,3}(?:[ \-]?\d{2,4}){2,4}` in a text that holds 9 to 14 digits
/// and has no digit right before or after it is a phone-number candidate
/// of the text, over the same span.
pub proof fn law_international_numbers_are_phone_candidates(
    t: Seq<char>,
    kinds: Seq<Kind>,
    ws: Seq<Seq<char>>,
    cs: Seq<Capture>,
    i: int,
)
    requires
        kinds.contains(Kind::Phone),
        regex_captures_of("\\+\\d{1,3}(?:[ \\-]?\\d{2,4}){2,4}"@, t, 0) == Some(cs),
        0 <= i < cs.len(),
        ({
            let (s, e) = value_span(cs[i]);
            &&& s < e
            &&& 9 <= digits_of(chars_in(encode_utf8(t), s as int, e as int)).len() <= 14
            &&& digit_isolated(t, s as int, e as int)
        }),
    ensures
        ({
            let (s, e) = value_span(cs[i]);
            candidates(t, kinds, ws).contains((s, e, chars_in(encode_utf8(t), s as int, e as int), Kind::Phone))
        }),
{
    let d = phone_international_detector();
    assert(d.pattern@ == "\\+\\d{1,3}(?:[ \\-]?\\d{2,4}){2,4}"@);
    assert(found_by(d, t) == kept_captures(d, t, cs));
    lemma_kept_capture_found(d, t, cs, i);
    let y = capture_match(d, t, cs[i]);
    lemma_contains_left(found_by(d, t), found_by(phone_detector(), t), y);
    let b1 = if kinds.contains(Kind::CustomWord) { custom_found(t, ws) } else { seq![] };
    let b2 = if kinds.contains(Kind::Password) {
        found_by(password_detector(), t) + found_by(credential_detector(), t)
    } else {
        seq![]
    };
    let b3 = if kinds.contains(Kind::Iban) { found_by(iban_detector(), t) } else { seq![] };
    let b4 = if kinds.contains(Kind::CreditCard) { found_by(card_detector(), t) } else { seq![] };
    let b5 = if kinds.contains(Kind::NationalId) { found_by(national_id_detector(), t) } else { seq![] };
    let b6 = if kinds.contains(Kind::Email) { found_by(email_detector(), t) } else { seq![] };
    let b7 = found_by(d, t) + found_by(phone_detector(), t);
    let b8 = if kinds.contains(Kind::PersonName) { found_by(person_name_detector(), t) } else { seq![] };
    assert(candidates(t, kinds, ws) == b1 + b2 + b3 + b4 + b5 + b6 + b7 + b8);
    lemma_contains_right(b1 + b2 + b3 + b4 + b5 + b6, b7, y);
    lemma_contains_left(b1 + b2 + b3 + b4 + b5 + b6 + b7, b8, y);
}

/// The digits that the checksums read are exactly the characters `0` to
/// `9` of the value, in order; everything else (spaces, dashes, letters,
/// other scripts' digits) is passed over.
pub proof fn law_digits_are_the_ascii_digits(cs: Seq<char>)
    ensures
        digits_of(cs) == cs.filter(|c: char| '0' <= c && c <= '9'),
    decreases cs.len(),
{
    reveal(Seq::filter);
    if cs.len() > 0 {
        law_digits_are_the_ascii_digits(cs.drop_last());
    }
}

} // verus!
