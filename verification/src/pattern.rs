//! The calls into the `regex` crate and into std's Unicode tables, and the
//! patterns the detectors search with.

use vstd::prelude::*;
use vstd::string::*;

use crate::text::span_ok;

verus! {

/// One match of a search: the byte span of the whole match, and the byte
/// span of the requested capture group when that group took part.
pub type Capture = ((usize, usize), Option<(usize, usize)>);

/// What `regex::Regex::new(pattern)` followed by `captures_iter(haystack)`
/// reports, for capture group `group`: `None` when the pattern does not
/// compile, otherwise every successive non-overlapping match.
pub uninterp spec fn regex_captures_of(
    pattern: Seq<char>,
    haystack: Seq<char>,
    group: usize,
) -> Option<Seq<((usize, usize), Option<(usize, usize)>)>>;

/// The characters that have a meaning in a regex and must be escaped to
/// match themselves.
pub open spec fn regex_meta(c: char) -> bool {
    c == '\\' || c == '.' || c == '+' || c == '*' || c == '?' || c == '(' || c == ')' || c == '|' || c == '['
        || c == ']' || c == '{' || c == '}' || c == '^' || c == '$' || c == '#' || c == '&' || c == '-' || c
        == '~'
}

/// A literal with a backslash before each of its regex metacharacters.
pub open spec fn regex_escaped(literal: Seq<char>) -> Seq<char>
    decreases literal.len(),
{
    if literal.len() == 0 {
        seq![]
    } else {
        regex_escaped(literal.drop_last()) + if regex_meta(literal.last()) {
            seq!['\\', literal.last()]
        } else {
            seq![literal.last()]
        }
    }
}

/// Whether `char::is_alphabetic` holds of `c` (the Unicode `Alphabetic`
/// property).
pub uninterp spec fn unicode_alphabetic(c: char) -> bool;

/// Spans that a search may report in a haystack whose UTF-8 is `bytes`:
/// each lies in the haystack on character boundaries, and the whole
/// matches come in order without overlapping.
pub open spec fn captures_fit(bytes: Seq<u8>, cs: Seq<Capture>) -> bool {
    &&& forall|i: int| 0 <= i < cs.len() ==> span_ok(bytes, (#[trigger] cs[i]).0.0 as int, cs[i].0.1 as int)
    &&& forall|i: int|
        0 <= i < cs.len() ==> ((#[trigger] cs[i]).1 matches Some(g) ==> span_ok(bytes, g.0 as int, g.1 as int))
    &&& forall|i: int, j: int| 0 <= i < j < cs.len() ==> (#[trigger] cs[i]).0.1 <= (#[trigger] cs[j]).0.0
}

/// Compiles `pattern` with `regex::Regex::new` and collects
/// `captures_iter(haystack)`: for each match, the byte span of the whole
/// match and that of capture group `group`.
///
/// The contract names the result and adds what the crate documents of
/// every `Match`: `start <= end`, both on UTF-8 boundaries of the haystack,
/// and successive matches do not overlap. Which spans match is not stated.
#[verifier::external_body]
pub(crate) fn regex_captures(pattern: &str, haystack: &str, group: usize) -> (res: Option<Vec<Capture>>)
    ensures
        match res {
            Some(v) => regex_captures_of(pattern@, haystack@, group) == Some(v@) && captures_fit(
                haystack.spec_bytes(),
                v@,
            ),
            None => regex_captures_of(pattern@, haystack@, group) is None,
        },
{
    let re = regex::Regex::new(pattern).ok()?;
    let found = re.captures_iter(haystack).map(
        |caps| {
            let whole = caps.get_match();
            ((whole.start(), whole.end()), caps.get(group).map(|m| (m.start(), m.end())))
        },
    );
    Some(found.collect())
}

/// `regex::escape` (which is `regex_syntax::escape`): the literal with a
/// backslash before each regex metacharacter.
#[verifier::external_body]
pub(crate) fn escape_literal(literal: &str) -> (r: String)
    ensures
        r@ == regex_escaped(literal@),
{
    regex::escape(literal)
}

/// `char::is_alphabetic`, whose table is not restated here.
#[verifier::external_body]
pub(crate) fn is_alphabetic(c: char) -> (r: bool)
    ensures
        r == unicode_alphabetic(c),
{
    c.is_alphabetic()
}

/// A labelled secret: `password: value`, `şifre=value`, ... (group 2).
pub const PASSWORD_PATTERN: &'static str = "(?i)\\b(password|passwd|pwd|parola|\u{15f}ifre|sifre|pass|key|anahtar|secret|token|pin)\\b\\s*[:=\\-]\\s*(\"[^\"\\n]+\"|'[^'\\n]+'|\\S+)";

/// A token of six or more characters that could be a password.
pub const CREDENTIAL_PATTERN: &'static str = "[^\\s:=,;|\"'<>]{6,}";

/// A Turkish IBAN, with or without grouping spaces.
pub const IBAN_PATTERN: &'static str = "\\bTR\\d{2}(?: ?\\d{4}){5} ?\\d{2}\\b";

/// 13 to 19 digits, optionally separated by single spaces or dashes.
pub const CARD_PATTERN: &'static str = "\\b(?:\\d[ \\-]?){12,18}\\d\\b";

/// Eleven digits, the first not zero.
pub const NATIONAL_ID_PATTERN: &'static str = "\\b[1-9]\\d{10}\\b";

/// An e-mail address.
pub const EMAIL_PATTERN: &'static str = "\\b[A-Za-z0-9._%+\\-]+@[A-Za-z0-9.\\-]+\\.[A-Za-z]{2,}\\b";

/// A Turkish phone number, national or with the +90 prefix.
pub const PHONE_PATTERN: &'static str = "(?:\\+90[ \\-]?|0)?\\(?[2-5]\\d{2}\\)?[ \\-]?\\d{3}[ \\-]?\\d{2}[ \\-]?\\d{2}";

/// A phone number with an international prefix.
pub const PHONE_INTERNATIONAL_PATTERN: &'static str = "\\+\\d{1,3}(?:[ \\-]?\\d{2,4}){2,4}";

/// Two or three capitalised Turkish words in a row.
pub const PERSON_NAME_PATTERN: &'static str = "\\b[A-Z\u{c7}\u{11e}\u{130}\u{d6}\u{15e}\u{dc}][a-z\u{e7}\u{11f}\u{131}\u{f6}\u{15f}\u{fc}]{2,}(?:[ \\t]+[A-Z\u{c7}\u{11e}\u{130}\u{d6}\u{15e}\u{dc}][a-z\u{e7}\u{11f}\u{131}\u{f6}\u{15f}\u{fc}]{2,}){1,2}\\b";

/// A whole string that is one placeholder, such as `TCKN_12`.
pub const PLACEHOLDER_PATTERN: &'static str = "^(?:SIFRE|TCKN|IBAN|KART|EPOSTA|TEL|KISI|OZEL)_\\d+$";

/// A placeholder standing as a word inside a text.
pub const PLACEHOLDER_TOKEN_PATTERN: &'static str = "\\b(?:SIFRE|TCKN|IBAN|KART|EPOSTA|TEL|KISI|OZEL)_\\d+\\b";

} // verus!
