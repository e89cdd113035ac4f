//! Text primitives shared by the detectors, the mapping store and the
//! masking pass: UTF-8 byte spans, string comparison, slicing and
//! decimal rendering.

use vstd::prelude::*;
use vstd::string::*;
use vstd::utf8::*;

verus! {

/// UTF-8 encoding of a character sequence distributes over concatenation.
pub proof fn lemma_utf8_concat(a: Seq<char>, b: Seq<char>)
    ensures
        encode_utf8(a + b) == encode_utf8(a) + encode_utf8(b),
    decreases a.len(),
{
    if a.len() == 0 {
        assert(a + b =~= b);
        assert(encode_utf8(a) + encode_utf8(b) =~= encode_utf8(b));
    } else {
        assert((a + b).drop_first() =~= a.drop_first() + b);
        assert((a + b)[0] == a[0]);
        lemma_utf8_concat(a.drop_first(), b);
        assert(encode_utf8(a + b) =~= encode_scalar(a[0] as u32) + (encode_utf8(a.drop_first())
            + encode_utf8(b)));
    }
}

/// Two character sequences with the same UTF-8 encoding are equal.
pub proof fn lemma_utf8_injective(a: Seq<char>, b: Seq<char>)
    requires
        encode_utf8(a) == encode_utf8(b),
    ensures
        a == b,
{
    encode_utf8_decode_utf8(a);
    encode_utf8_decode_utf8(b);
}

/// A character has at least one byte of encoding.
pub proof fn lemma_utf8_len(a: Seq<char>)
    ensures
        a.len() <= encode_utf8(a).len(),
    decreases a.len(),
{
    if a.len() > 0 {
        lemma_utf8_len(a.drop_first());
    }
}

/// `[s, e)` is a byte range of `bytes` that begins and ends on character
/// boundaries.
pub open spec fn span_ok(bytes: Seq<u8>, s: int, e: int) -> bool {
    &&& 0 <= s <= e <= bytes.len()
    &&& is_char_boundary(bytes, s)
    &&& is_char_boundary(bytes, e)
}

/// The characters that the bytes `[s, e)` of `bytes` encode.
pub open spec fn chars_in(bytes: Seq<u8>, s: int, e: int) -> Seq<char> {
    decode_utf8(bytes.subrange(s, e))
}

/// A boundary-aligned range of valid UTF-8 is itself valid UTF-8, and its
/// end is a boundary of what follows its start.
pub proof fn lemma_span_valid(bytes: Seq<u8>, s: int, e: int)
    requires
        valid_utf8(bytes),
        span_ok(bytes, s, e),
    ensures
        valid_utf8(bytes.subrange(s, e)),
        valid_utf8(bytes.subrange(s, bytes.len() as int)),
        is_char_boundary(bytes.subrange(s, bytes.len() as int), e - s),
        encode_utf8(chars_in(bytes, s, e)) == bytes.subrange(s, e),
{
    let n = bytes.len() as int;
    valid_utf8_split(bytes, s);
    let rest = bytes.subrange(s, n);
    if e < n {
        is_char_boundary_iff_not_is_continuation_byte(bytes, e);
        is_char_boundary_iff_not_is_continuation_byte(rest, e - s);
        assert(rest[e - s] == bytes[e]);
    } else {
        is_char_boundary_start_end_of_seq(rest);
    }
    valid_utf8_split(rest, e - s);
    assert(rest.subrange(0, e - s) =~= bytes.subrange(s, e));
    decode_utf8_encode_utf8(bytes.subrange(s, e));
}

/// The whole of a string is a valid span of its own bytes.
pub proof fn lemma_whole_span(t: &str)
    ensures
        valid_utf8(t.spec_bytes()),
        span_ok(t.spec_bytes(), 0, t.spec_bytes().len() as int),
        chars_in(t.spec_bytes(), 0, t.spec_bytes().len() as int) == t@,
{
    encode_utf8_valid_utf8(t@);
    is_char_boundary_start_end_of_seq(t.spec_bytes());
    assert(t.spec_bytes().subrange(0, t.spec_bytes().len() as int) =~= t.spec_bytes());
    encode_utf8_decode_utf8(t@);
}

/// Byte-wise equality of two byte slices.
fn bytes_equal(a: &[u8], b: &[u8]) -> (r: bool)
    ensures
        r == (a@ == b@),
{
    if a.len() != b.len() {
        return false;
    }
    let mut i: usize = 0;
    while i < a.len()
        invariant
            a@.len() == b@.len(),
            i <= a@.len(),
            forall|j: int| 0 <= j < i ==> a@[j] == b@[j],
        decreases a@.len() - i,
    {
        if a[i] != b[i] {
            return false;
        }
        i = i + 1;
    }
    assert(a@ =~= b@);
    true
}

/// Whether two strings hold the same characters.
pub fn str_equal(a: &str, b: &str) -> (r: bool)
    ensures
        r == (a@ == b@),
{
    let r = bytes_equal(a.as_bytes(), b.as_bytes());
    proof {
        if r {
            lemma_utf8_injective(a@, b@);
        }
    }
    r
}

/// The part of `text` between the byte offsets `s` and `e`.
pub fn substr<'a>(text: &'a str, s: usize, e: usize) -> (r: &'a str)
    requires
        span_ok(text.spec_bytes(), s as int, e as int),
    ensures
        r.spec_bytes() == text.spec_bytes().subrange(s as int, e as int),
        r@ == chars_in(text.spec_bytes(), s as int, e as int),
{
    proof {
        encode_utf8_valid_utf8(text@);
        lemma_span_valid(text.spec_bytes(), s as int, e as int);
    }
    let (_, rest) = text.split_at(s);
    let (mid, _) = rest.split_at(e - s);
    proof {
        assert(mid.spec_bytes() =~= text.spec_bytes().subrange(s as int, e as int));
        encode_utf8_decode_utf8(mid@);
    }
    mid
}

/// The characters of a string, in order.
pub fn chars_of(s: &str) -> (v: Vec<char>)
    ensures
        v@ == s@,
{
    let mut v: Vec<char> = Vec::new();
    for c in it: s.chars()
        invariant
            it.seq() == s@,
            v@ == s@.take(it.index() as int),
    {
        v.push(c);
    }
    proof {
        assert(s@.take(s@.len() as int) == s@);
    }
    v
}

/// The character of a decimal digit `d` (`0 <= d < 10`).
pub open spec fn digit_char(d: int) -> char {
    if d == 0 {
        '0'
    } else if d == 1 {
        '1'
    } else if d == 2 {
        '2'
    } else if d == 3 {
        '3'
    } else if d == 4 {
        '4'
    } else if d == 5 {
        '5'
    } else if d == 6 {
        '6'
    } else if d == 7 {
        '7'
    } else if d == 8 {
        '8'
    } else {
        '9'
    }
}

/// Whether `c` is one of the ASCII digits `0` to `9`.
pub open spec fn is_digit(c: char) -> bool {
    '0' <= c && c <= '9'
}

/// The value of an ASCII digit.
pub open spec fn digit_value(c: char) -> int {
    c as int - '0' as int
}

/// The usual decimal rendering of `n`, without sign or leading zeros.
pub open spec fn decimal(n: nat) -> Seq<char>
    decreases n,
{
    if n < 10 {
        seq![digit_char(n as int)]
    } else {
        decimal(n / 10) + seq![digit_char((n % 10) as int)]
    }
}

/// The number that a run of ASCII digits denotes.
pub open spec fn digits_value(ds: Seq<char>) -> nat
    decreases ds.len(),
{
    if ds.len() == 0 {
        0
    } else {
        (digits_value(ds.drop_last()) * 10 + digit_value(ds.last())) as nat
    }
}

/// Whether every character of `ds` is an ASCII digit.
pub open spec fn all_digits(ds: Seq<char>) -> bool {
    forall|i: int| 0 <= i < ds.len() ==> is_digit(#[trigger] ds[i])
}

/// `s` without one leading `+`, if it has one.
pub open spec fn unsigned_part(s: Seq<char>) -> Seq<char> {
    if s.len() > 0 && s[0] == '+' {
        s.drop_first()
    } else {
        s
    }
}

/// How `str::parse::<usize>` reads a string: an optional `+`, then one or
/// more ASCII digits, whose value must fit in a `usize`.
pub open spec fn parse_usize(s: Seq<char>) -> Option<usize> {
    let ds = unsigned_part(s);
    if ds.len() > 0 && all_digits(ds) && digits_value(ds) <= usize::MAX {
        Some(digits_value(ds) as usize)
    } else {
        None
    }
}

proof fn lemma_digit_char(d: int)
    requires
        0 <= d < 10,
    ensures
        is_digit(digit_char(d)),
        digit_value(digit_char(d)) == d,
{
}

/// The decimal rendering of `n` is a non-empty run of digits, starting
/// with a digit, that reads back as `n`.
pub proof fn lemma_decimal(n: nat)
    ensures
        decimal(n).len() > 0,
        all_digits(decimal(n)),
        digits_value(decimal(n)) == n,
        decimal(n)[0] != '+',
    decreases n,
{
    if n < 10 {
        lemma_digit_char(n as int);
        let s = seq![digit_char(n as int)];
        assert(s.drop_last() =~= Seq::<char>::empty());
        assert(digits_value(s) == digits_value(s.drop_last()) * 10 + digit_value(s.last()));
    } else {
        lemma_decimal(n / 10);
        lemma_digit_char((n % 10) as int);
        let s = decimal(n);
        assert(s.drop_last() =~= decimal(n / 10));
        assert(s.last() == digit_char((n % 10) as int));
        assert(digits_value(s) == digits_value(decimal(n / 10)) * 10 + digit_value(s.last()));
        assert forall|i: int| 0 <= i < s.len() implies is_digit(#[trigger] s[i]) by {
            if i < s.len() - 1 {
                assert(s[i] == decimal(n / 10)[i]);
            }
        }
    }
}

/// `parse_usize` reads back the decimal rendering of any `usize`.
pub proof fn lemma_parse_decimal(n: usize)
    ensures
        parse_usize(decimal(n as nat)) == Some(n),
{
    lemma_decimal(n as nat);
}

fn digit_str(d: usize) -> (r: &'static str)
    requires
        d < 10,
    ensures
        r@ == seq![digit_char(d as int)],
{
    if d == 0 {
        proof { reveal_strlit("0"); }
        "0"
    } else if d == 1 {
        proof { reveal_strlit("1"); }
        "1"
    } else if d == 2 {
        proof { reveal_strlit("2"); }
        "2"
    } else if d == 3 {
        proof { reveal_strlit("3"); }
        "3"
    } else if d == 4 {
        proof { reveal_strlit("4"); }
        "4"
    } else if d == 5 {
        proof { reveal_strlit("5"); }
        "5"
    } else if d == 6 {
        proof { reveal_strlit("6"); }
        "6"
    } else if d == 7 {
        proof { reveal_strlit("7"); }
        "7"
    } else if d == 8 {
        proof { reveal_strlit("8"); }
        "8"
    } else {
        proof { reveal_strlit("9"); }
        "9"
    }
}

/// The decimal rendering of `n`.
pub fn decimal_string(n: usize) -> (s: String)
    ensures
        s@ == decimal(n as nat),
    decreases n,
{
    if n < 10 {
        String::from_str(digit_str(n))
    } else {
        let head = decimal_string(n / 10);
        head.concat(digit_str(n % 10))
    }
}

/// `str::parse::<usize>` on the characters `cs`.
pub fn parse_usize_chars(cs: &Vec<char>) -> (r: Option<usize>)
    ensures
        r == parse_usize(cs@),
{
    let start: usize = if cs.len() > 0 && cs[0] == '+' {
        1
    } else {
        0
    };
    let ghost ds = unsigned_part(cs@);
    if start >= cs.len() {
        return None;
    }
    let mut value: usize = 0;
    let mut i: usize = start;
    while i < cs.len()
        invariant
            start <= i <= cs@.len(),
            start == cs@.len() - ds.len(),
            ds == unsigned_part(cs@),
            ds == cs@.subrange(start as int, cs@.len() as int),
            all_digits(cs@.subrange(start as int, i as int)),
            value as nat == digits_value(cs@.subrange(start as int, i as int)),
        decreases cs@.len() - i,
    {
        let c = cs[i];
        assert(cs@.subrange(start as int, i + 1).drop_last() =~= cs@.subrange(start as int, i as int));
        if !('0' <= c && c <= '9') {
            assert(!all_digits(ds)) by {
                assert(ds[i - start] == c);
            }
            assert(parse_usize(cs@).is_none());
            return None;
        }
        let d = (c as u32 - '0' as u32) as usize;
        match value.checked_mul(10) {
            Some(t) => match t.checked_add(d) {
                Some(v) => {
                    value = v;
                },
                None => {
                    proof {
                        if all_digits(ds) {
                            lemma_digits_value_prefix_bound(ds, i - start + 1);
                            assert(ds.subrange(0, i - start + 1) =~= cs@.subrange(start as int, i + 1));
                            assert(digits_value(ds.subrange(0, i - start + 1)) == value * 10 + d);
                        }
                    }
                    return None;
                },
            },
            None => {
                proof {
                    if all_digits(ds) {
                        lemma_digits_value_prefix_bound(ds, i - start + 1);
                        assert(ds.subrange(0, i - start + 1) =~= cs@.subrange(start as int, i + 1));
                        assert(digits_value(ds.subrange(0, i - start + 1)) >= value * 10) by {
                            assert(is_digit(ds[i - start]));
                        }
                    }
                }
                return None;
            },
        }
        i = i + 1;
    }
    assert(cs@.subrange(start as int, i as int) =~= ds);
    Some(value)
}

/// A run of digits is worth at least any of its prefixes.
proof fn lemma_digits_value_prefix_bound(ds: Seq<char>, k: int)
    requires
        0 <= k <= ds.len(),
        all_digits(ds),
    ensures
        digits_value(ds.subrange(0, k)) <= digits_value(ds),
    decreases ds.len() - k,
{
    if k < ds.len() {
        lemma_digits_value_prefix_bound(ds, k + 1);
        let p = ds.subrange(0, k + 1);
        assert(p.drop_last() =~= ds.subrange(0, k));
        assert(is_digit(ds[k]));
    } else {
        assert(ds.subrange(0, k) =~= ds);
    }
}

/// Sets of characters that strings are trimmed by.
#[derive(Debug, Clone, Copy, PartialEq, Eq, Structural)]
pub enum CharClass {
    /// What `char::is_whitespace` accepts: the Unicode `White_Space` set.
    Whitespace,
    /// `"` and `'`.
    Quote,
    /// Sentence punctuation that may trail a token: `. , ; : ! ? )` and
    /// the closing quotes `» ” ’`.
    ClosingPunct,
    /// Punctuation that may lead a token: `(` and the opening quotes
    /// `« „ “ ‘`.
    OpeningPunct,
}

/// Whether `c` belongs to `class`.
pub open spec fn in_class(c: char, class: CharClass) -> bool {
    match class {
        CharClass::Whitespace => c == '\t' || c == '\n' || c == '\u{b}' || c == '\u{c}' || c
            == '\r' || c == ' ' || c == '\u{85}' || c == '\u{a0}' || c == '\u{1680}' || ('\u{2000}'
            <= c && c <= '\u{200a}') || c == '\u{2028}' || c == '\u{2029}' || c == '\u{202f}' || c
            == '\u{205f}' || c == '\u{3000}',
        CharClass::Quote => c == '"' || c == '\'',
        CharClass::ClosingPunct => c == '.' || c == ',' || c == ';' || c == ':' || c == '!' || c
            == '?' || c == ')' || c == '\u{bb}' || c == '\u{201d}' || c == '\u{2019}',
        CharClass::OpeningPunct => c == '(' || c == '\u{ab}' || c == '\u{201e}' || c == '\u{201c}'
            || c == '\u{2018}',
    }
}

/// Whether `c` belongs to `class`.
pub fn class_has(c: char, class: CharClass) -> (r: bool)
    ensures
        r == in_class(c, class),
{
    match class {
        CharClass::Whitespace => c == '\t' || c == '\n' || c == '\u{b}' || c == '\u{c}' || c
            == '\r' || c == ' ' || c == '\u{85}' || c == '\u{a0}' || c == '\u{1680}' || ('\u{2000}'
            <= c && c <= '\u{200a}') || c == '\u{2028}' || c == '\u{2029}' || c == '\u{202f}' || c
            == '\u{205f}' || c == '\u{3000}',
        CharClass::Quote => c == '"' || c == '\'',
        CharClass::ClosingPunct => c == '.' || c == ',' || c == ';' || c == ':' || c == '!' || c
            == '?' || c == ')' || c == '\u{bb}' || c == '\u{201d}' || c == '\u{2019}',
        CharClass::OpeningPunct => c == '(' || c == '\u{ab}' || c == '\u{201e}' || c == '\u{201c}'
            || c == '\u{2018}',
    }
}

/// `s` without its leading characters of `class`.
pub open spec fn trim_start_in(s: Seq<char>, class: CharClass) -> Seq<char>
    decreases s.len(),
{
    if s.len() > 0 && in_class(s[0], class) {
        trim_start_in(s.drop_first(), class)
    } else {
        s
    }
}

/// `s` without its trailing characters of `class`.
pub open spec fn trim_end_in(s: Seq<char>, class: CharClass) -> Seq<char>
    decreases s.len(),
{
    if s.len() > 0 && in_class(s.last(), class) {
        trim_end_in(s.drop_last(), class)
    } else {
        s
    }
}

/// `s` without leading or trailing characters of `class`.
pub open spec fn trim_in(s: Seq<char>, class: CharClass) -> Seq<char> {
    trim_end_in(trim_start_in(s, class), class)
}

/// The first index at or after `lo` that is not in `class`, up to `hi`.
pub fn skip_start(cs: &Vec<char>, lo: usize, hi: usize, class: CharClass) -> (r: usize)
    requires
        lo <= hi <= cs@.len(),
    ensures
        lo <= r <= hi,
        cs@.subrange(r as int, hi as int) == trim_start_in(cs@.subrange(lo as int, hi as int), class),
{
    let mut i = lo;
    while i < hi && class_has(cs[i], class)
        invariant
            lo <= i <= hi <= cs@.len(),
            trim_start_in(cs@.subrange(i as int, hi as int), class) == trim_start_in(
                cs@.subrange(lo as int, hi as int),
                class,
            ),
        decreases hi - i,
    {
        assert(cs@.subrange(i as int, hi as int).drop_first() =~= cs@.subrange(i + 1, hi as int));
        i = i + 1;
    }
    i
}

/// The last index at or before `hi` after which nothing but characters of
/// `class` remain, down to `lo`.
pub fn skip_end(cs: &Vec<char>, lo: usize, hi: usize, class: CharClass) -> (r: usize)
    requires
        lo <= hi <= cs@.len(),
    ensures
        lo <= r <= hi,
        cs@.subrange(lo as int, r as int) == trim_end_in(cs@.subrange(lo as int, hi as int), class),
{
    let mut j = hi;
    while j > lo && class_has(cs[j - 1], class)
        invariant
            lo <= j <= hi <= cs@.len(),
            trim_end_in(cs@.subrange(lo as int, j as int), class) == trim_end_in(
                cs@.subrange(lo as int, hi as int),
                class,
            ),
        decreases j - lo,
    {
        assert(cs@.subrange(lo as int, j as int).drop_last() =~= cs@.subrange(lo as int, j - 1));
        j = j - 1;
    }
    j
}

/// `parts` with `sep` between each two.
pub open spec fn joined(parts: Seq<Seq<char>>, sep: Seq<char>) -> Seq<char>
    decreases parts.len(),
{
    if parts.len() == 0 {
        seq![]
    } else if parts.len() == 1 {
        parts[0]
    } else {
        joined(parts.drop_last(), sep) + sep + parts.last()
    }
}

/// Whether the characters `a` are those of `b`.
pub fn chars_equal(a: &Vec<char>, b: &str) -> (r: bool)
    ensures
        r == (a@ == b@),
{
    let bs = chars_of(b);
    if a.len() != bs.len() {
        return false;
    }
    let mut i: usize = 0;
    while i < a.len()
        invariant
            bs@ == b@,
            a@.len() == bs@.len(),
            i <= a@.len(),
            forall|j: int| 0 <= j < i ==> a@[j] == bs@[j],
        decreases a@.len() - i,
    {
        if a[i] != bs[i] {
            return false;
        }
        i = i + 1;
    }
    assert(a@ =~= b@);
    true
}

/// An ASCII upper-case letter in lower case; any other character as it is.
pub open spec fn lower_ascii(c: char) -> char {
    if 'A' <= c && c <= 'Z' {
        ((c as u32) + 32) as char
    } else {
        c
    }
}

/// `str::to_ascii_lowercase`.
pub open spec fn ascii_lowercase(s: Seq<char>) -> Seq<char> {
    s.map_values(|c: char| lower_ascii(c))
}

/// `s` begins with `p`.
pub open spec fn starts_with(s: Seq<char>, p: Seq<char>) -> bool {
    p.len() <= s.len() && s.subrange(0, p.len() as int) == p
}

/// `s` ends with `p`.
pub open spec fn ends_with(s: Seq<char>, p: Seq<char>) -> bool {
    p.len() <= s.len() && s.subrange(s.len() - p.len(), s.len() as int) == p
}

/// The lower-case form of an ASCII letter.
pub fn lower_ascii_char(c: char) -> (r: char)
    ensures
        r == lower_ascii(c),
{
    if 'A' <= c && c <= 'Z' {
        let u = c as u32;
        let l = (u + 32) as u8;
        l as char
    } else {
        c
    }
}

/// The characters of `s` with ASCII letters in lower case.
pub fn ascii_lowercase_chars(s: &str) -> (r: Vec<char>)
    ensures
        r@ == ascii_lowercase(s@),
{
    let cs = chars_of(s);
    let mut r: Vec<char> = Vec::new();
    let mut i: usize = 0;
    while i < cs.len()
        invariant
            cs@ == s@,
            i <= cs@.len(),
            r@ == ascii_lowercase(cs@.take(i as int)),
        decreases cs@.len() - i,
    {
        r.push(lower_ascii_char(cs[i]));
        assert(r@ =~= ascii_lowercase(cs@.take(i + 1)));
        i = i + 1;
    }
    assert(cs@.take(cs@.len() as int) =~= cs@);
    r
}

/// Whether `cs` begins with the characters of `p`.
pub fn has_prefix(cs: &Vec<char>, p: &str) -> (r: bool)
    ensures
        r == starts_with(cs@, p@),
{
    let ps = chars_of(p);
    if ps.len() > cs.len() {
        return false;
    }
    let mut i: usize = 0;
    while i < ps.len()
        invariant
            ps@ == p@,
            ps@.len() <= cs@.len(),
            i <= ps@.len(),
            forall|j: int| 0 <= j < i ==> cs@[j] == ps@[j],
        decreases ps@.len() - i,
    {
        if cs[i] != ps[i] {
            assert(cs@.subrange(0, ps@.len() as int)[i as int] != p@[i as int]);
            return false;
        }
        i = i + 1;
    }
    assert(cs@.subrange(0, ps@.len() as int) =~= p@);
    true
}

/// Whether `cs` ends with the characters of `p`.
pub fn has_suffix(cs: &Vec<char>, p: &str) -> (r: bool)
    ensures
        r == ends_with(cs@, p@),
{
    let ps = chars_of(p);
    if ps.len() > cs.len() {
        return false;
    }
    let off = cs.len() - ps.len();
    let mut i: usize = 0;
    while i < ps.len()
        invariant
            ps@ == p@,
            off + ps@.len() == cs@.len(),
            cs@.len() <= usize::MAX,
            i <= ps@.len(),
            forall|j: int| 0 <= j < i ==> cs@[off + j] == ps@[j],
        decreases ps@.len() - i,
    {
        if cs[off + i] != ps[i] {
            assert(cs@.subrange(off as int, cs@.len() as int)[i as int] != p@[i as int]);
            return false;
        }
        i = i + 1;
    }
    assert(cs@.subrange(off as int, cs@.len() as int) =~= p@);
    true
}

/// `s` without leading or trailing whitespace (`str::trim`).
pub fn trim_str(s: &str) -> (r: &str)
    ensures
        r@ == trim_in(s@, CharClass::Whitespace),
{
    let cs = chars_of(s);
    let n = cs.len();
    let a = skip_start(&cs, 0, n, CharClass::Whitespace);
    let b = skip_end(&cs, a, n, CharClass::Whitespace);
    assert(cs@.subrange(0, n as int) =~= cs@);
    s.substring_char(a, b)
}

} // verus!
