//! The server's configuration, read from the values of its environment
//! variables: which detectors run, the extra word list, the directories
//! the server may touch, and whether the reveal tool is offered.

use vstd::prelude::*;
use vstd::string::*;

use crate::detectors::{cleaned_words, default_kinds, words_view, Kind, Settings};
use crate::text::{chars_equal, chars_of, str_equal, trim_in, trim_str, CharClass};

verus! {

/// `str::split(sep)`: the pieces between the separators, always at least
/// one.
pub open spec fn split_on(s: Seq<char>, sep: char) -> Seq<Seq<char>>
    decreases s.len(),
{
    if s.len() == 0 {
        seq![seq![]]
    } else {
        let rest = split_on(s.drop_last(), sep);
        if s.last() == sep {
            rest.push(seq![])
        } else {
            rest.update(rest.len() - 1, rest.last().push(s.last()))
        }
    }
}

proof fn lemma_split_on_nonempty(s: Seq<char>, sep: char)
    ensures
        split_on(s, sep).len() >= 1,
    decreases s.len(),
{
    if s.len() > 0 {
        lemma_split_on_nonempty(s.drop_last(), sep);
    }
}

/// The pieces of `s` between the separators `sep`.
pub fn split_pieces(s: &str, sep: char) -> (r: Vec<String>)
    ensures
        words_view(r@) == split_on(s@, sep),
{
    let cs = chars_of(s);
    let mut out: Vec<String> = Vec::new();
    let mut start: usize = 0;
    let mut i: usize = 0;
    proof {
        assert(s@.take(0) =~= Seq::<char>::empty());
        assert(s@.subrange(0, 0) =~= Seq::<char>::empty());
        assert(words_view(out@).push(s@.subrange(0, 0)) =~= split_on(s@.take(0), sep));
    }
    while i < cs.len()
        invariant
            cs@ == s@,
            start <= i <= cs@.len(),
            words_view(out@).push(s@.subrange(start as int, i as int)) == split_on(s@.take(i as int), sep),
        decreases cs@.len() - i,
    {
        let ghost pre = s@.take(i as int);
        let ghost post = s@.take(i + 1);
        assert(post.drop_last() =~= pre);
        assert(post.last() == cs@[i as int]);
        let ghost rest = split_on(pre, sep);
        if cs[i] == sep {
            let piece = String::from_str(s.substring_char(start, i));
            let ghost before = out@;
            out.push(piece);
            assert(words_view(out@) =~= words_view(before).push(piece@));
            start = i + 1;
            assert(s@.subrange(start as int, i + 1) =~= Seq::<char>::empty());
            assert(words_view(out@).push(s@.subrange(start as int, i + 1)) =~= split_on(post, sep));
        } else {
            assert(rest.last() == s@.subrange(start as int, i as int));
            assert(s@.subrange(start as int, i + 1) =~= s@.subrange(start as int, i as int).push(cs@[i as int]));
            assert(words_view(out@).push(s@.subrange(start as int, i + 1)) =~= rest.update(
                rest.len() - 1,
                rest.last().push(cs@[i as int]),
            ));
        }
        i = i + 1;
    }
    assert(s@.take(cs@.len() as int) =~= s@);
    let last = String::from_str(s.substring_char(start, cs.len()));
    let ghost before = out@;
    out.push(last);
    assert(words_view(out@) =~= words_view(before).push(last@));
    out
}

/// The non-empty, trimmed entries of a `sep`-separated list.
pub fn listed(s: &str, sep: char) -> (r: Vec<String>)
    ensures
        words_view(r@) == cleaned_words(split_on(s@, sep)),
{
    let pieces = split_pieces(s, sep);
    let ghost ps = words_view(pieces@);
    let mut out: Vec<String> = Vec::new();
    let mut i: usize = 0;
    while i < pieces.len()
        invariant
            ps == words_view(pieces@),
            ps == split_on(s@, sep),
            i <= pieces@.len(),
            words_view(out@) == cleaned_words(ps.take(i as int)),
        decreases pieces@.len() - i,
    {
        assert(ps.take(i + 1).drop_last() =~= ps.take(i as int));
        assert(ps[i as int] == pieces@[i as int]@);
        let t = trim_str(pieces[i].as_str());
        if t.unicode_len() > 0 {
            let w = String::from_str(t);
            let ghost before = out@;
            out.push(w);
            assert(words_view(out@) =~= words_view(before).push(w@));
        }
        i = i + 1;
    }
    assert(ps.take(ps.len() as int) =~= ps);
    out
}

/// A detector name folded for lookup: ASCII letters in lower case and `-`
/// read as `_`.
pub open spec fn name_key(c: char) -> char {
    if 'A' <= c && c <= 'Z' {
        ((c as u32) + 32) as char
    } else if c == '-' {
        '_'
    } else {
        c
    }
}

/// A detector name trimmed and folded.
pub open spec fn normalized_name(s: Seq<char>) -> Seq<char> {
    trim_in(s, CharClass::Whitespace).map_values(|c: char| name_key(c))
}

/// The kind a folded detector name stands for.
pub open spec fn kind_named(n: Seq<char>) -> Option<Kind> {
    if n == "password"@ || n == "sifre"@ || n == "\u{15f}ifre"@ {
        Some(Kind::Password)
    } else if n == "national_id"@ || n == "tckn"@ {
        Some(Kind::NationalId)
    } else if n == "iban"@ {
        Some(Kind::Iban)
    } else if n == "credit_card"@ || n == "card"@ || n == "kart"@ {
        Some(Kind::CreditCard)
    } else if n == "email"@ || n == "eposta"@ {
        Some(Kind::Email)
    } else if n == "phone"@ || n == "tel"@ || n == "telefon"@ {
        Some(Kind::Phone)
    } else if n == "person_name"@ || n == "person"@ || n == "kisi"@ || n == "ki\u{15f}i"@ {
        Some(Kind::PersonName)
    } else if n == "custom_word"@ || n == "custom"@ || n == "ozel"@ || n == "\u{f6}zel"@ {
        Some(Kind::CustomWord)
    } else {
        None
    }
}

fn fold_char(c: char) -> (r: char)
    ensures
        r == name_key(c),
{
    if 'A' <= c && c <= 'Z' {
        let u = c as u32;
        let l = (u + 32) as u8;
        assert(l == u + 32);
        let r = l as char;
        assert(r == ((c as u32) + 32) as char);
        r
    } else if c == '-' {
        '_'
    } else {
        c
    }
}

/// The detector a configured name stands for: `TCKN`, `credit-card` and
/// `şifre` are all accepted, in any ASCII case and with surrounding
/// whitespace.
pub fn kind_from_name(name: &str) -> (r: Option<Kind>)
    ensures
        r == kind_named(normalized_name(name@)),
{
    let t = trim_str(name);
    let cs = chars_of(t);
    let mut n: Vec<char> = Vec::new();
    let mut i: usize = 0;
    while i < cs.len()
        invariant
            cs@ == t@,
            i <= cs@.len(),
            n@ == cs@.take(i as int).map_values(|c: char| name_key(c)),
        decreases cs@.len() - i,
    {
        n.push(fold_char(cs[i]));
        assert(n@ =~= cs@.take(i + 1).map_values(|c: char| name_key(c)));
        i = i + 1;
    }
    assert(cs@.take(cs@.len() as int) =~= cs@);
    if chars_equal(&n, "password") || chars_equal(&n, "sifre") || chars_equal(&n, "\u{15f}ifre") {
        Some(Kind::Password)
    } else if chars_equal(&n, "national_id") || chars_equal(&n, "tckn") {
        Some(Kind::NationalId)
    } else if chars_equal(&n, "iban") {
        Some(Kind::Iban)
    } else if chars_equal(&n, "credit_card") || chars_equal(&n, "card") || chars_equal(&n, "kart") {
        Some(Kind::CreditCard)
    } else if chars_equal(&n, "email") || chars_equal(&n, "eposta") {
        Some(Kind::Email)
    } else if chars_equal(&n, "phone") || chars_equal(&n, "tel") || chars_equal(&n, "telefon") {
        Some(Kind::Phone)
    } else if chars_equal(&n, "person_name") || chars_equal(&n, "person") || chars_equal(&n, "kisi")
        || chars_equal(&n, "ki\u{15f}i") {
        Some(Kind::PersonName)
    } else if chars_equal(&n, "custom_word") || chars_equal(&n, "custom") || chars_equal(&n, "ozel")
        || chars_equal(&n, "\u{f6}zel") {
        Some(Kind::CustomWord)
    } else {
        None
    }
}

/// The kinds that the names of a list stand for, unknown names skipped.
pub open spec fn named_kinds(names: Seq<Seq<char>>) -> Seq<Kind>
    decreases names.len(),
{
    if names.len() == 0 {
        seq![]
    } else {
        match kind_named(normalized_name(names.last())) {
            Some(k) => named_kinds(names.drop_last()).push(k),
            None => named_kinds(names.drop_last()),
        }
    }
}

/// The detectors a comma-separated list of names selects.
pub fn kinds_from(list: &str) -> (r: Vec<Kind>)
    ensures
        r@ == named_kinds(split_on(list@, ',')),
{
    let pieces = split_pieces(list, ',');
    let ghost ps = words_view(pieces@);
    let mut out: Vec<Kind> = Vec::new();
    let mut i: usize = 0;
    while i < pieces.len()
        invariant
            ps == words_view(pieces@),
            ps == split_on(list@, ','),
            i <= pieces@.len(),
            out@ == named_kinds(ps.take(i as int)),
        decreases pieces@.len() - i,
    {
        assert(ps.take(i + 1).drop_last() =~= ps.take(i as int));
        assert(ps[i as int] == pieces@[i as int]@);
        match kind_from_name(pieces[i].as_str()) {
            Some(k) => out.push(k),
            None => {},
        }
        i = i + 1;
    }
    assert(ps.take(ps.len() as int) =~= ps);
    out
}

/// The detectors enabled by the configuration: the defaults, with the word
/// list switched on when words are given, unless a list of detector names
/// selects at least one known detector, which then replaces them. A list
/// naming nothing known leaves the defaults in place, so a typo cannot
/// switch masking off.
pub open spec fn configured_kinds(words: Option<Seq<char>>, detectors: Option<Seq<char>>) -> Seq<Kind> {
    let with_words = match words {
        Some(w) => if cleaned_words(split_on(w, ',')).len() > 0 && !default_kinds().contains(
            Kind::CustomWord,
        ) {
            default_kinds().push(Kind::CustomWord)
        } else {
            default_kinds()
        },
        None => default_kinds(),
    };
    match detectors {
        Some(d) => if named_kinds(split_on(d, ',')).len() > 0 {
            named_kinds(split_on(d, ','))
        } else {
            with_words
        },
        None => with_words,
    }
}

/// The view of an optional string.
pub open spec fn opt_view(s: Option<&str>) -> Option<Seq<char>> {
    match s {
        Some(v) => Some(v@),
        None => None,
    }
}

/// The settings given by the values of `ANONYM_WORDS` (a comma-separated
/// word list) and `ANONYM_DETECTORS` (comma-separated detector names),
/// each when set.
pub fn settings_from_env(words: Option<&str>, detectors: Option<&str>) -> (s: Settings)
    ensures
        words_view(s.custom_words@) == match words {
            Some(w) => cleaned_words(split_on(w@, ',')),
            None => Seq::<Seq<char>>::empty(),
        },
        s.enabled@ == configured_kinds(opt_view(words), opt_view(detectors)),
{
    let mut settings = Settings::default();
    assert(words_view(settings.custom_words@) =~= Seq::<Seq<char>>::empty());
    match words {
        Some(w) => {
            settings.custom_words = listed(w, ',');
            if settings.custom_words.len() > 0 && !contains_kind(&settings.enabled, Kind::CustomWord) {
                settings.enabled.push(Kind::CustomWord);
            }
        },
        None => {},
    }
    match detectors {
        Some(d) => {
            let named = kinds_from(d);
            if named.len() > 0 {
                settings.enabled = named;
            }
        },
        None => {},
    }
    settings
}

fn contains_kind(kinds: &Vec<Kind>, k: Kind) -> (r: bool)
    ensures
        r == kinds@.contains(k),
{
    let mut i: usize = 0;
    while i < kinds.len()
        invariant
            i <= kinds@.len(),
            forall|j: int| 0 <= j < i ==> kinds@[j] != k,
        decreases kinds@.len() - i,
    {
        if kinds[i] == k {
            assert(kinds@[i as int] == k);
            return true;
        }
        i = i + 1;
    }
    false
}

/// The directories given by the value of `ANONYM_ROOTS`: colon-separated,
/// trimmed, empty entries dropped; none when it is not set.
pub fn roots_from_env(value: Option<&str>) -> (r: Vec<String>)
    ensures
        words_view(r@) == match value {
            Some(v) => cleaned_words(split_on(v@, ':')),
            None => Seq::<Seq<char>>::empty(),
        },
{
    match value {
        Some(v) => listed(v, ':'),
        None => {
            let r: Vec<String> = Vec::new();
            assert(words_view(r@) =~= Seq::<Seq<char>>::empty());
            r
        },
    }
}

/// Whether the value of `ANONYM_ALLOW_REVEAL` switches the reveal tool on:
/// `1`, `true` or `yes`, surrounding whitespace ignored.
pub fn reveal_allowed(value: Option<&str>) -> (r: bool)
    ensures
        r == match value {
            Some(v) => {
                let t = trim_in(v@, CharClass::Whitespace);
                t == "1"@ || t == "true"@ || t == "yes"@
            },
            None => false,
        },
{
    match value {
        Some(v) => {
            let t = trim_str(v);
            str_equal(t, "1") || str_equal(t, "true") || str_equal(t, "yes")
        },
        None => false,
    }
}

/// Masking cannot be switched off by configuration: whatever the word list
/// and detector names say, at least one detector stays enabled, and a
/// detector list that names nothing known leaves the defaults in place.
pub proof fn law_masking_stays_on(words: Option<Seq<char>>, detectors: Option<Seq<char>>)
    ensures
        configured_kinds(words, detectors).len() > 0,
        (detectors matches Some(d) && named_kinds(split_on(d, ',')).len() == 0) ==> configured_kinds(
            words,
            detectors,
        ) == configured_kinds(words, None),
{
}

} // verus!
