use anonym_mcp::detectors::{detect, is_placeholder, luhn_valid, tckn_valid, Kind, Settings};

fn kinds(text: &str) -> Vec<(Kind, String)> {
    detect(text, &Settings::default())
        .into_iter()
        .map(|m| (m.kind, m.value))
        .collect()
}

#[test]
fn detects_valid_tckn_and_rejects_bad_checksum() {
    assert!(tckn_valid("10000000146"));
    assert!(!tckn_valid("12345678901"));
    let found = kinds("kimlik 10000000146 ve 12345678901 var");
    assert_eq!(found, vec![(Kind::NationalId, "10000000146".to_string())]);
}

#[test]
fn detects_luhn_valid_card_only() {
    assert!(luhn_valid("4111 1111 1111 1111"));
    assert!(!luhn_valid("4111 1111 1111 1112"));
    let found = kinds("kart 4111 1111 1111 1111 son");
    assert_eq!(found.len(), 1);
    assert_eq!(found[0].0, Kind::CreditCard);
}

#[test]
fn detects_iban_email_and_phone() {
    let found = kinds("TR33 0006 1005 9786 4578 4132 26 · a.b@example.com · 0532 123 45 67");
    let found_kinds: Vec<Kind> = found.iter().map(|(k, _)| *k).collect();
    assert!(found_kinds.contains(&Kind::Iban));
    assert!(found_kinds.contains(&Kind::Email));
    assert!(found_kinds.contains(&Kind::Phone));
}

#[test]
fn detects_labelled_password_value_not_the_label() {
    let found = kinds("password: Gtts@2020");
    assert_eq!(found, vec![(Kind::Password, "Gtts@2020".to_string())]);
}

#[test]
fn detects_custom_words_case_insensitively() {
    let settings = Settings {
        custom_words: vec!["Acme Holding".to_string()],
        ..Settings::default()
    };
    let found = detect("acme holding raporu", &settings);
    assert_eq!(found.len(), 1);
    assert_eq!(found[0].kind, Kind::CustomWord);
}

#[test]
fn detects_nothing_in_ordinary_prose() {
    assert!(kinds("bu satırda hassas bir şey yok").is_empty());
}

#[test]
fn detects_no_overlapping_ranges() {
    let text = "iletisim a.b@example.com tel +90 532 123 45 67 tckn 10000000146";
    let found = detect(text, &Settings::default());
    for pair in found.windows(2) {
        assert!(pair[0].end <= pair[1].start, "overlap: {pair:?}");
    }
}

#[test]
fn detects_person_names_only_when_enabled() {
    let text = "Ahmet Yılmaz geldi";
    assert!(kinds(text).is_empty());
    let settings = Settings {
        enabled: vec![Kind::PersonName],
        ..Settings::default()
    };
    assert_eq!(detect(text, &settings).len(), 1);
}

#[test]
fn detects_password_shaped_tokens_without_a_label() {
    let found = kinds("kullanici admin trX987&21");
    assert!(
        found
            .iter()
            .any(|(k, v)| *k == Kind::Password && v == "trX987&21"),
        "{found:?}"
    );
}

#[test]
fn detects_leaves_bare_usernames_alone_but_custom_words_catch_them() {
    assert!(
        kinds("User Name : admin01").is_empty(),
        "a bare username must not be mistaken for a password"
    );

    let settings = Settings {
        custom_words: vec!["admin01".to_string()],
        ..Settings::default()
    };
    let found = detect("User Name : admin01", &settings);
    assert_eq!(found.len(), 1, "the word list must reach it");
    assert_eq!(found[0].kind, Kind::CustomWord);
}

#[test]
fn detects_skip_existing_placeholders() {
    assert!(is_placeholder("TCKN_1"));
    assert!(kinds("değer TCKN_1 ve EPOSTA_2").is_empty());
}

#[test]
fn detected_spans_carry_their_values() {
    let text = "İ a.b@example.com x";
    let found = detect(text, &Settings::default());
    assert_eq!(found.len(), 1);
    assert_eq!(&text[found[0].start..found[0].end], found[0].value);
    assert_eq!(found[0].start, 3);
}

#[test]
fn checksums_on_edge_values() {
    assert!(!luhn_valid("4111"));
    assert!(!luhn_valid(""));
    assert!(luhn_valid("4111-1111-1111-1111"));
    assert!(!tckn_valid("00000000146"));
    assert!(!tckn_valid("1000000014"));
}

#[test]
fn every_detected_national_id_passes_its_checksum() {
    let found = detect(
        "10000000146 10000000147 10000000148 12345678950",
        &Settings::default(),
    );
    for m in &found {
        if m.kind == Kind::NationalId {
            assert!(tckn_valid(&m.value), "{m:?}");
        }
    }
    assert!(found.iter().any(|m| m.value == "10000000146"));
}

#[test]
fn kinds_have_their_prefixes() {
    assert_eq!(Kind::NationalId.prefix(), "TCKN");
    assert_eq!(Kind::from_prefix("EPOSTA"), Some(Kind::Email));
    assert_eq!(Kind::from_prefix("EPOST"), None);
    assert_eq!(Kind::all().len(), 8);
    for k in Kind::all() {
        assert_eq!(Kind::from_prefix(k.prefix()), Some(k));
    }
}

#[test]
fn custom_words_match_literally() {
    let settings = Settings {
        enabled: vec![Kind::CustomWord],
        custom_words: vec!["a.c".to_string(), "  ".to_string()],
    };
    let found = detect("abc a.c", &settings);
    assert_eq!(found.len(), 1);
    assert_eq!(found[0].value, "a.c");
    assert_eq!(found[0].start, 4);
}

#[test]
fn longer_custom_words_win_over_their_prefixes() {
    let settings = Settings {
        enabled: vec![Kind::CustomWord],
        custom_words: vec!["Acme".to_string(), "Acme Holding".to_string()],
    };
    let found = detect("ACME HOLDING A.S.", &settings);
    assert_eq!(found.len(), 1);
    assert_eq!(found[0].value, "ACME HOLDING");
}

#[test]
fn every_match_is_a_non_empty_span_of_the_text() {
    let settings = Settings {
        custom_words: vec!["Acme".to_string(), "  ".to_string(), "".to_string()],
        ..Settings::default()
    };
    let text = "Acme tckn 10000000146 mail a.b@example.com parola: Gtts@2020";
    let found = detect(text, &settings);
    assert!(!found.is_empty());
    for m in &found {
        assert!(m.start < m.end, "empty match: {m:?}");
        assert_eq!(&text[m.start..m.end], m.value);
    }
}
