use anonym_mcp::config::{kind_from_name, kinds_from, listed, reveal_allowed, roots_from_env, settings_from_env, split_pieces};
use anonym_mcp::detectors::{Kind, Settings};

#[test]
fn detector_names_from_env_are_parsed_leniently() {
    assert_eq!(kind_from_name("TCKN"), Some(Kind::NationalId));
    assert_eq!(kind_from_name("credit-card"), Some(Kind::CreditCard));
    assert_eq!(kind_from_name("garbage"), None);
}

#[test]
fn detector_names_accept_turkish_and_whitespace() {
    assert_eq!(kind_from_name("  şifre "), Some(Kind::Password));
    assert_eq!(kind_from_name("KİŞİ"), None);
    assert_eq!(kind_from_name("kişi"), Some(Kind::PersonName));
    assert_eq!(kind_from_name("Person_Name"), Some(Kind::PersonName));
    assert_eq!(kind_from_name("ÖZEL"), None);
    assert_eq!(kind_from_name("özel"), Some(Kind::CustomWord));
    assert_eq!(kind_from_name("Telefon"), Some(Kind::Phone));
}

#[test]
fn lists_split_like_str_split() {
    assert_eq!(split_pieces("a,,b", ','), vec!["a", "", "b"]);
    assert_eq!(split_pieces("", ','), vec![""]);
    assert_eq!(split_pieces("a,", ','), vec!["a", ""]);
    assert_eq!(listed(" a , ,b ,", ','), vec!["a", "b"]);
}

#[test]
fn unknown_detector_names_keep_the_defaults() {
    let settings = settings_from_env(None, Some("garbage,nonsense"));
    assert_eq!(settings, Settings::default());
}

#[test]
fn known_detector_names_replace_the_defaults() {
    let settings = settings_from_env(Some("Acme Holding, Client Name ,"), Some("tckn, garbage ,email"));
    assert_eq!(settings.enabled, vec![Kind::NationalId, Kind::Email]);
    assert_eq!(settings.custom_words, vec!["Acme Holding", "Client Name"]);
    assert_eq!(kinds_from("iban,IBAN"), vec![Kind::Iban, Kind::Iban]);
}

#[test]
fn words_keep_the_default_detectors() {
    let settings = settings_from_env(Some("x"), None);
    assert_eq!(settings.enabled, Settings::default().enabled);
    assert_eq!(settings.custom_words, vec!["x"]);
}

#[test]
fn roots_are_colon_separated() {
    assert_eq!(roots_from_env(Some("/a: /b ::")), vec!["/a", "/b"]);
    assert!(roots_from_env(None).is_empty());
}

#[test]
fn reveal_is_off_unless_switched_on() {
    assert!(reveal_allowed(Some(" 1 ")));
    assert!(reveal_allowed(Some("true")));
    assert!(reveal_allowed(Some("yes")));
    assert!(!reveal_allowed(Some("TRUE")));
    assert!(!reveal_allowed(Some("0")));
    assert!(!reveal_allowed(None));
}
