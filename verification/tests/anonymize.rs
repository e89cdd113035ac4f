use anonym_mcp::anonymize::{anonymize_text, has_restorable_placeholder, restore_text, Report};
use anonym_mcp::detectors::{Kind, Settings};
use anonym_mcp::store::MappingStore;

fn settings() -> Settings {
    Settings::default()
}

#[test]
fn roundtrip_restores_the_original_text_exactly() {
    let text = "müşteri a.b@example.com, tckn 10000000146, iban TR33 0006 1005 9786 4578 4132 26";
    let mut store = MappingStore::ephemeral();
    let (anon, report) = anonymize_text(text, &settings(), &mut store);

    assert!(!anon.contains("a.b@example.com"));
    assert!(!anon.contains("10000000146"));
    assert_eq!(report.count(), 3);

    let (back, restored) = restore_text(&anon, &store);
    assert_eq!(back, text);
    assert_eq!(restored, 3);
}

#[test]
fn roundtrip_is_stable_across_two_documents() {
    let mut store = MappingStore::ephemeral();
    let (first, _) = anonymize_text("mail a.b@example.com", &settings(), &mut store);
    let (second, _) = anonymize_text("yine a.b@example.com", &settings(), &mut store);
    let placeholder = first.split_whitespace().last().unwrap();
    assert!(second.contains(placeholder));
}

#[test]
fn roundtrip_leaves_clean_text_untouched() {
    let mut store = MappingStore::ephemeral();
    let (out, report) = anonymize_text("burada hassas veri yok", &settings(), &mut store);
    assert_eq!(out, "burada hassas veri yok");
    assert!(report.is_empty());
}

#[test]
fn restore_leaves_unknown_placeholders_alone() {
    let store = MappingStore::ephemeral();
    let (out, restored) = restore_text("değer TCKN_9 burada", &store);
    assert_eq!(out, "değer TCKN_9 burada");
    assert_eq!(restored, 0);
    assert!(!has_restorable_placeholder("değer TCKN_9", &store));
}

#[test]
fn restore_detects_restorable_text() {
    let mut store = MappingStore::ephemeral();
    let placeholder = store.placeholder_for("a@b.com", Kind::Email);
    assert!(has_restorable_placeholder(
        &format!("to: {placeholder}"),
        &store
    ));
}

#[test]
fn restore_returns_a_masked_document_to_its_original_form() {
    let mut store = MappingStore::ephemeral();
    let original = "ad: Ali\ntckn: 10000000146\nmail: a.b@example.com";
    let (masked, _) = anonymize_text(original, &settings(), &mut store);
    let edited = masked.replace("ad: Ali", "ad: Ali Veli");
    let (written, restored) = restore_text(&edited, &store);
    assert!(written.contains("10000000146"));
    assert!(written.contains("a.b@example.com"));
    assert!(written.contains("Ali Veli"));
    assert_eq!(restored, 2);
}

#[test]
fn restore_is_idempotent_on_already_restored_text() {
    let mut store = MappingStore::ephemeral();
    let (masked, _) = anonymize_text("mail a.b@example.com", &settings(), &mut store);
    let (once, _) = restore_text(&masked, &store);
    let (twice, restored_again) = restore_text(&once, &store);
    assert_eq!(once, twice);
    assert_eq!(restored_again, 0);
}

#[test]
fn report_summarizes_by_kind() {
    let mut store = MappingStore::ephemeral();
    let (_, report) = anonymize_text(
        "a@b.com ve c@d.com ve tckn 10000000146",
        &settings(),
        &mut store,
    );
    let summary = report.summary();
    assert!(summary.contains("2 EPOSTA"), "{summary}");
    assert!(summary.contains("1 TCKN"), "{summary}");
}

#[test]
fn roundtrip_preserves_multibyte_text_around_matches() {
    let text = "İstanbul’dan a.b@example.com adresine — şifre: Gtts@2020";
    let mut store = MappingStore::ephemeral();
    let (anon, _) = anonymize_text(text, &settings(), &mut store);
    assert!(anon.contains("İstanbul’dan"));
    let (back, _) = restore_text(&anon, &store);
    assert_eq!(back, text);
}

#[test]
fn masking_gives_each_value_its_placeholder_in_text_order() {
    let mut store = MappingStore::ephemeral();
    let (out, report) = anonymize_text(
        "a@b.com, c@d.com, a@b.com",
        &settings(),
        &mut store,
    );
    assert_eq!(out, "EPOSTA_1, EPOSTA_2, EPOSTA_1");
    assert_eq!(
        report.replaced,
        vec![
            ("EPOSTA_1".to_string(), Kind::Email),
            ("EPOSTA_2".to_string(), Kind::Email)
        ]
    );
    assert_eq!(report.summary(), "2 EPOSTA");
}

#[test]
fn summary_lists_kinds_in_first_seen_order() {
    let report = Report {
        replaced: vec![
            ("TCKN_1".to_string(), Kind::NationalId),
            ("EPOSTA_1".to_string(), Kind::Email),
            ("TCKN_2".to_string(), Kind::NationalId),
        ],
    };
    assert_eq!(report.summary(), "2 TCKN, 1 EPOSTA");
    assert_eq!(Report::default().summary(), "");
    assert_eq!(report.count(), 3);
    assert!(!report.is_empty());
}

#[test]
fn masking_continues_numbering_from_the_store() {
    let mut store = MappingStore::ephemeral();
    store.placeholder_for("x@y.com", Kind::Email);
    let (out, _) = anonymize_text("mail a.b@example.com", &settings(), &mut store);
    assert_eq!(out, "mail EPOSTA_2");
    assert_eq!(store.len(), 2);
}

#[test]
fn restoring_counts_only_known_placeholders() {
    let mut store = MappingStore::ephemeral();
    let p = store.placeholder_for("10000000146", Kind::NationalId);
    assert_eq!(p, "TCKN_1");
    let (out, n) = restore_text("TCKN_1 TCKN_2 TCKN_1x TCKN_1", &store);
    assert_eq!(out, "10000000146 TCKN_2 TCKN_1x 10000000146");
    assert_eq!(n, 2);
}
