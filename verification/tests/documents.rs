use anonym_mcp::documents::{
    available, carries_text, classify, is_image, is_media_image, is_ooxml, is_pdf, part_text,
    provenance_note, recognised_image_text, recognize_text, truncated,
    Source, MAX_PAGES,
};

#[test]
fn ocr_recognises_image_extensions() {
    assert!(is_image("shot.png"));
    assert!(is_image("SCAN.TIFF"));
    assert!(!is_image("notes.txt"));
    assert!(!is_image("archive"));
}

#[test]
fn ocr_availability_matches_the_platform() {
    assert_eq!(available("linux"), false);
    assert_eq!(available("macos"), true);
}

#[test]
fn ooxml_extensions_are_recognised() {
    assert!(is_ooxml("a.docx"));
    assert!(is_ooxml("a.XLSX"));
    assert!(!is_ooxml("a.txt"));
    assert!(!is_ooxml("a"));
}

#[test]
fn ooxml_recognises_embedded_media_by_location_and_type() {
    assert!(is_media_image("word/media/image1.png"));
    assert!(is_media_image("xl/media/image2.JPG"));
    assert!(is_media_image("ppt/media/shot.bmp"));
    assert!(!is_media_image("word/document.xml"));
    assert!(!is_media_image("word/fonts/font1.odttf"));
    assert!(!is_media_image("customXml/image1.png"));
}

#[test]
fn ooxml_finds_embedded_media_in_word_excel_and_powerpoint() {
    for name in [
        "word/media/image1.png",
        "xl/media/image1.png",
        "ppt/media/image1.png",
    ] {
        assert!(is_media_image(name), "{name} must be treated as media");
    }
}

#[test]
fn pdf_extension_is_recognised() {
    assert!(is_pdf("a.pdf"));
    assert!(is_pdf("A.PDF"));
    assert!(!is_pdf("a.docx"));
}

#[test]
fn pdf_note_warns_loudly_when_a_scan_cannot_be_read() {
    let note = provenance_note(Source::NeedsOcr, false);
    assert!(note.contains("WARNING"), "{note}");
    assert!(
        note.contains("does NOT mean the document is free"),
        "an empty result must not be mistaken for a clean document: {note}"
    );
}

#[test]
fn pdf_note_says_when_text_came_from_ocr() {
    let note = provenance_note(Source::NeedsOcr, true);
    assert!(note.contains("OCR"), "{note}");
    assert!(
        note.contains("misread"),
        "the agent must know recognition is fallible: {note}"
    );
}

#[test]
fn pdf_note_is_silent_for_an_ordinary_text_pdf() {
    assert_eq!(provenance_note(Source::TextLayer, true), "");
    assert_eq!(provenance_note(Source::TextLayer, false), "");
}

#[test]
fn pdf_classifies_a_page_with_almost_no_text_as_needing_ocr() {
    assert_eq!(classify("  1 \n".to_string()).source, Source::NeedsOcr);
    assert_eq!(classify("fifteen letters".to_string()).source, Source::NeedsOcr);
    assert_eq!(classify("fifteen letters!".to_string()).source, Source::NeedsOcr);
    let full = classify("sixteen letters!".to_string() + "!");
    assert_eq!(full.source, Source::TextLayer);
    assert_eq!(full.text, "sixteen letters!!");
}

#[test]
fn text_bearing_parts_are_recognised() {
    assert!(carries_text("word/document.xml"));
    assert!(carries_text("xl/sharedStrings.xml"));
    assert!(carries_text("docProps/core.xml"));
    assert!(!carries_text("docProps/app.xml"));
    assert!(!carries_text("[Content_Types].xml"));
    assert!(!carries_text("word/media/image1.png"));
}

#[test]
fn recognised_lines_are_joined_in_order() {
    assert_eq!(recognize_text(&vec!["a".to_string(), "b".to_string()]), "a\nb");
    assert_eq!(recognize_text(&Vec::new()), "");
}

#[test]
fn recognised_image_text_is_labelled_or_dropped() {
    assert_eq!(
        recognised_image_text("word/media/image1.png", "tckn 1"),
        "\n[text recognised in embedded image word/media/image1.png]\ntckn 1\n"
    );
    assert_eq!(recognised_image_text("word/media/image1.png", " \n "), "");
}

#[test]
fn part_text_collects_each_text_node_on_its_own_line() {
    let xml = "<w:p><w:r><w:t>tckn 10000000146</w:t></w:r>\n  <w:t>a &amp; b</w:t></w:p>";
    assert_eq!(part_text(xml).unwrap(), "tckn 10000000146\na & b\n");
}

#[test]
fn page_truncation_is_reported_past_the_limit() {
    assert!(!truncated(Some(1)));
    assert!(!truncated(Some(MAX_PAGES)));
    assert!(truncated(Some(MAX_PAGES + 1)));
    assert!(!truncated(None));
}
