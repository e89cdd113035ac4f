use anonym_mcp::archive::{
    build_archive, document_text, extract_text, read_archive, rewrite_members, transform_document,
    ArchiveMember, DocumentError,
};
use anonym_mcp::detectors::Settings;
use anonym_mcp::store::MappingStore;
use anonym_mcp::tools::{Server, ToolError};
use anonym_mcp::xml::XmlError;
use std::io::{Cursor, Read, Write};

const DOCUMENT_XML: &str = r#"<?xml version="1.0" encoding="UTF-8" standalone="yes"?><w:document xmlns:w="http://schemas.openxmlformats.org/wordprocessingml/2006/main"><w:body><w:p><w:pPr><w:pStyle w:val="Baslik"/></w:pPr><w:r><w:t>Kurulum Notu</w:t></w:r></w:p><w:p><w:r><w:t>tckn 10000000146 ve mail a.b@example.com</w:t></w:r></w:p><w:p><w:r><w:rPr><w:b/></w:rPr><w:t>parola: Gtts@2020</w:t></w:r></w:p></w:body></w:document>"#;

const PNG_BYTES: [u8; 10] = [0x89, b'P', b'N', b'G', 0x0d, 0x0a, 0x1a, 0x0a, 0xff, 0x00];

fn zip_of(entries: &[(&str, &[u8])]) -> Vec<u8> {
    let mut zip = zip::ZipWriter::new(Cursor::new(Vec::new()));
    let opts: zip::write::SimpleFileOptions =
        zip::write::SimpleFileOptions::default().compression_method(zip::CompressionMethod::Deflated);
    for (name, data) in entries {
        zip.start_file(*name, opts).unwrap();
        zip.write_all(data).unwrap();
    }
    zip.finish().unwrap().into_inner()
}

/// A .docx with the sensitive values split across paragraphs and a binary
/// picture member.
fn docx() -> Vec<u8> {
    zip_of(&[
        ("[Content_Types].xml", br#"<?xml version="1.0" encoding="UTF-8"?><Types xmlns="http://schemas.openxmlformats.org/package/2006/content-types"/>"#),
        ("_rels/.rels", br#"<?xml version="1.0" encoding="UTF-8"?><Relationships xmlns="http://schemas.openxmlformats.org/package/2006/relationships"/>"#),
        ("word/document.xml", DOCUMENT_XML.as_bytes()),
        ("word/media/image1.png", &PNG_BYTES),
    ])
}

/// An .xlsx whose values live in sharedStrings.xml, with a formula.
fn xlsx() -> Vec<u8> {
    zip_of(&[
        ("[Content_Types].xml", br#"<?xml version="1.0"?><Types xmlns="http://schemas.openxmlformats.org/package/2006/content-types"/>"#),
        ("xl/sharedStrings.xml", br#"<?xml version="1.0"?><sst xmlns="http://schemas.openxmlformats.org/spreadsheetml/2006/main" count="3"><si><t>Musteri</t></si><si><t>10000000146</t></si><si><t>a.b@example.com</t></si></sst>"#),
        ("xl/worksheets/sheet1.xml", br#"<?xml version="1.0"?><worksheet xmlns="http://schemas.openxmlformats.org/spreadsheetml/2006/main"><sheetData><row r="1"><c r="A1" t="s"><v>0</v></c></row><row r="2"><c r="A2"><f>SUM(B1:B9)</f><v>42</v></c></row></sheetData></worksheet>"#),
    ])
}

fn member(bytes: &[u8], name: &str) -> Vec<u8> {
    let mut archive = zip::ZipArchive::new(Cursor::new(bytes)).unwrap();
    let mut entry = archive.by_name(name).unwrap();
    let mut out = Vec::new();
    entry.read_to_end(&mut out).unwrap();
    out
}

fn server() -> Server {
    Server::new(MappingStore::ephemeral(), Settings::default(), vec![], false)
}

#[test]
fn ooxml_docx_is_masked_without_exposing_markup() {
    let members = read_archive(&docx()).expect("a readable archive");
    let (text, media) = document_text(&members).unwrap();
    assert_eq!(media, vec![3]);
    let mut srv = server();
    let seen = srv.mask_document(&text);
    for secret in ["10000000146", "a.b@example.com", "Gtts@2020"] {
        assert!(!seen.contains(secret), "`{secret}` survived: {seen}");
    }
    assert!(seen.contains("TCKN_"), "{seen}");
    assert!(seen.contains("EPOSTA_"), "{seen}");
    assert!(!seen.contains("<w:t>"), "raw markup reached the agent: {seen}");
    assert!(seen.contains("Kurulum Notu"));
}

#[test]
fn a_document_text_is_each_visible_text_node_on_its_own_line() {
    let members = read_archive(&docx()).unwrap();
    let (text, _) = document_text(&members).unwrap();
    assert_eq!(
        text,
        "Kurulum Notu\ntckn 10000000146 ve mail a.b@example.com\nparola: Gtts@2020\n"
    );
}

#[test]
fn ooxml_edit_keeps_the_archive_valid_and_every_member_intact() {
    let before = docx();
    let srv = server();
    let (after, replacements, restored) = srv
        .edit_document("kurulum.docx", &before, "Kurulum Notu", "Kurulum Notu (revize)")
        .unwrap();
    assert_eq!((replacements, restored), (1, 0));
    let archive = zip::ZipArchive::new(Cursor::new(after.as_slice()))
        .expect("the edited file must still be a valid archive");
    assert_eq!(archive.len(), 4, "member count changed");
    let document = String::from_utf8(member(&after, "word/document.xml")).unwrap();
    assert!(document.contains("Kurulum Notu (revize)"), "{document}");
    assert!(document.contains(r#"<w:pStyle w:val="Baslik"/>"#), "{document}");
    assert!(document.contains("10000000146"), "the real value must stay on disk");
    assert!(!document.contains("TCKN_"), "no placeholder may reach the file");
    assert_eq!(
        member(&after, "word/media/image1.png"),
        PNG_BYTES.to_vec(),
        "binary members must be byte-identical"
    );
}

#[test]
fn ooxml_xlsx_shared_strings_are_masked_and_formulas_survive() {
    let bytes = xlsx();
    let members = read_archive(&bytes).unwrap();
    let (text, media) = document_text(&members).unwrap();
    assert!(media.is_empty());
    let mut srv = server();
    let seen = srv.mask_document(&text);
    assert!(!seen.contains("10000000146"), "{seen}");
    assert!(seen.contains("TCKN_"), "{seen}");
    let (after, replacements, _) = srv
        .edit_document("hesap.xlsx", &bytes, "Musteri", "Musteri Listesi")
        .unwrap();
    assert_eq!(replacements, 1);
    let sheet = String::from_utf8(member(&after, "xl/worksheets/sheet1.xml")).unwrap();
    assert!(sheet.contains("<f>SUM(B1:B9)</f>"), "the formula must survive: {sheet}");
    let shared = String::from_utf8(member(&after, "xl/sharedStrings.xml")).unwrap();
    assert!(shared.contains("Musteri Listesi"), "{shared}");
    assert!(shared.contains("10000000146"), "real values stay on disk");
}

#[test]
fn ooxml_edit_that_matches_nothing_explains_the_run_splitting_trap() {
    let srv = server();
    let err = srv
        .edit_document("k.docx", &docx(), "text that is not in the document", "x")
        .unwrap_err();
    assert_eq!(err, ToolError::NotFoundInDocument("k.docx".to_string()));
    let message = err.message();
    assert!(message.contains("not found"), "{message}");
    assert!(message.contains("splits text across runs"), "{message}");
}

#[test]
fn placeholders_in_a_document_edit_are_restored_first() {
    let mut srv = server();
    let masked = srv.mask_snippet("tckn 10000000146");
    assert!(masked.starts_with("tckn TCKN_1"), "{masked}");
    let (after, replacements, restored) = srv
        .edit_document("k.docx", &docx(), "TCKN_1 ve", "TCKN_1 ile")
        .unwrap();
    assert_eq!((replacements, restored), (1, 1));
    let document = String::from_utf8(member(&after, "word/document.xml")).unwrap();
    assert!(document.contains("tckn 10000000146 ile mail"), "{document}");
}

#[test]
fn a_file_that_is_not_an_archive_is_refused() {
    assert!(read_archive(b"plain text, not a zip").is_none());
    let err = server()
        .edit_document("k.docx", b"plain text, not a zip", "a", "b")
        .unwrap_err();
    assert_eq!(
        err,
        ToolError::Document("k.docx".to_string(), DocumentError::NotAnArchive)
    );
    assert_eq!(err.message(), "k.docx is not a valid OOXML archive");
    assert_eq!(
        transform_document(b"nope", "a", "b").unwrap_err(),
        DocumentError::NotAnArchive
    );
}

#[test]
fn a_text_part_that_does_not_parse_fails_the_read_and_the_rewrite() {
    let bytes = zip_of(&[("word/document.xml", b"<w:t>open</w:x>")]);
    let members = read_archive(&bytes).unwrap();
    assert!(matches!(document_text(&members), Err(XmlError::Malformed(_))));
    assert!(matches!(
        rewrite_members(&members, "open", "shut"),
        Err(XmlError::Malformed(_))
    ));
}

#[test]
fn rewriting_copies_every_other_member_verbatim() {
    let members = vec![
        ArchiveMember {
            name: "word/".to_string(),
            is_dir: true,
            compression: 0,
            data: vec![],
            readable: true,
        },
        ArchiveMember {
            name: "word/document.xml".to_string(),
            is_dir: false,
            compression: 8,
            data: b"<w:t>a &amp; a</w:t>".to_vec(),
            readable: true,
        },
        ArchiveMember {
            name: "word/broken.xml".to_string(),
            is_dir: false,
            compression: 0,
            data: vec![0xff, 0xfe, b'a'],
            readable: true,
        },
        ArchiveMember {
            name: "docProps/app.xml".to_string(),
            is_dir: false,
            compression: 8,
            data: b"<t>a</t>".to_vec(),
            readable: true,
        },
    ];
    let (out, count) = rewrite_members(&members, "a", "b<").unwrap();
    assert_eq!(count, 2);
    assert_eq!(out.len(), 4);
    assert_eq!(out[1].data, b"<w:t>b&lt; &amp; b&lt;</w:t>".to_vec());
    for i in [0, 2, 3] {
        assert_eq!(out[i].data, members[i].data);
    }
    for i in 0..4 {
        assert_eq!(out[i].name, members[i].name);
        assert_eq!(out[i].is_dir, members[i].is_dir);
        assert_eq!(out[i].compression, members[i].compression);
    }
}

#[test]
fn a_rewritten_archive_reads_back_with_the_same_members() {
    let (after, count) = transform_document(&docx(), "Kurulum", "Setup").unwrap();
    assert_eq!(count, 1);
    let before = read_archive(&docx()).unwrap();
    let back = read_archive(&after).unwrap();
    assert_eq!(back.len(), before.len());
    for (a, b) in back.iter().zip(before.iter()) {
        assert_eq!(a.name, b.name);
        assert_eq!(a.compression, b.compression);
    }
    assert_eq!(back[3].data, PNG_BYTES.to_vec());
}

#[test]
fn extracting_a_document_gives_its_text_members_and_pictures() {
    let (text, members, media) = extract_text(&docx()).unwrap();
    assert!(text.starts_with("Kurulum Notu\n"), "{text}");
    assert_eq!(members.len(), 4);
    assert_eq!(members[media[0]].name, "word/media/image1.png");
    assert_eq!(members[media[0]].data, PNG_BYTES.to_vec());
    assert_eq!(extract_text(b"not a zip").unwrap_err(), DocumentError::NotAnArchive);
}

fn file(name: &str, compression: u16, data: &[u8]) -> ArchiveMember {
    ArchiveMember {
        name: name.to_string(),
        is_dir: false,
        compression,
        data: data.to_vec(),
        readable: true,
    }
}

#[test]
fn a_built_archive_reads_back_as_its_members_were_written() {
    let members = vec![
        ArchiveMember {
            name: "word".to_string(),
            is_dir: true,
            compression: 8,
            data: vec![],
            readable: true,
        },
        file("word/document.xml", 8, b"<w:t>x</w:t>"),
        file("word/media/a.png", 0, &PNG_BYTES),
    ];
    let bytes = build_archive(&members).unwrap();
    let back = read_archive(&bytes).unwrap();
    assert_eq!(back.len(), 3);
    assert_eq!((back[0].name.as_str(), back[0].is_dir, back[0].compression), ("word/", true, 0));
    assert!(back[0].data.is_empty());
    for i in 1..3 {
        assert_eq!(back[i].name, members[i].name);
        assert!(!back[i].is_dir);
        assert_eq!(back[i].compression, members[i].compression);
        assert_eq!(back[i].data, members[i].data);
        assert!(back[i].readable);
    }
}

#[test]
fn a_name_used_twice_cannot_be_written() {
    let members = vec![file("a.xml", 0, b"1"), file("a.xml", 0, b"2")];
    assert!(build_archive(&members).is_err());
}

/// An archive whose stored member `word/theme.bin` fails its checksum.
fn damaged() -> Vec<u8> {
    let mut zip = zip::ZipWriter::new(Cursor::new(Vec::new()));
    let stored = zip::write::SimpleFileOptions::default()
        .compression_method(zip::CompressionMethod::Stored);
    zip.start_file("word/document.xml", stored).unwrap();
    zip.write_all(b"<w:t>Kurulum Notu</w:t>").unwrap();
    zip.start_file("word/theme.bin", stored).unwrap();
    zip.write_all(b"QQQQQQQQQQQQ").unwrap();
    let mut bytes = zip.finish().unwrap().into_inner();
    let at = bytes.windows(12).position(|w| w == b"QQQQQQQQQQQQ").unwrap();
    bytes[at] = b'R';
    bytes
}

#[test]
fn an_unreadable_member_is_skipped_when_reading_and_refused_when_rewriting() {
    let bytes = damaged();
    let members = read_archive(&bytes).unwrap();
    assert!(members[0].readable);
    assert!(!members[1].readable);
    let (text, _, _) = extract_text(&bytes).unwrap();
    assert_eq!(text, "Kurulum Notu\n");
    assert_eq!(
        transform_document(&bytes, "Kurulum", "Setup").unwrap_err(),
        DocumentError::Unreadable("word/theme.bin".to_string())
    );
    let err = server()
        .edit_document("k.docx", &bytes, "Kurulum", "Setup")
        .unwrap_err();
    assert_eq!(err.message(), "k.docx: the member word/theme.bin could not be read");
}
