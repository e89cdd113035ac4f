use anonym_mcp::detectors::{Kind, Settings};
use anonym_mcp::protocol::{answer, route, Answer, Route};
use anonym_mcp::store::MappingStore;
use anonym_mcp::tools::{
    advertised_tools, check_size, check_target, edited_document_message, edited_message,
    refuse_one_way, written_message, Server, Tool, ToolError, MAX_TEXT_BYTES,
};

fn server(roots: Vec<String>) -> Server {
    Server::new(MappingStore::ephemeral(), Settings::default(), roots, false)
}

fn revealing_server() -> Server {
    Server::new(MappingStore::ephemeral(), Settings::default(), vec![], true)
}

fn body(masked: &str) -> String {
    masked.split("\n\n(").next().unwrap().to_string()
}

#[test]
fn read_masks_every_detector_kind_with_nothing_left_behind() {
    let text = "tckn: 10000000146\n\
         gecersiz_tckn: 12345678901\n\
         kart: 4111 1111 1111 1111\n\
         iban: TR33 0006 1005 9786 4578 4132 26\n\
         eposta: a.b@example.com\n\
         telefon: 0532 123 45 67\n\
         sifre: password: Gtts@2020\n\
         firma: Acme Holding\n";
    let mut srv = Server::new(
        MappingStore::ephemeral(),
        Settings {
            custom_words: vec!["Acme Holding".to_string()],
            ..Settings::default()
        },
        vec![],
        false,
    );
    let out = srv.mask_document(text);

    for secret in [
        "10000000146",
        "4111 1111 1111 1111",
        "TR33 0006 1005 9786 4578 4132 26",
        "a.b@example.com",
        "0532 123 45 67",
        "Gtts@2020",
        "Acme Holding",
    ] {
        assert!(!out.contains(secret), "`{secret}` survived masking: {out}");
    }
    for placeholder in [
        "TCKN_", "KART_", "IBAN_", "EPOSTA_", "TEL_", "SIFRE_", "OZEL_",
    ] {
        assert!(out.contains(placeholder), "missing {placeholder}: {out}");
    }
    assert!(out.contains("12345678901"), "{out}");
}

#[test]
fn a_full_round_trip_reproduces_the_original_file_exactly() {
    let original = "tckn: 10000000146\niban: TR33 0006 1005 9786 4578 4132 26\n\
                    eposta: a.b@example.com\nsade: hassas bir sey yok\n";
    let mut srv = server(vec![]);
    let masked = srv.mask_document(original);
    let (written, _) = srv.restore_for_write("out.txt", &body(&masked)).unwrap();
    assert_eq!(written.trim_end(), original.trim_end());
}

#[test]
fn read_returns_masked_content_and_never_the_real_value() {
    let mut srv = server(vec![]);
    let out = srv.mask_document("ad,tckn\nAli,10000000146\n");
    assert!(!out.contains("10000000146"), "{out}");
    assert!(out.contains("TCKN_1"), "{out}");
    assert!(out.contains("safe to quote"), "{out}");
}

#[test]
fn write_restores_placeholders_to_real_values_on_disk() {
    let mut srv = server(vec![]);
    let masked = srv.mask_document("ad,tckn\nAli,10000000146\n");
    let edited = body(&masked).replace("Ali", "Ali Veli");
    let (on_disk, restored) = srv.restore_for_write("out.csv", &edited).unwrap();
    let report = written_message("out.csv", on_disk.len(), restored);
    assert!(on_disk.contains("10000000146"), "{on_disk}");
    assert!(on_disk.contains("Ali Veli"), "{on_disk}");
    assert!(!on_disk.contains("TCKN_"), "{on_disk}");
    assert!(report.contains("1 placeholder restored"), "{report}");
}

#[test]
fn edit_matches_a_masked_old_string_against_the_real_file() {
    let mut srv = server(vec![]);
    let content = "ad,tckn\nAli,10000000146\n";
    srv.mask_document(content);
    let (updated, _) = srv
        .edit_text("kayit.csv", content, "Ali,TCKN_1", "Ali Veli,TCKN_1")
        .unwrap();
    assert_eq!(updated, "ad,tckn\nAli Veli,10000000146\n");
}

#[test]
fn edit_refuses_an_ambiguous_match_instead_of_guessing() {
    let srv = server(vec![]);
    let err = srv
        .edit_text("f.txt", "satır\nsatır\n", "satır", "yeni")
        .unwrap_err();
    assert!(err.message().contains("2 times"), "{}", err.message());
}

#[test]
fn restoring_to_a_device_path_is_refused() {
    let mut srv = server(vec![]);
    let placeholder = {
        let out = srv.mask_snippet("10000000146");
        assert_eq!(out, "TCKN_1\n\n(1 masked: 1 TCKN)");
        "TCKN_1".to_string()
    };
    for device in ["/dev/stdout", "/dev/stderr", "/dev/fd/1"] {
        let err = check_target(device, false, device, srv.roots()).unwrap_err();
        let rendered = err.message();
        assert!(
            !rendered.contains("10000000146"),
            "the refusal must not itself leak: {rendered}"
        );
        assert!(rendered.contains("device"), "{rendered}");
    }
    assert_eq!(placeholder, "TCKN_1");
}

#[test]
fn editing_a_device_path_is_refused_too() {
    assert!(
        check_target("/dev/stdout", false, "/dev/stdout", &vec![]).is_err(),
        "every write path must share the guard"
    );
}

#[test]
fn special_files_are_refused_before_anything_else() {
    let err = check_target("/tmp/pipe", true, "/tmp/pipe", &vec![]).unwrap_err();
    assert_eq!(err, ToolError::NotRegularFile("/tmp/pipe".to_string()));
    assert!(err.message().contains("not a regular file"));
    assert!(check_target("/proc/self/fd/1", false, "/proc/self/fd/1", &vec![]).is_err());
}

#[test]
fn paths_outside_the_allowed_roots_are_refused() {
    let roots = vec!["/data/allowed".to_string()];
    let err = check_target("/data/other/secret.txt", false, "/data/other/secret.txt", &roots).unwrap_err();
    assert!(
        err.message().contains("outside the allowed roots"),
        "{}",
        err.message()
    );
    assert!(check_target("/data/allowed/a.txt", false, "/data/allowed/a.txt", &roots).is_ok());
    assert!(check_target("/data/allowed_not/a.txt", false, "/data/allowed_not/a.txt", &roots).is_err());
}

#[test]
fn a_traversal_path_cannot_escape_an_allowed_root() {
    let roots = vec!["/data/allowed".to_string()];
    // The caller hands over the canonical form, with `..` resolved.
    assert!(
        check_target("/data/allowed/../../etc/hosts", false, "/etc/hosts", &roots).is_err(),
        "`..` must not walk out of an allowed root"
    );
}

#[test]
fn restore_snippet_reports_when_it_knows_nothing() {
    let srv = revealing_server();
    let out = srv.reveal_values("TCKN_9999").unwrap();
    assert!(out.contains("no known placeholders"), "{out}");
}

#[test]
fn revealing_a_value_into_the_conversation_is_refused_by_default() {
    let mut srv = server(vec![]);
    let masked = srv.mask_snippet("10000000146");
    let placeholder = body(&masked);
    let err = srv.reveal_values(&placeholder).unwrap_err();
    let message = err.message();
    assert!(message.contains("disabled"), "{message}");
    assert!(
        !message.contains("10000000146"),
        "the refusal must not leak the value it refused: {message}"
    );
}

#[test]
fn revealing_works_once_enabled() {
    let mut srv = revealing_server();
    srv.mask_snippet("tckn 10000000146");
    assert_eq!(srv.reveal_values("x TCKN_1 y").unwrap(), "x 10000000146 y");
}

#[test]
fn the_reveal_tool_is_hidden_unless_it_is_enabled() {
    let names = |allow| {
        advertised_tools(allow)
            .iter()
            .map(|t| t.name().to_string())
            .collect::<Vec<_>>()
    };
    assert!(!names(false).contains(&"restore_text".to_string()));
    assert!(names(true).contains(&"restore_text".to_string()));
}

#[test]
fn masking_still_works_with_the_reveal_tool_disabled() {
    let mut srv = server(vec![]);
    let out = srv.mask_snippet("tckn 10000000146");
    assert!(out.contains("TCKN_1"), "{out}");
}

#[test]
fn dispatch_rejects_an_unknown_tool() {
    assert_eq!(Tool::from_name("delete_everything"), None);
    let err = ToolError::UnknownTool("delete_everything".to_string());
    assert!(err.message().contains("unknown tool"), "{}", err.message());
}

#[test]
fn missing_arguments_are_reported_not_defaulted() {
    let err = ToolError::MissingArgument("path".to_string());
    assert!(err.message().contains("`path`"), "{}", err.message());
}

#[test]
fn tool_definitions_expose_every_dispatchable_tool() {
    let names: Vec<&str> = advertised_tools(true).iter().map(|t| t.name()).collect();
    assert_eq!(
        names,
        vec![
            "read_anonymized",
            "write_restored",
            "edit_restored",
            "anonymize_text",
            "restore_text"
        ]
    );
    for t in advertised_tools(true) {
        assert_eq!(Tool::from_name(t.name()), Some(t));
        assert!(!t.arguments().is_empty(), "{t:?}");
        assert!(t.description().len() > 40, "{t:?}");
    }
    assert_eq!(
        Tool::EditRestored.arguments(),
        vec!["path", "old_string", "new_string"]
    );
}

#[test]
fn tools_list_returns_the_full_set() {
    assert_eq!(advertised_tools(false).len(), 4);
}

#[test]
fn an_unknown_method_is_a_protocol_error() {
    assert_eq!(route("resources/list"), Route::Unknown);
    assert_eq!(route("initialize"), Route::Initialize);
    assert_eq!(route("tools/list"), Route::ListTools);
    assert_eq!(route("tools/call"), Route::CallTool);
    assert_eq!(route("ping"), Route::Ping);
}

#[test]
fn ooxml_whole_file_writes_are_refused_with_a_usable_reason() {
    let srv = server(vec![]);
    let err = srv.restore_for_write("k.docx", "plain text").unwrap_err();
    assert!(err.message().contains("use edit_restored"), "{}", err.message());
}

#[test]
fn reports_name_counts_with_the_right_plural() {
    assert_eq!(
        written_message("/a/b.txt", 7, 1),
        "Wrote /a/b.txt (7 bytes, 1 placeholder restored to real values)"
    );
    assert_eq!(edited_message("/a", 2), "Edited /a (1 replacement, 2 placeholders restored)");
    assert_eq!(
        edited_document_message("/k.docx", 1, 0),
        "Edited /k.docx (1 replacement in the document text, 0 placeholders restored; formatting preserved)"
    );
}

#[test]
fn a_clean_read_says_nothing_was_found() {
    let mut srv = server(vec![]);
    assert_eq!(
        srv.mask_document("burada hassas veri yok"),
        "burada hassas veri yok\n\n(no sensitive values found)"
    );
    assert_eq!(srv.mask_snippet("yok"), "yok");
    let _ = Kind::Email;
}

#[test]
fn pixel_formats_refuse_edits_with_a_reason_an_agent_can_act_on() {
    let srv = server(vec![]);
    let err = srv.edit_text("/tmp/shot.png", "", "a", "b").unwrap_err();
    assert_eq!(err, ToolError::ImageTarget("/tmp/shot.png".to_string()));
    let message = err.message();
    assert!(message.contains("image"), "{message}");
    assert!(
        message.contains("pixels") && message.contains("one-way"),
        "the refusal must explain why, not just refuse: {message}"
    );
    assert!(
        !message.contains("valid UTF-8"),
        "the old opaque error must not come back: {message}"
    );
}

#[test]
fn pixel_formats_refuse_whole_file_writes_too() {
    let srv = server(vec![]);
    let err = srv.restore_for_write("/tmp/report.pdf", "plain text").unwrap_err();
    assert_eq!(err, ToolError::PdfTarget("/tmp/report.pdf".to_string()));
    let message = err.message();
    assert!(message.contains("PDF"), "{message}");
    assert!(message.contains("layout"), "{message}");
    let err = srv.restore_for_write("/tmp/SHOT.JPEG", "plain text").unwrap_err();
    assert_eq!(err, ToolError::ImageTarget("/tmp/SHOT.JPEG".to_string()));
}

#[test]
fn editing_a_pdf_is_refused_before_its_content_is_looked_at() {
    let srv = server(vec![]);
    let err = srv.edit_text("scan.PDF", "a", "a", "b").unwrap_err();
    assert_eq!(err, ToolError::PdfTarget("scan.PDF".to_string()));
    assert_eq!(refuse_one_way("notes.txt"), Ok(()));
    assert_eq!(refuse_one_way("report.docx"), Ok(()));
    assert_eq!(
        refuse_one_way("a.heic"),
        Err(ToolError::ImageTarget("a.heic".to_string()))
    );
}

#[test]
fn plain_text_files_above_256_kb_are_not_handled() {
    assert_eq!(MAX_TEXT_BYTES, 262144);
    assert_eq!(check_size("big.txt", 262144), Ok(()));
    let err = check_size("big.txt", 262145).unwrap_err();
    assert_eq!(err, ToolError::TooLarge("big.txt".to_string()));
    assert_eq!(
        err.message(),
        "big.txt is larger than 256 KB; files above 256 KB are not handled"
    );
    assert_eq!(check_size("notes", 1 << 30), Err(ToolError::TooLarge("notes".to_string())));
    assert_eq!(check_size("big.docx", 1 << 30), Ok(()));
    assert_eq!(check_size("big.pdf", 1 << 30), Ok(()));
    assert_eq!(
        check_size("big.png", 262145),
        Err(ToolError::TooLarge("big.png".to_string()))
    );
    assert_eq!(check_size("small.png", 10), Ok(()));
}

#[test]
fn a_notification_gets_no_reply_whatever_its_method() {
    for r in [Route::Initialize, Route::ListTools, Route::CallTool, Route::Ping, Route::Unknown] {
        assert_eq!(answer(r, false, false), Answer::Silent);
        assert_eq!(answer(r, false, true), Answer::Silent);
    }
}

#[test]
fn an_unknown_method_with_an_id_is_method_not_found() {
    assert_eq!(answer(Route::Unknown, true, false), Answer::MethodNotFound);
    assert_eq!(route("resources/list"), Route::Unknown);
}

#[test]
fn a_tool_failure_is_a_result_flagged_as_an_error() {
    assert_eq!(answer(Route::CallTool, true, true), Answer::ToolFailure);
    assert_eq!(answer(Route::CallTool, true, false), Answer::Reply);
    assert_eq!(answer(Route::Initialize, true, false), Answer::Reply);
    assert_eq!(answer(Route::Ping, true, false), Answer::Reply);
}

#[test]
fn restoring_reports_only_known_placeholders() {
    let mut srv = server(vec![]);
    let masked = srv.mask_snippet("tckn 10000000146");
    assert!(masked.starts_with("tckn TCKN_1"), "{masked}");
    assert_eq!(
        srv.restore("TCKN_1 ve TCKN_9"),
        ("10000000146 ve TCKN_9".to_string(), 1)
    );
    assert_eq!(srv.restore("TCKN_9"), ("TCKN_9".to_string(), 0));
}
