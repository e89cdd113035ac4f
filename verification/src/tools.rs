//! The tools the server offers, and what each decides and answers. The
//! agent never touches a sensitive file itself: it asks the server, and
//! the server alone sees the real bytes. Reading and writing files is left
//! to the caller; this module masks what was read, restores what is to be
//! written, refuses what must not happen, and words every answer.

use vstd::prelude::*;
use vstd::string::*;

use crate::anonymize::{anonymize_text, assign_all, counts_of, masked, report_view, restore_text, restored};
use crate::anonymize::{placeholder_spans, spans_fit, summary_of};
use crate::archive::{
    all_parse, all_readable, as_written, build_archive, first_unreadable, members_view, read_archive,
    rewrite_members, rewritten_member, total_replacements, unreadable_file, zip_members_of, DocumentError,
    MemberView,
};
use crate::xml::XmlError;
use crate::detectors::{detected, words_view, Kind, Settings};
use crate::documents::{image_extension, is_image, is_ooxml, is_pdf, lower_extension, ooxml_extension};
use crate::edit::{occurrences, replace_once, replaced, EditRefusal};
use crate::store::MappingStore;
use crate::text::{chars_of, decimal, decimal_string, has_prefix, starts_with, str_equal};

verus! {

/// The tools of the server.
#[derive(Debug, Clone, Copy, PartialEq, Eq, Structural)]
pub enum Tool {
    /// Read a file with its sensitive values masked.
    ReadAnonymized,
    /// Write a file, turning placeholders back into real values.
    WriteRestored,
    /// Replace a string in a file; placeholders resolve on both sides.
    EditRestored,
    /// Mask a snippet of text.
    AnonymizeText,
    /// Reveal the real values behind placeholders in a snippet.
    RestoreText,
}

/// The name a tool is called by.
pub open spec fn tool_name(t: Tool) -> Seq<char> {
    match t {
        Tool::ReadAnonymized => "read_anonymized"@,
        Tool::WriteRestored => "write_restored"@,
        Tool::EditRestored => "edit_restored"@,
        Tool::AnonymizeText => "anonymize_text"@,
        Tool::RestoreText => "restore_text"@,
    }
}

/// The tool called `n`, if any.
pub open spec fn tool_named(n: Seq<char>) -> Option<Tool> {
    if n == "read_anonymized"@ {
        Some(Tool::ReadAnonymized)
    } else if n == "write_restored"@ {
        Some(Tool::WriteRestored)
    } else if n == "edit_restored"@ {
        Some(Tool::EditRestored)
    } else if n == "anonymize_text"@ {
        Some(Tool::AnonymizeText)
    } else if n == "restore_text"@ {
        Some(Tool::RestoreText)
    } else {
        None
    }
}

/// The arguments a tool requires, in order.
pub open spec fn tool_arguments(t: Tool) -> Seq<Seq<char>> {
    match t {
        Tool::ReadAnonymized => seq!["path"@],
        Tool::WriteRestored => seq!["path"@, "content"@],
        Tool::EditRestored => seq!["path"@, "old_string"@, "new_string"@],
        Tool::AnonymizeText => seq!["text"@],
        Tool::RestoreText => seq!["text"@],
    }
}

/// How a tool is described to the agent.
pub open spec fn tool_description(t: Tool) -> Seq<char> {
    match t {
        Tool::ReadAnonymized => "Read a file with sensitive values (national IDs, IBANs, card \
                numbers, e-mails, phone numbers, passwords) replaced by stable placeholders \
                such as TCKN_1. Use this instead of the ordinary file-reading tool for any \
                file that may contain personal or credential data. The real values never \
                leave the user's machine."@,
        Tool::WriteRestored => "Write a file, turning any placeholder (TCKN_1, IBAN_2, ...) back \
                into the real value first. Use this to save work based on read_anonymized \
                output; writing that text with an ordinary write tool would store the \
                placeholder and destroy the user's data."@,
        Tool::EditRestored => "Replace one occurrence of old_string with new_string in a file. \
                Both strings may contain placeholders: they are resolved before matching and \
                before writing, so an edit quoting masked text still finds the real line."@,
        Tool::AnonymizeText => "Mask sensitive values in a snippet of text, for example before \
                quoting it into a report or a commit message."@,
        Tool::RestoreText => "Resolve placeholders in a snippet back to their real values. \
                This puts sensitive data into the conversation, so prefer write_restored or \
                edit_restored, which restore straight to disk instead."@,
    }
}

/// The tools advertised to the agent: the reveal tool only when it is
/// enabled, since a tool the model can see is a tool it will reach for.
pub open spec fn advertised(allow_reveal: bool) -> Seq<Tool> {
    let base = seq![Tool::ReadAnonymized, Tool::WriteRestored, Tool::EditRestored, Tool::AnonymizeText];
    if allow_reveal {
        base.push(Tool::RestoreText)
    } else {
        base
    }
}

impl Tool {
    /// The name the tool is called by.
    pub fn name(self) -> (r: &'static str)
        ensures
            r@ == tool_name(self),
    {
        match self {
            Tool::ReadAnonymized => "read_anonymized",
            Tool::WriteRestored => "write_restored",
            Tool::EditRestored => "edit_restored",
            Tool::AnonymizeText => "anonymize_text",
            Tool::RestoreText => "restore_text",
        }
    }

    /// How the tool is described to the agent.
    pub fn description(self) -> (r: &'static str)
        ensures
            r@ == tool_description(self),
    {
        match self {
            Tool::ReadAnonymized => "Read a file with sensitive values (national IDs, IBANs, card \
                numbers, e-mails, phone numbers, passwords) replaced by stable placeholders \
                such as TCKN_1. Use this instead of the ordinary file-reading tool for any \
                file that may contain personal or credential data. The real values never \
                leave the user's machine.",
            Tool::WriteRestored => "Write a file, turning any placeholder (TCKN_1, IBAN_2, ...) back \
                into the real value first. Use this to save work based on read_anonymized \
                output; writing that text with an ordinary write tool would store the \
                placeholder and destroy the user's data.",
            Tool::EditRestored => "Replace one occurrence of old_string with new_string in a file. \
                Both strings may contain placeholders: they are resolved before matching and \
                before writing, so an edit quoting masked text still finds the real line.",
            Tool::AnonymizeText => "Mask sensitive values in a snippet of text, for example before \
                quoting it into a report or a commit message.",
            Tool::RestoreText => "Resolve placeholders in a snippet back to their real values. \
                This puts sensitive data into the conversation, so prefer write_restored or \
                edit_restored, which restore straight to disk instead.",
        }
    }

    /// The arguments the tool requires, in order.
    pub fn arguments(self) -> (r: Vec<&'static str>)
        ensures
            r@.map_values(|a: &'static str| a@) == tool_arguments(self),
    {
        let r = match self {
            Tool::ReadAnonymized => vec!["path"],
            Tool::WriteRestored => vec!["path", "content"],
            Tool::EditRestored => vec!["path", "old_string", "new_string"],
            Tool::AnonymizeText => vec!["text"],
            Tool::RestoreText => vec!["text"],
        };
        assert(r@.map_values(|a: &'static str| a@) =~= tool_arguments(self));
        r
    }

    /// The tool called `name`, if there is one.
    pub fn from_name(name: &str) -> (r: Option<Tool>)
        ensures
            r == tool_named(name@),
    {
        if str_equal(name, "read_anonymized") {
            Some(Tool::ReadAnonymized)
        } else if str_equal(name, "write_restored") {
            Some(Tool::WriteRestored)
        } else if str_equal(name, "edit_restored") {
            Some(Tool::EditRestored)
        } else if str_equal(name, "anonymize_text") {
            Some(Tool::AnonymizeText)
        } else if str_equal(name, "restore_text") {
            Some(Tool::RestoreText)
        } else {
            None
        }
    }
}

/// The tools to list for the agent, in order.
pub fn advertised_tools(allow_reveal: bool) -> (r: Vec<Tool>)
    ensures
        r@ == advertised(allow_reveal),
{
    let mut r = vec![Tool::ReadAnonymized, Tool::WriteRestored, Tool::EditRestored, Tool::AnonymizeText];
    if allow_reveal {
        r.push(Tool::RestoreText);
    }
    assert(r@ =~= advertised(allow_reveal));
    r
}

/// Every advertised tool can be called by the name it is listed under, and
/// the reveal tool is listed exactly when it is enabled.
pub proof fn law_advertised_tools_are_dispatchable(allow_reveal: bool)
    ensures
        forall|i: int|
            0 <= i < advertised(allow_reveal).len() ==> tool_named(tool_name(#[trigger] advertised(allow_reveal)[i]))
                == Some(advertised(allow_reveal)[i]),
        advertised(allow_reveal).contains(Tool::RestoreText) <==> allow_reveal,
{
    reveal_strlit("read_anonymized");
    reveal_strlit("write_restored");
    reveal_strlit("edit_restored");
    reveal_strlit("anonymize_text");
    reveal_strlit("restore_text");
    let a = advertised(allow_reveal);
    assert forall|i: int| 0 <= i < a.len() implies tool_named(tool_name(#[trigger] a[i])) == Some(a[i]) by {
        let t = a[i];
        match t {
            Tool::ReadAnonymized => {},
            Tool::WriteRestored => {
                assert("write_restored"@[0] != "read_anonymized"@[0]);
            },
            Tool::EditRestored => {
                assert("edit_restored"@[0] != "read_anonymized"@[0]);
                assert("edit_restored"@[0] != "write_restored"@[0]);
            },
            Tool::AnonymizeText => {
                assert("anonymize_text"@[0] != "read_anonymized"@[0]);
                assert("anonymize_text"@[0] != "write_restored"@[0]);
                assert("anonymize_text"@[0] != "edit_restored"@[0]);
            },
            Tool::RestoreText => {
                assert("restore_text"@[2] != "read_anonymized"@[2]);
                assert("restore_text"@[0] != "write_restored"@[0]);
                assert("restore_text"@[0] != "edit_restored"@[0]);
                assert("restore_text"@[0] != "anonymize_text"@[0]);
            },
        }
    }
    if allow_reveal {
        assert(a[4] == Tool::RestoreText);
    } else {
        assert forall|i: int| 0 <= i < a.len() implies a[i] != Tool::RestoreText by {}
    }
}

/// Why a tool refused or failed.
#[derive(Debug, Clone, PartialEq, Eq)]
pub enum ToolError {
    /// A required argument was not given.
    MissingArgument(String),
    /// No tool has this name.
    UnknownTool(String),
    /// The path lies outside every allowed root.
    OutsideRoots(String),
    /// The path exists and is neither a regular file nor a directory.
    NotRegularFile(String),
    /// The path lies under `/dev/` or `/proc/`.
    DevicePath(String),
    /// A whole-file write was asked of an OOXML document.
    OoxmlWrite(String),
    /// A write or an edit was asked of an image, whose words are pixels.
    ImageTarget(String),
    /// A write or an edit was asked of a PDF, whose words are bound to a
    /// layout.
    PdfTarget(String),
    /// A plain-text file is larger than the server handles.
    TooLarge(String),
    /// The text to replace does not occur in the file.
    NotFound(String),
    /// The text to replace occurs this many times in the file.
    Ambiguous(usize, String),
    /// The text to replace occurs in no text node of the document.
    NotFoundInDocument(String),
    /// The document at this path could not be read or rewritten.
    Document(String, DocumentError),
    /// Revealing values into the conversation is switched off.
    RevealDisabled,
}

/// `""` for one, `"s"` otherwise.
pub open spec fn plural(n: nat) -> Seq<char> {
    if n == 1 {
        ""@
    } else {
        "s"@
    }
}

fn plural_str(n: usize) -> (r: &'static str)
    ensures
        r@ == plural(n as nat),
{
    if n == 1 {
        ""
    } else {
        "s"
    }
}

impl ToolError {
    /// The message an error is reported with.
    pub open spec fn text(&self) -> Seq<char> {
        match self {
            ToolError::MissingArgument(k) => "missing required argument `"@ + k@ + "`"@,
            ToolError::UnknownTool(n) => "unknown tool: "@ + n@,
            ToolError::OutsideRoots(p) => "path "@ + p@ + " is outside the allowed roots"@,
            ToolError::NotRegularFile(p) => p@ + " is not a regular file; writing restored values to a device would \
                 put them straight into the conversation"@,
            ToolError::DevicePath(p) => p@ + " is a device path; restored values must go to a real file"@,
            ToolError::OoxmlWrite(p) => p@ + " is an OOXML document; use edit_restored to change its text, \
                 which rewrites the document in place and preserves formatting"@,
            ToolError::ImageTarget(p) => p@ + " is an image: its words are pixels, so masking it is one-way and \
                 there is no text to put the real values back into"@,
            ToolError::PdfTarget(p) => p@ + " is a PDF: its words are bound to a layout, so masking it is one-way \
                 and writing plain text over it would replace the document; write the text to a new file instead"@,
            ToolError::TooLarge(p) => p@ + " is larger than 256 KB; files above 256 KB are not handled"@,
            ToolError::NotFound(p) => "old_string not found in "@ + p@,
            ToolError::Ambiguous(n, p) => "old_string found "@ + decimal(*n as nat) + " times in "@ + p@
                + "; add more context"@,
            ToolError::NotFoundInDocument(p) => "old_string not found in the text of "@ + p@ + ". Note that Word splits \
             text across runs, so a phrase spanning a formatting change cannot \
             be matched as one string; try a shorter fragment"@,
            ToolError::Document(p, e) => match e {
                DocumentError::NotAnArchive => p@ + " is not a valid OOXML archive"@,
                DocumentError::Unreadable(m) => p@ + ": the member "@ + m@ + " could not be read"@,
                DocumentError::Xml(XmlError::Malformed(m)) => m@,
                DocumentError::Xml(XmlError::TooLarge) => "more replacements than can be counted"@,
                DocumentError::Unwritable(m) => m@,
            },
            ToolError::RevealDisabled => "restore_text is disabled: revealing real values into the conversation \
                 defeats the purpose of masking. Use write_restored or edit_restored to \
                 put values back on disk instead. The operator can enable this tool with \
                 ANONYM_ALLOW_REVEAL=1."@,
        }
    }

    /// The message this error is reported with.
    pub fn message(&self) -> (r: String)
        ensures
            r@ == self.text(),
    {
        match self {
            ToolError::MissingArgument(k) => String::from_str("missing required argument `").concat(k.as_str()).concat(
                "`",
            ),
            ToolError::UnknownTool(n) => String::from_str("unknown tool: ").concat(n.as_str()),
            ToolError::OutsideRoots(p) => String::from_str("path ").concat(p.as_str()).concat(
                " is outside the allowed roots",
            ),
            ToolError::NotRegularFile(p) => String::from_str(p.as_str()).concat(
                " is not a regular file; writing restored values to a device would \
                 put them straight into the conversation",
            ),
            ToolError::DevicePath(p) => String::from_str(p.as_str()).concat(
                " is a device path; restored values must go to a real file",
            ),
            ToolError::OoxmlWrite(p) => String::from_str(p.as_str()).concat(
                " is an OOXML document; use edit_restored to change its text, \
                 which rewrites the document in place and preserves formatting",
            ),
            ToolError::ImageTarget(p) => String::from_str(p.as_str()).concat(
                " is an image: its words are pixels, so masking it is one-way and \
                 there is no text to put the real values back into",
            ),
            ToolError::PdfTarget(p) => String::from_str(p.as_str()).concat(
                " is a PDF: its words are bound to a layout, so masking it is one-way \
                 and writing plain text over it would replace the document; write the text to a new file instead",
            ),
            ToolError::TooLarge(p) => String::from_str(p.as_str()).concat(
                " is larger than 256 KB; files above 256 KB are not handled",
            ),
            ToolError::NotFound(p) => String::from_str("old_string not found in ").concat(p.as_str()),
            ToolError::Ambiguous(n, p) => {
                let d = decimal_string(*n);
                String::from_str("old_string found ").concat(d.as_str()).concat(" times in ").concat(
                    p.as_str(),
                ).concat("; add more context")
            },
            ToolError::NotFoundInDocument(p) => String::from_str("old_string not found in the text of ").concat(
                p.as_str(),
            ).concat(
                ". Note that Word splits \
             text across runs, so a phrase spanning a formatting change cannot \
             be matched as one string; try a shorter fragment",
            ),
            ToolError::Document(p, e) => match e {
                DocumentError::NotAnArchive => String::from_str(p.as_str()).concat(" is not a valid OOXML archive"),
                DocumentError::Unreadable(m) => String::from_str(p.as_str()).concat(": the member ").concat(
                    m.as_str(),
                ).concat(" could not be read"),
                DocumentError::Xml(XmlError::Malformed(m)) => String::from_str(m.as_str()),
                DocumentError::Xml(XmlError::TooLarge) => String::from_str("more replacements than can be counted"),
                DocumentError::Unwritable(m) => String::from_str(m.as_str()),
            },
            ToolError::RevealDisabled => String::from_str(
                "restore_text is disabled: revealing real values into the conversation \
                 defeats the purpose of masking. Use write_restored or edit_restored to \
                 put values back on disk instead. The operator can enable this tool with \
                 ANONYM_ALLOW_REVEAL=1.",
            ),
        }
    }
}

/// A path under `/dev/` or `/proc/`: even where such an entry looks like a
/// regular file, it may lead back to a channel the agent can observe.
pub open spec fn device_path(p: Seq<char>) -> bool {
    starts_with(p, "/dev/"@) || starts_with(p, "/proc/"@)
}

/// Whether `std::path::Path::starts_with` holds of `path` and `base`.
pub uninterp spec fn path_starts_with_of(path: Seq<char>, base: Seq<char>) -> bool;

/// `std::path::Path::starts_with`: whether `base` is a prefix of `path`
/// in whole components. Only the result's name is stated.
#[verifier::external_body]
fn path_starts_with(path: &str, base: &str) -> (r: bool)
    ensures
        r == path_starts_with_of(path@, base@),
{
    std::path::Path::new(path).starts_with(base)
}

/// Whether the path `probe` lies under one of `roots`.
pub open spec fn within_roots(probe: Seq<char>, roots: Seq<Seq<char>>) -> bool {
    exists|i: int| 0 <= i < roots.len() && path_starts_with_of(probe, #[trigger] roots[i])
}

/// Whether the server may touch the file at `resolved`: not a device or
/// other special file (`special_file`: it exists and is neither a regular
/// file nor a directory), not under `/dev/` or `/proc/`, and, when roots
/// are configured, with its canonical form `probe` under one of the
/// canonical `roots`. Without this the agent could have real values
/// restored into any file on the machine, or straight into the
/// conversation through a device.
pub fn check_target(resolved: &str, special_file: bool, probe: &str, roots: &Vec<String>) -> (r: Result<(), ToolError>)
    ensures
        match r {
            Ok(()) => !special_file && !device_path(resolved@) && (roots@.len() == 0 || within_roots(
                probe@,
                words_view(roots@),
            )),
            Err(ToolError::NotRegularFile(p)) => special_file && p@ == resolved@,
            Err(ToolError::DevicePath(p)) => !special_file && device_path(resolved@) && p@ == resolved@,
            Err(ToolError::OutsideRoots(p)) => !special_file && !device_path(resolved@) && roots@.len() > 0
                && !within_roots(probe@, words_view(roots@)) && p@ == resolved@,
            Err(_) => false,
        },
{
    if special_file {
        return Err(ToolError::NotRegularFile(String::from_str(resolved)));
    }
    let cs = chars_of(resolved);
    if has_prefix(&cs, "/dev/") || has_prefix(&cs, "/proc/") {
        return Err(ToolError::DevicePath(String::from_str(resolved)));
    }
    if roots.len() == 0 {
        return Ok(());
    }
    let ghost rs = words_view(roots@);
    let mut i: usize = 0;
    while i < roots.len()
        invariant
            rs == words_view(roots@),
            !special_file,
            !device_path(resolved@),
            roots@.len() > 0,
            i <= roots@.len(),
            forall|j: int| 0 <= j < i ==> !path_starts_with_of(probe@, #[trigger] rs[j]),
        decreases roots@.len() - i,
    {
        if path_starts_with(probe, roots[i].as_str()) {
            assert(rs[i as int] == roots@[i as int]@);
            assert(path_starts_with_of(probe@, rs[i as int]));
            assert(within_roots(probe@, rs));
            return Ok(());
        }
        i = i + 1;
    }
    Err(ToolError::OutsideRoots(String::from_str(resolved)))
}

/// Whether `path` names an image file, by extension in any ASCII case.
pub open spec fn image_path(path: Seq<char>) -> bool {
    lower_extension(path) matches Some(e) && image_extension(e)
}

/// Whether `path` names a PDF, by extension in any ASCII case.
pub open spec fn pdf_path(path: Seq<char>) -> bool {
    lower_extension(path) == Some("pdf"@)
}

/// Whether `path` is read as plain text: neither an OOXML document, nor a
/// PDF, nor an image.
pub open spec fn plain_text_path(path: Seq<char>) -> bool {
    !(lower_extension(path) matches Some(e) && ooxml_extension(e)) && !pdf_path(path) && !image_path(path)
}

/// Refuses to put real values back into an image or a PDF. Masking those is
/// one-way: an image's words are pixels and a PDF's are bound to a layout,
/// so there is nothing to substitute a placeholder back into.
pub fn refuse_one_way(path: &str) -> (r: Result<(), ToolError>)
    ensures
        match r {
            Ok(()) => !image_path(path@) && !pdf_path(path@),
            Err(ToolError::ImageTarget(p)) => image_path(path@) && p@ == path@,
            Err(ToolError::PdfTarget(p)) => !image_path(path@) && pdf_path(path@) && p@ == path@,
            Err(_) => false,
        },
{
    if is_image(path) {
        return Err(ToolError::ImageTarget(String::from_str(path)));
    }
    if is_pdf(path) {
        return Err(ToolError::PdfTarget(String::from_str(path)));
    }
    Ok(())
}

/// The largest plain-text file the server reads, in bytes: 256 KB.
pub const MAX_TEXT_BYTES: u64 = 262144;

/// Whether a file is read through a format of its own rather than as
/// text: an OOXML document or a PDF.
pub open spec fn document_path(path: Seq<char>) -> bool {
    (lower_extension(path) matches Some(e) && ooxml_extension(e)) || pdf_path(path)
}

/// Whether a file at `path` of `len` bytes may be read: a file read as
/// text (whatever its name, an image's too) above [`MAX_TEXT_BYTES`] is
/// refused before it is read. OOXML documents and PDFs are read through
/// their own formats and are not held to it.
pub fn check_size(path: &str, len: u64) -> (r: Result<(), ToolError>)
    ensures
        match r {
            Ok(()) => len <= MAX_TEXT_BYTES || document_path(path@),
            Err(ToolError::TooLarge(p)) => len > MAX_TEXT_BYTES && !document_path(path@) && p@ == path@,
            Err(_) => false,
        },
{
    if len > MAX_TEXT_BYTES && !is_ooxml(path) && !is_pdf(path) {
        return Err(ToolError::TooLarge(String::from_str(path)));
    }
    Ok(())
}

/// What masking a read adds after the text: that nothing was found, or how
/// many values were masked, by kind, and how the placeholders go back.
pub open spec fn read_note(rep: Seq<(Seq<char>, Kind)>) -> Seq<char> {
    if rep.len() == 0 {
        "\n\n(no sensitive values found)"@
    } else {
        "\n\n("@ + decimal(rep.len()) + " masked: "@ + summary_of(rep)
            + ". These placeholders are safe to quote and write \
                 back unchanged; write_restored turns them into the real values.)"@
    }
}

/// What masking a snippet answers: the masked text, followed, when
/// something was masked, by how many values were, by kind.
pub open spec fn snippet_answer(text: Seq<char>, rep: Seq<(Seq<char>, Kind)>) -> Seq<char> {
    if rep.len() == 0 {
        text
    } else {
        text + "\n\n("@ + decimal(rep.len()) + " masked: "@ + summary_of(rep) + ")"@
    }
}

/// The report of a whole-file write.
pub open spec fn written_text(path: Seq<char>, bytes: nat, restored: nat) -> Seq<char> {
    "Wrote "@ + path + " ("@ + decimal(bytes) + " bytes, "@ + decimal(restored) + " placeholder"@ + plural(restored)
        + " restored to real values)"@
}

/// Reports a whole-file write: its path, its size in bytes, and how many
/// placeholders were restored.
pub fn written_message(path: &str, bytes: usize, restored: usize) -> (r: String)
    ensures
        r@ == written_text(path@, bytes as nat, restored as nat),
{
    let b = decimal_string(bytes);
    let n = decimal_string(restored);
    String::from_str("Wrote ").concat(path).concat(" (").concat(b.as_str()).concat(" bytes, ").concat(
        n.as_str(),
    ).concat(" placeholder").concat(plural_str(restored)).concat(" restored to real values)")
}

/// The report of an edit of a plain file.
pub open spec fn edited_text(path: Seq<char>, restored: nat) -> Seq<char> {
    "Edited "@ + path + " (1 replacement, "@ + decimal(restored) + " placeholder"@ + plural(restored) + " restored)"@
}

/// Reports an edit of a plain file: its path and how many placeholders of
/// the new text were restored.
pub fn edited_message(path: &str, restored: usize) -> (r: String)
    ensures
        r@ == edited_text(path@, restored as nat),
{
    let n = decimal_string(restored);
    String::from_str("Edited ").concat(path).concat(" (1 replacement, ").concat(n.as_str()).concat(
        " placeholder",
    ).concat(plural_str(restored)).concat(" restored)")
}

/// The report of an edit of an OOXML document.
pub open spec fn edited_document_text(path: Seq<char>, replacements: nat, restored: nat) -> Seq<char> {
    "Edited "@ + path + " ("@ + decimal(replacements) + " replacement"@ + plural(replacements)
        + " in the document text, "@ + decimal(restored) + " placeholder"@ + plural(restored)
        + " restored; formatting preserved)"@
}

/// Reports an edit of an OOXML document: its path, how many replacements
/// its text nodes took, and how many placeholders were restored.
pub fn edited_document_message(path: &str, replacements: usize, restored: usize) -> (r: String)
    ensures
        r@ == edited_document_text(path@, replacements as nat, restored as nat),
{
    let k = decimal_string(replacements);
    let n = decimal_string(restored);
    String::from_str("Edited ").concat(path).concat(" (").concat(k.as_str()).concat(" replacement").concat(
        plural_str(replacements),
    ).concat(" in the document text, ").concat(n.as_str()).concat(" placeholder").concat(
        plural_str(restored),
    ).concat(" restored; formatting preserved)")
}

/// Server state: the mapping table, the detector settings, the directories
/// the server may touch (none configured means anywhere), and whether the
/// reveal tool is offered.
pub struct Server {
    store: MappingStore,
    settings: Settings,
    roots: Vec<String>,
    allow_reveal: bool,
}

impl Server {
    /// The mapping table.
    pub closed spec fn table(&self) -> MappingStore {
        self.store
    }

    /// The detectors enabled.
    pub closed spec fn kinds(&self) -> Seq<Kind> {
        self.settings.enabled@
    }

    /// The extra word list.
    pub closed spec fn words(&self) -> Seq<Seq<char>> {
        words_view(self.settings.custom_words@)
    }

    /// The directories the server may touch.
    pub closed spec fn root_paths(&self) -> Seq<Seq<char>> {
        words_view(self.roots@)
    }

    /// Whether the reveal tool is offered.
    pub closed spec fn reveals(&self) -> bool {
        self.allow_reveal
    }

    /// A server over the given table, settings and roots. The reveal tool,
    /// which hands real values back into the conversation, is offered
    /// only with `allow_reveal`.
    pub fn new(store: MappingStore, settings: Settings, roots: Vec<String>, allow_reveal: bool) -> (s: Self)
        ensures
            s.table() == store,
            s.kinds() == settings.enabled@,
            s.words() == words_view(settings.custom_words@),
            s.root_paths() == words_view(roots@),
            s.reveals() == allow_reveal,
    {
        Server { store, settings, roots, allow_reveal }
    }

    /// Whether the reveal tool is offered.
    pub fn allow_reveal(&self) -> (r: bool)
        ensures
            r == self.reveals(),
    {
        self.allow_reveal
    }

    /// The mapping table.
    pub fn store(&self) -> (r: &MappingStore)
        ensures
            *r == self.table(),
    {
        &self.store
    }

    /// The directories the server may touch, as configured.
    pub fn roots(&self) -> (r: &Vec<String>)
        ensures
            words_view(r@) == self.root_paths(),
    {
        &self.roots
    }

    /// Record that the table has been written out.
    pub fn mark_saved(&mut self)
        requires
            old(self).table().wf(),
        ensures
            final(self).table().wf(),
            final(self).table().values() == old(self).table().values(),
            final(self).table().placeholders() == old(self).table().placeholders(),
            forall|k: Kind| #[trigger] final(self).table().counter(k) == old(self).table().counter(k),
            final(self).table().path_spec() == old(self).table().path_spec(),
            !final(self).table().is_dirty(),
            final(self).kinds() == old(self).kinds(),
            final(self).words() == old(self).words(),
            final(self).root_paths() == old(self).root_paths(),
            final(self).reveals() == old(self).reveals(),
    {
        self.store.mark_saved();
    }

    /// Whether a text of `bytes` bytes can be masked without a placeholder
    /// number running out.
    pub fn has_room(&self, bytes: usize) -> (r: bool)
        requires
            self.table().wf(),
        ensures
            r == forall|k: Kind| #[trigger] self.table().counter(k) + bytes + 1 < usize::MAX,
    {
        self.store.has_room(bytes)
    }

    /// Put the real values back into `text`.
    pub fn restore(&self, text: &str) -> (r: (String, usize))
        requires
            self.table().wf(),
        ensures
            r.0@ == restored(text@, self.table().values()).0,
            r.1 == restored(text@, self.table().values()).1,
            placeholder_spans(text@) matches Some(sp) ==> spans_fit(text.spec_bytes(), sp),
    {
        restore_text(text, &self.store)
    }

    /// `read_anonymized`, once the file's text is read: the text masked,
    /// followed by a note saying what was masked and that the placeholders
    /// go back through `write_restored`.
    pub fn mask_document(&mut self, raw: &str) -> (r: String)
        requires
            old(self).table().wf(),
            forall|k: Kind| #[trigger] old(self).table().counter(k) + raw.spec_bytes().len() + 1 < usize::MAX,
        ensures
            ({
                let m = masked(raw@, old(self).kinds(), old(self).words(), old(self).table());
                r@ == m.0 + read_note(m.1)
            }),
            final(self).table().wf(),
            ({
                let s = old(self).table();
                let after = assign_all(
                    s.placeholders(),
                    s.values(),
                    counts_of(s),
                    detected(raw@, old(self).kinds(), old(self).words()),
                );
                &&& final(self).table().placeholders() == after.0
                &&& final(self).table().values() == after.1
                &&& counts_of(final(self).table()) == after.2
                &&& final(self).table().is_dirty() == (s.is_dirty() || after.1 != s.values())
            }),
            final(self).table().path_spec() == old(self).table().path_spec(),
            final(self).kinds() == old(self).kinds(),
            final(self).words() == old(self).words(),
            final(self).root_paths() == old(self).root_paths(),
            final(self).reveals() == old(self).reveals(),
    {
        let (text, report) = anonymize_text(raw, &self.settings, &mut self.store);
        let ghost rep = report_view(report);
        if report.is_empty() {
            proof {
                reveal_strlit("\n\n(no sensitive values found)");
            }
            text.concat("\n\n(no sensitive values found)")
        } else {
            let n = decimal_string(report.count());
            let summary = report.summary();
            text.concat("\n\n(").concat(n.as_str()).concat(" masked: ").concat(summary.as_str()).concat(
                ". These placeholders are safe to quote and write \
                 back unchanged; write_restored turns them into the real values.)",
            )
        }
    }

    /// `anonymize_text`: a snippet the agent already holds, masked, with
    /// what was masked when anything was.
    pub fn mask_snippet(&mut self, text: &str) -> (r: String)
        requires
            old(self).table().wf(),
            forall|k: Kind| #[trigger] old(self).table().counter(k) + text.spec_bytes().len() + 1 < usize::MAX,
        ensures
            ({
                let m = masked(text@, old(self).kinds(), old(self).words(), old(self).table());
                r@ == snippet_answer(m.0, m.1)
            }),
            final(self).table().wf(),
            ({
                let s = old(self).table();
                let after = assign_all(
                    s.placeholders(),
                    s.values(),
                    counts_of(s),
                    detected(text@, old(self).kinds(), old(self).words()),
                );
                &&& final(self).table().placeholders() == after.0
                &&& final(self).table().values() == after.1
                &&& counts_of(final(self).table()) == after.2
                &&& final(self).table().is_dirty() == (s.is_dirty() || after.1 != s.values())
            }),
            final(self).table().path_spec() == old(self).table().path_spec(),
            final(self).kinds() == old(self).kinds(),
            final(self).words() == old(self).words(),
            final(self).root_paths() == old(self).root_paths(),
            final(self).reveals() == old(self).reveals(),
    {
        let (masked_text, report) = anonymize_text(text, &self.settings, &mut self.store);
        if report.is_empty() {
            masked_text
        } else {
            let n = decimal_string(report.count());
            let summary = report.summary();
            masked_text.concat("\n\n(").concat(n.as_str()).concat(" masked: ").concat(summary.as_str()).concat(
                ")",
            )
        }
    }

    /// `write_restored`, before the file is written: the content with its
    /// placeholders restored, and how many were. An OOXML document is
    /// refused: it is an archive, and writing text over it would replace
    /// the document with a text file. So are an image and a PDF, whose
    /// masking is one-way.
    pub fn restore_for_write(&self, path: &str, content: &str) -> (r: Result<(String, usize), ToolError>)
        requires
            self.table().wf(),
        ensures
            match r {
                Ok((t, n)) => plain_text_path(path@) && t@ == restored(content@, self.table().values()).0 && n
                    == restored(content@, self.table().values()).1,
                Err(ToolError::OoxmlWrite(p)) => (lower_extension(path@) matches Some(e) && ooxml_extension(e))
                    && p@ == path@,
                Err(ToolError::ImageTarget(p)) => image_path(path@) && p@ == path@,
                Err(ToolError::PdfTarget(p)) => pdf_path(path@) && p@ == path@,
                Err(_) => false,
            },
    {
        if is_ooxml(path) {
            return Err(ToolError::OoxmlWrite(String::from_str(path)));
        }
        refuse_one_way(path)?;
        Ok(restore_text(content, &self.store))
    }

    /// `edit_restored` on a plain file whose text is `content`: the
    /// placeholders of `old` and `new` are restored first, since the agent
    /// quotes `old` from text it only saw masked. Returns the edited text
    /// and how many placeholders of `new` were restored. An image or a PDF
    /// is refused (see [`refuse_one_way`]), and so is an `old` that does not
    /// occur, or occurs more than once; the count it reports stops at
    /// `usize::MAX`.
    pub fn edit_text(&self, path: &str, content: &str, old: &str, new: &str) -> (r: Result<
        (String, usize),
        ToolError,
    >)
        requires
            self.table().wf(),
        ensures
            ({
                let old_real = restored(old@, self.table().values()).0;
                let new_real = restored(new@, self.table().values());
                let occ = occurrences(content@, old_real);
                match r {
                    Ok((u, n)) => !image_path(path@) && !pdf_path(path@) && occ.len() == 1 && u@ == replaced(content@, old_real, new_real.0) && n
                        == new_real.1,
                    Err(ToolError::ImageTarget(p)) => image_path(path@) && p@ == path@,
                    Err(ToolError::PdfTarget(p)) => !image_path(path@) && pdf_path(path@) && p@ == path@,
                    Err(ToolError::NotFound(p)) => !image_path(path@) && !pdf_path(path@) && occ.len() == 0
                        && p@ == path@,
                    Err(ToolError::Ambiguous(n, p)) => !image_path(path@) && !pdf_path(path@) && occ.len() > 1 && n == (if occ.len() > usize::MAX {
                        usize::MAX as nat
                    } else {
                        occ.len()
                    }) && p@ == path@,
                    Err(_) => false,
                }
            }),
    {
        refuse_one_way(path)?;
        let (old_real, _) = restore_text(old, &self.store);
        let (new_real, restored_count) = restore_text(new, &self.store);
        if old_real.as_str().unicode_len() == 0 && content.unicode_len() == usize::MAX {
            return Err(ToolError::Ambiguous(usize::MAX, String::from_str(path)));
        }
        match replace_once(content, old_real.as_str(), new_real.as_str()) {
            Ok(updated) => Ok((updated, restored_count)),
            Err(EditRefusal::NotFound) => Err(ToolError::NotFound(String::from_str(path))),
            Err(EditRefusal::Ambiguous(n)) => Err(ToolError::Ambiguous(n, String::from_str(path))),
        }
    }

    /// `edit_restored` on an OOXML document whose bytes are `bytes`: the
    /// placeholders of `old` and `new` are restored, then `old` is replaced
    /// by `new` in every text node of the document (see
    /// [`rewrite_members`]) and the archive is rebuilt. Returns the rebuilt
    /// archive, which reads back as the rewritten members as written, how
    /// many replacements were made and how many placeholders of `new` were
    /// restored. A document in whose text `old` does not occur is refused
    /// before anything is written: a phrase split across two runs of text
    /// does not match, and saying so beats a silent no-op.
    pub fn edit_document(&self, path: &str, bytes: &[u8], old: &str, new: &str) -> (r: Result<
        (Vec<u8>, usize, usize),
        ToolError,
    >)
        requires
            self.table().wf(),
        ensures
            ({
                let old_real = restored(old@, self.table().values()).0;
                let new_real = restored(new@, self.table().values());
                match r {
                    Ok((out, k, n)) => zip_members_of(bytes@) matches Some(ms) && all_readable(ms) && all_parse(ms)
                        && 0 < total_replacements(ms, old_real) <= usize::MAX && k == total_replacements(
                        ms,
                        old_real,
                    ) && n == new_real.1 && zip_members_of(out@) == Some(
                        ms.map_values(|m: MemberView| as_written(rewritten_member(m, old_real, new_real.0))),
                    ),
                    Err(ToolError::NotFoundInDocument(p)) => p@ == path@ && (zip_members_of(bytes@) matches Some(ms)
                        && all_readable(ms) && all_parse(ms) && total_replacements(ms, old_real) == 0),
                    Err(ToolError::Document(p, e)) => p@ == path@ && match e {
                        DocumentError::NotAnArchive => zip_members_of(bytes@) is None,
                        DocumentError::Unreadable(name) => zip_members_of(bytes@) matches Some(ms) && exists|i: int|
                            0 <= i < ms.len() && unreadable_file(#[trigger] ms[i]) && ms[i].0 == name@,
                        DocumentError::Xml(XmlError::Malformed(_)) => zip_members_of(bytes@) matches Some(ms)
                            && all_readable(ms) && !all_parse(ms),
                        DocumentError::Xml(XmlError::TooLarge) => zip_members_of(bytes@) matches Some(ms)
                            && all_readable(ms) && all_parse(ms) && total_replacements(ms, old_real) > usize::MAX,
                        DocumentError::Unwritable(_) => zip_members_of(bytes@) matches Some(ms) && all_readable(ms)
                            && all_parse(ms) && 0 < total_replacements(ms, old_real) <= usize::MAX,
                    },
                    Err(_) => false,
                }
            }),
    {
        let (old_real, _) = restore_text(old, &self.store);
        let (new_real, restored_count) = restore_text(new, &self.store);
        let members = match read_archive(bytes) {
            Some(v) => v,
            None => {
                return Err(ToolError::Document(String::from_str(path), DocumentError::NotAnArchive));
            },
        };
        if let Some(i) = first_unreadable(&members) {
            let name = members[i].name.clone();
            assert(unreadable_file(zip_members_of(bytes@)->0[i as int]) && zip_members_of(bytes@)->0[i as int].0
                == name@);
            return Err(ToolError::Document(String::from_str(path), DocumentError::Unreadable(name)));
        }
        let (rewritten_members, count) = match rewrite_members(&members, old_real.as_str(), new_real.as_str()) {
            Ok(x) => x,
            Err(e) => {
                return Err(ToolError::Document(String::from_str(path), DocumentError::Xml(e)));
            },
        };
        if count == 0 {
            return Err(ToolError::NotFoundInDocument(String::from_str(path)));
        }
        match build_archive(&rewritten_members) {
            Ok(out) => {
                proof {
                    let ms = members_view(members@);
                    assert(members_view(rewritten_members@).map_values(|m: MemberView| as_written(m))
                        =~= ms.map_values(|m: MemberView| as_written(rewritten_member(m, old_real@, new_real@))));
                }
                Ok((out, count, restored_count))
            },
            Err(msg) => Err(ToolError::Document(String::from_str(path), DocumentError::Unwritable(msg))),
        }
    }

    /// `restore_text`: the real values behind the placeholders of a
    /// snippet, handed into the conversation. Refused unless the operator
    /// enabled it; when nothing is known, says so.
    pub fn reveal_values(&self, text: &str) -> (r: Result<String, ToolError>)
        requires
            self.table().wf(),
        ensures
            !self.reveals() ==> r == Err::<String, ToolError>(ToolError::RevealDisabled),
            self.reveals() ==> (r matches Ok(s) && s@ == if restored(text@, self.table().values()).1 == 0 {
                "(no known placeholders in that text)"@
            } else {
                restored(text@, self.table().values()).0
            }),
    {
        if !self.allow_reveal {
            return Err(ToolError::RevealDisabled);
        }
        let (restored_text, count) = restore_text(text, &self.store);
        if count == 0 {
            return Ok(String::from_str("(no known placeholders in that text)"));
        }
        Ok(restored_text)
    }
}

} // verus!
