//! Which files hold what: OOXML archives and the members in them that carry
//! text or pictures, PDFs and whether their text came from a text layer,
//! and image files.

use vstd::prelude::*;
use vstd::string::*;

use crate::text::{
    ascii_lowercase, ascii_lowercase_chars, chars_equal, chars_of, class_has, ends_with, has_prefix,
    has_suffix, in_class, joined, starts_with, str_equal, CharClass,
};
use crate::detectors::words_view;
use crate::text::trim_str;
use crate::xml::{blank, text_nodes, visible_texts, xml_pieces_of, XmlError};

verus! {

/// What `std::path::Path::extension` gives for the path `path`.
pub uninterp spec fn path_extension_of(path: Seq<char>) -> Option<Seq<char>>;

/// `std::path::Path::extension` as text: the part of the file name after
/// its last `.`, or `None` when the name has no `.` past its first
/// character or there is no file name. Only the result's name is stated.
#[verifier::external_body]
fn path_extension(path: &str) -> (r: Option<String>)
    ensures
        match r {
            Some(e) => path_extension_of(path@) == Some(e@),
            None => path_extension_of(path@) is None,
        },
{
    std::path::Path::new(path).extension().and_then(|e| e.to_str()).map(|e| e.to_string())
}

/// The extension of `path` in ASCII lower case, if it has one.
pub open spec fn lower_extension(path: Seq<char>) -> Option<Seq<char>> {
    match path_extension_of(path) {
        Some(e) => Some(ascii_lowercase(e)),
        None => None,
    }
}

fn lower_extension_of(path: &str) -> (r: Option<Vec<char>>)
    ensures
        match r {
            Some(e) => lower_extension(path@) == Some(e@),
            None => lower_extension(path@) is None,
        },
{
    match path_extension(path) {
        Some(e) => Some(ascii_lowercase_chars(e.as_str())),
        None => None,
    }
}

/// The extensions of OOXML documents.
pub open spec fn ooxml_extension(e: Seq<char>) -> bool {
    e == "docx"@ || e == "xlsx"@ || e == "pptx"@ || e == "dotx"@ || e == "xltx"@ || e == "potx"@
        || e == "xlsm"@ || e == "docm"@ || e == "pptm"@
}

/// Whether `path` names an OOXML document (`docx`, `xlsx`, `pptx` and their
/// template and macro variants), by extension in any ASCII case.
pub fn is_ooxml(path: &str) -> (r: bool)
    ensures
        r == (lower_extension(path@) matches Some(e) && ooxml_extension(e)),
{
    match lower_extension_of(path) {
        Some(e) => chars_equal(&e, "docx") || chars_equal(&e, "xlsx") || chars_equal(&e, "pptx")
            || chars_equal(&e, "dotx") || chars_equal(&e, "xltx") || chars_equal(&e, "potx")
            || chars_equal(&e, "xlsm") || chars_equal(&e, "docm") || chars_equal(&e, "pptm"),
        None => false,
    }
}

/// The folders of an OOXML archive that hold embedded pictures.
pub open spec fn in_media_folder(name: Seq<char>) -> bool {
    starts_with(name, "word/media/"@) || starts_with(name, "xl/media/"@) || starts_with(name, "ppt/media/"@)
}

/// The picture types read out of an archive.
pub open spec fn picture_suffix(lower: Seq<char>) -> bool {
    ends_with(lower, ".png"@) || ends_with(lower, ".jpg"@) || ends_with(lower, ".jpeg"@) || ends_with(
        lower,
        ".tif"@,
    ) || ends_with(lower, ".tiff"@) || ends_with(lower, ".bmp"@) || ends_with(lower, ".gif"@)
}

/// Whether the archive member `name` is an embedded picture: it sits in a
/// media folder and has a picture extension in any ASCII case.
pub fn is_media_image(name: &str) -> (r: bool)
    ensures
        r == (in_media_folder(name@) && picture_suffix(ascii_lowercase(name@))),
{
    let cs = chars_of(name);
    if !(has_prefix(&cs, "word/media/") || has_prefix(&cs, "xl/media/") || has_prefix(&cs, "ppt/media/")) {
        return false;
    }
    let lower = ascii_lowercase_chars(name);
    has_suffix(&lower, ".png") || has_suffix(&lower, ".jpg") || has_suffix(&lower, ".jpeg")
        || has_suffix(&lower, ".tif") || has_suffix(&lower, ".tiff") || has_suffix(&lower, ".bmp")
        || has_suffix(&lower, ".gif")
}

/// The parts of an archive that carry user text. `docProps/app.xml`, the
/// authoring application's own metadata, is left out; `docProps/core.xml`,
/// which holds author names, is in.
pub open spec fn text_bearing(name: Seq<char>) -> bool {
    starts_with(name, "word/"@) || starts_with(name, "xl/sharedStrings.xml"@) || starts_with(
        name,
        "xl/worksheets/"@,
    ) || starts_with(name, "xl/charts/"@) || starts_with(name, "ppt/slides/"@) || starts_with(
        name,
        "ppt/notesSlides/"@,
    ) || starts_with(name, "docProps/core.xml"@)
}

/// Whether the archive member `name` is an XML part that carries user text.
pub fn carries_text(name: &str) -> (r: bool)
    ensures
        r == (ends_with(name@, ".xml"@) && text_bearing(name@)),
{
    let cs = chars_of(name);
    has_suffix(&cs, ".xml") && (has_prefix(&cs, "word/") || has_prefix(&cs, "xl/sharedStrings.xml")
        || has_prefix(&cs, "xl/worksheets/") || has_prefix(&cs, "xl/charts/") || has_prefix(
        &cs,
        "ppt/slides/",
    ) || has_prefix(&cs, "ppt/notesSlides/") || has_prefix(&cs, "docProps/core.xml"))
}

/// Whether `path` names a PDF, by extension in any ASCII case.
pub fn is_pdf(path: &str) -> (r: bool)
    ensures
        r == (lower_extension(path@) == Some("pdf"@)),
{
    match lower_extension_of(path) {
        Some(e) => chars_equal(&e, "pdf"),
        None => false,
    }
}

/// The extensions of the image files that can be read.
pub open spec fn image_extension(e: Seq<char>) -> bool {
    e == "png"@ || e == "jpg"@ || e == "jpeg"@ || e == "tif"@ || e == "tiff"@ || e == "bmp"@ || e
        == "gif"@ || e == "heic"@
}

/// Whether `path` names an image file, by extension in any ASCII case.
pub fn is_image(path: &str) -> (r: bool)
    ensures
        r == (lower_extension(path@) matches Some(e) && image_extension(e)),
{
    match lower_extension_of(path) {
        Some(e) => chars_equal(&e, "png") || chars_equal(&e, "jpg") || chars_equal(&e, "jpeg")
            || chars_equal(&e, "tif") || chars_equal(&e, "tiff") || chars_equal(&e, "bmp")
            || chars_equal(&e, "gif") || chars_equal(&e, "heic"),
        None => false,
    }
}

/// Whether text can be recognised in images on the operating system `os`
/// (as `std::env::consts::OS` names it): recognition uses Apple's Vision
/// framework, so only on `macos`.
pub fn available(os: &str) -> (r: bool)
    ensures
        r == (os@ == "macos"@),
{
    str_equal(os, "macos")
}

/// The recognised lines of an image in one string, in reading order.
pub fn recognize_text(lines: &Vec<String>) -> (r: String)
    ensures
        r@ == joined(words_view(lines@), seq!['\n']),
{
    let ghost ws = words_view(lines@);
    let mut out = String::new();
    let mut i: usize = 0;
    proof {
        assert(out@ =~= joined(ws.take(0), seq!['\n']));
    }
    while i < lines.len()
        invariant
            ws == words_view(lines@),
            i <= lines@.len(),
            out@ == joined(ws.take(i as int), seq!['\n']),
        decreases lines@.len() - i,
    {
        let ghost before = out@;
        proof {
            reveal_strlit("\n");
        }
        if i > 0 {
            out.append("\n");
        }
        out.append(lines[i].as_str());
        proof {
            let t = ws.take(i + 1);
            assert(t.drop_last() =~= ws.take(i as int));
            assert(t.last() == lines@[i as int]@);
            if i == 0 {
                assert(out@ =~= t[0]);
            } else {
                assert(out@ =~= before + seq!['\n'] + t.last());
            }
        }
        i = i + 1;
    }
    assert(ws.take(ws.len() as int) =~= ws);
    out
}

/// How the text came out of a PDF.
#[derive(Debug, Clone, Copy, PartialEq, Eq, Structural)]
pub enum Source {
    /// Read from the document's own text layer.
    TextLayer,
    /// The text layer was empty: the document is a scan and needs OCR.
    NeedsOcr,
}

/// A PDF's text and where it came from.
#[derive(Debug, Clone)]
pub struct Extracted {
    pub text: String,
    pub source: Source,
}

/// Below this many non-whitespace characters a text layer counts as
/// missing: scanners often leave a page number or a stray character
/// behind, and an exact emptiness test would let such a scan through as a
/// clean document.
pub const MIN_MEANINGFUL_CHARS: usize = 16;

/// How many characters of `s` are not whitespace.
pub open spec fn meaningful_count(s: Seq<char>) -> nat
    decreases s.len(),
{
    if s.len() == 0 {
        0
    } else {
        meaningful_count(s.drop_last()) + if in_class(s.last(), CharClass::Whitespace) {
            0nat
        } else {
            1nat
        }
    }
}

/// Where text with this many meaningful characters came from.
pub open spec fn source_of(s: Seq<char>) -> Source {
    if meaningful_count(s) < MIN_MEANINGFUL_CHARS {
        Source::NeedsOcr
    } else {
        Source::TextLayer
    }
}

/// The text a PDF's text layer gave, with where it came from: a layer with
/// almost nothing in it is taken for a scan that needs OCR.
pub fn classify(text: String) -> (r: Extracted)
    ensures
        r.text@ == text@,
        r.source == source_of(text@),
{
    let cs = chars_of(text.as_str());
    let mut n: usize = 0;
    let mut i: usize = 0;
    while i < cs.len()
        invariant
            cs@ == text@,
            i <= cs@.len(),
            n <= i,
            n == meaningful_count(cs@.take(i as int)),
        decreases cs@.len() - i,
    {
        assert(cs@.take(i + 1).drop_last() =~= cs@.take(i as int));
        if !class_has(cs[i], CharClass::Whitespace) {
            n = n + 1;
        }
        i = i + 1;
    }
    assert(cs@.take(cs@.len() as int) =~= cs@);
    let source = if n < MIN_MEANINGFUL_CHARS {
        Source::NeedsOcr
    } else {
        Source::TextLayer
    };
    Extracted { text, source }
}

/// The note appended to a PDF read, so the agent knows what it is looking
/// at.
pub open spec fn provenance_text(source: Source, ocr_available: bool) -> Seq<char> {
    match source {
        Source::TextLayer => ""@,
        Source::NeedsOcr => if ocr_available {
            "\n\n(This PDF has no text layer, so the text above was read from the page \
             images with OCR. Recognition is imperfect; a value it misread is a value \
             it did not mask.)"@
        } else {
            "\n\n(WARNING: this PDF has no text layer and OCR is unavailable in this \
             build, so nothing could be read from it. An empty result here does NOT \
             mean the document is free of sensitive data.)"@
        },
    }
}

/// The note appended to a PDF read: nothing for a text PDF; for a scan,
/// that its text was read with OCR and may be misread, or, when OCR is not
/// available, a warning that an empty result does not mean a clean
/// document.
pub fn provenance_note(source: Source, ocr_available: bool) -> (r: &'static str)
    ensures
        r@ == provenance_text(source, ocr_available),
{
    match source {
        Source::TextLayer => "",
        Source::NeedsOcr => if ocr_available {
            "\n\n(This PDF has no text layer, so the text above was read from the page \
             images with OCR. Recognition is imperfect; a value it misread is a value \
             it did not mask.)"
        } else {
            "\n\n(WARNING: this PDF has no text layer and OCR is unavailable in this \
             build, so nothing could be read from it. An empty result here does NOT \
             mean the document is free of sensitive data.)"
        },
    }
}

/// Pages rendered for OCR per request, so a long scan cannot occupy the
/// server indefinitely.
pub const MAX_PAGES: usize = 50;

/// Whether a document with `page_count` pages (`None` when it would not
/// open) holds more pages than are rendered.
pub fn truncated(page_count: Option<usize>) -> (r: bool)
    ensures
        r == (page_count matches Some(n) && n > MAX_PAGES),
{
    match page_count {
        Some(n) => n > MAX_PAGES,
        None => false,
    }
}

/// Texts, each followed by a newline.
pub open spec fn lines_text(ts: Seq<Seq<char>>) -> Seq<char>
    decreases ts.len(),
{
    if ts.len() == 0 {
        seq![]
    } else {
        lines_text(ts.drop_last()) + ts.last() + seq!['\n']
    }
}

/// What one text-bearing part of an archive adds to the document's text:
/// each text node that is not blank, followed by a newline.
pub fn part_text(xml: &str) -> (r: Result<String, XmlError>)
    ensures
        match r {
            Ok(t) => xml_pieces_of(xml@) matches Some(ps) && t@ == lines_text(visible_texts(ps)),
            Err(e) => xml_pieces_of(xml@) is None && e is Malformed,
        },
{
    let nodes = match text_nodes(xml) {
        Ok(n) => n,
        Err(e) => {
            return Err(e);
        },
    };
    let ghost ts = words_view(nodes@);
    let mut out = String::new();
    let mut i: usize = 0;
    proof {
        assert(out@ =~= lines_text(ts.take(0)));
    }
    while i < nodes.len()
        invariant
            ts == words_view(nodes@),
            i <= nodes@.len(),
            out@ == lines_text(ts.take(i as int)),
        decreases nodes@.len() - i,
    {
        proof {
            reveal_strlit("\n");
        }
        out.append(nodes[i].as_str());
        out.append("\n");
        assert(ts.take(i + 1).drop_last() =~= ts.take(i as int));
        assert(ts[i as int] == nodes@[i as int]@);
        i = i + 1;
    }
    assert(ts.take(ts.len() as int) =~= ts);
    Ok(out)
}

/// What the text recognised in an embedded picture adds to the document's
/// text: nothing when nothing but whitespace was recognised, otherwise the
/// text under a label naming the picture, so the agent can tell what came
/// out of a screenshot from what was written in the document.
pub open spec fn image_note(name: Seq<char>, text: Seq<char>) -> Seq<char> {
    if blank(text) {
        seq![]
    } else {
        "\n[text recognised in embedded image "@ + name + "]\n"@ + text + "\n"@
    }
}

/// The labelled text recognised in the embedded picture `name`.
pub fn recognised_image_text(name: &str, text: &str) -> (r: String)
    ensures
        r@ == image_note(name@, text@),
{
    if trim_str(text).unicode_len() == 0 {
        return String::new();
    }
    String::from_str("\n[text recognised in embedded image ").concat(name).concat("]\n").concat(text).concat(
        "\n",
    )
}

/// OOXML documents are exactly the files whose extension, in any ASCII
/// case, is one of the Word, Excel and PowerPoint formats: `docx`, `xlsx`,
/// `pptx`, their templates `dotx`, `xltx`, `potx`, and the macro-enabled
/// `xlsm`, `docm`, `pptm`. Such a file is read through its text nodes and
/// never overwritten with plain text.
pub proof fn law_ooxml_paths(path: Seq<char>)
    ensures
        (lower_extension(path) matches Some(e) && ooxml_extension(e)) <==> (lower_extension(path) matches Some(e)
            && (e == "docx"@ || e == "xlsx"@ || e == "pptx"@ || e == "dotx"@ || e == "xltx"@ || e == "potx"@
            || e == "xlsm"@ || e == "docm"@ || e == "pptm"@)),
{
}

/// Every XML part under the folders that hold a document's user text
/// carries text: Word's `word/`, Excel's shared strings, worksheets and
/// charts, PowerPoint's slides and speaker notes, and the core properties
/// (which name the authors). The authoring application's own metadata,
/// `docProps/app.xml`, does not.
pub proof fn law_text_bearing_parts(name: Seq<char>)
    ensures
        ends_with(name, ".xml"@) && (starts_with(name, "word/"@) || starts_with(name, "xl/sharedStrings.xml"@)
            || starts_with(name, "xl/worksheets/"@) || starts_with(name, "xl/charts/"@) || starts_with(
            name,
            "ppt/slides/"@,
        ) || starts_with(name, "ppt/notesSlides/"@) || starts_with(name, "docProps/core.xml"@))
            ==> ends_with(name, ".xml"@) && text_bearing(name),
        !text_bearing("docProps/app.xml"@),
{
    reveal_strlit("docProps/app.xml");
    reveal_strlit("word/");
    reveal_strlit("xl/sharedStrings.xml");
    reveal_strlit("xl/worksheets/");
    reveal_strlit("xl/charts/");
    reveal_strlit("ppt/slides/");
    reveal_strlit("ppt/notesSlides/");
    reveal_strlit("docProps/core.xml");
    let a = "docProps/app.xml"@;
    assert(a.subrange(0, 5) != "word/"@) by {
        assert(a.subrange(0, 5)[0] != "word/"@[0]);
    }
    assert(a.subrange(0, 20 as int) != "xl/sharedStrings.xml"@ || a.len() < 20);
    assert(a.subrange(0, 14) != "xl/worksheets/"@) by {
        assert(a.subrange(0, 14)[0] != "xl/worksheets/"@[0]);
    }
    assert(a.subrange(0, 10) != "xl/charts/"@) by {
        assert(a.subrange(0, 10)[0] != "xl/charts/"@[0]);
    }
    assert(a.subrange(0, 11) != "ppt/slides/"@) by {
        assert(a.subrange(0, 11)[0] != "ppt/slides/"@[0]);
    }
    assert(a.subrange(0, 16) != "ppt/notesSlides/"@) by {
        assert(a.subrange(0, 16)[0] != "ppt/notesSlides/"@[0]);
    }
    assert(a.subrange(0, 17) != "docProps/core.xml"@ || a.len() < 17);
}

/// A path's extension is compared in lower case: each ASCII capital
/// letter of the extension that `Path::extension` gives becomes its small
/// letter, and every other character stays as it is.
pub proof fn law_extension_case(path: Seq<char>)
    ensures
        match path_extension_of(path) {
            Some(e) => lower_extension(path) matches Some(l) && l.len() == e.len() && forall|i: int|
                0 <= i < e.len() ==> #[trigger] l[i] == if 'A' <= e[i] && e[i] <= 'Z' {
                    ((e[i] as u32) + 32) as char
                } else {
                    e[i]
                },
            None => lower_extension(path) is None,
        },
{
}

} // verus!
