//! The text nodes of an XML part. Only text nodes are read or rewritten:
//! tags, attributes and everything else pass through as the XML writer
//! renders them, so formatting, tables and formulas survive. Text nodes
//! that hold only whitespace are indentation and are passed over.

use vstd::prelude::*;
use vstd::string::*;

use crate::detectors::words_view;
use crate::edit::{occurrences, replace_counting, replaced};
use crate::text::{trim_in, trim_str, CharClass};
use quick_xml::events::Event;
use quick_xml::{Reader, Writer};

verus! {

/// One event of an XML document: how the writer renders it, and, for a
/// text node, its unescaped content.
pub type XmlPieceView = (Seq<char>, Option<Seq<char>>);

/// The events that `quick_xml`'s reader (text untrimmed) reports for
/// `xml`, each rendered by `quick_xml`'s writer, with the unescaped
/// content of each text node; `None` when the document does not parse.
pub uninterp spec fn xml_pieces_of(xml: Seq<char>) -> Option<Seq<(Seq<char>, Option<Seq<char>>)>>;

/// The views of the pieces read from a document.
pub open spec fn pieces_view(v: Seq<(String, Option<String>)>) -> Seq<XmlPieceView> {
    v.map_values(
        |e: (String, Option<String>)|
            (
                e.0@,
                match e.1 {
                    Some(t) => Some(t@),
                    None => None,
                },
            ),
    )
}

/// How `quick_xml::escape::escape` writes one character of text.
pub open spec fn xml_escape_char(c: char) -> Seq<char> {
    if c == '<' {
        seq!['&', 'l', 't', ';']
    } else if c == '>' {
        seq!['&', 'g', 't', ';']
    } else if c == '\'' {
        seq!['&', 'a', 'p', 'o', 's', ';']
    } else if c == '&' {
        seq!['&', 'a', 'm', 'p', ';']
    } else if c == '"' {
        seq!['&', 'q', 'u', 'o', 't', ';']
    } else {
        seq![c]
    }
}

/// Text escaped for an XML text node.
pub open spec fn xml_escaped(s: Seq<char>) -> Seq<char>
    decreases s.len(),
{
    if s.len() == 0 {
        seq![]
    } else {
        xml_escaped(s.drop_last()) + xml_escape_char(s.last())
    }
}

/// How an XML document failed to be read.
#[derive(Debug, Clone, PartialEq, Eq)]
pub enum XmlError {
    /// The reader or writer reported this error.
    Malformed(String),
    /// More replacements than a `usize` counts.
    TooLarge,
}

/// Reads `xml` with `quick_xml::Reader::from_str` (text not trimmed) and
/// renders each event with `quick_xml::Writer::write_event`, keeping for
/// each text node its content as `BytesText::unescape` gives it. Only the
/// result's name is stated.
#[verifier::external_body]
fn xml_pieces(xml: &str) -> (r: Result<Vec<(String, Option<String>)>, String>)
    ensures
        match r {
            Ok(v) => xml_pieces_of(xml@) == Some(pieces_view(v@)),
            Err(_) => xml_pieces_of(xml@) is None,
        },
{
    let mut reader = Reader::from_str(xml);
    reader.config_mut().trim_text(false);
    let mut pieces = Vec::new();
    loop {
        let event = reader.read_event().map_err(|e| format!("XML parse error: {e}"))?;
        let text = match &event {
            Event::Eof => return Ok(pieces),
            Event::Text(t) => Some(t.unescape().map_err(|e| e.to_string())?.into_owned()),
            _ => None,
        };
        let mut writer = Writer::new(Vec::new());
        writer.write_event(event).map_err(|e| e.to_string())?;
        pieces.push((String::from_utf8_lossy(&writer.into_inner()).into_owned(), text));
    }
}

/// `quick_xml::escape::escape`, which `BytesText::new` applies to text it
/// is given: `<`, `>`, `'`, `&` and `"` become entity references.
#[verifier::external_body]
fn escape_text(text: &str) -> (r: String)
    ensures
        r@ == xml_escaped(text@),
{
    quick_xml::escape::escape(text).into_owned()
}

/// Text that is nothing but whitespace.
pub open spec fn blank(t: Seq<char>) -> bool {
    trim_in(t, CharClass::Whitespace).len() == 0
}

/// The contents of the text nodes that are not blank, in document order.
pub open spec fn visible_texts(ps: Seq<XmlPieceView>) -> Seq<Seq<char>>
    decreases ps.len(),
{
    if ps.len() == 0 {
        seq![]
    } else {
        let rest = visible_texts(ps.drop_last());
        match ps.last().1 {
            Some(t) => if blank(t) {
                rest
            } else {
                rest.push(t)
            },
            None => rest,
        }
    }
}

/// The document rewritten with `old` replaced by `new` in every text node
/// that is not blank; everything else as the writer renders it.
pub open spec fn rewritten(ps: Seq<XmlPieceView>, old: Seq<char>, new: Seq<char>) -> Seq<char>
    decreases ps.len(),
{
    if ps.len() == 0 {
        seq![]
    } else {
        rewritten(ps.drop_last(), old, new) + match ps.last().1 {
            Some(t) => if blank(t) {
                ps.last().0
            } else {
                xml_escaped(replaced(t, old, new))
            },
            None => ps.last().0,
        }
    }
}

/// How many occurrences of `old` the text nodes that are not blank hold.
pub open spec fn replacement_count(ps: Seq<XmlPieceView>, old: Seq<char>) -> nat
    decreases ps.len(),
{
    if ps.len() == 0 {
        0
    } else {
        replacement_count(ps.drop_last(), old) + match ps.last().1 {
            Some(t) => if blank(t) {
                0
            } else {
                occurrences(t, old).len()
            },
            None => 0,
        }
    }
}

fn is_blank(t: &str) -> (r: bool)
    ensures
        r == blank(t@),
{
    trim_str(t).unicode_len() == 0
}

/// The contents of the text nodes of `xml` that are not blank, in order.
pub fn text_nodes(xml: &str) -> (r: Result<Vec<String>, XmlError>)
    ensures
        match r {
            Ok(v) => xml_pieces_of(xml@) matches Some(ps) && words_view(v@) == visible_texts(ps),
            Err(e) => xml_pieces_of(xml@) is None && e is Malformed,
        },
{
    let pieces = match xml_pieces(xml) {
        Ok(p) => p,
        Err(msg) => {
            return Err(XmlError::Malformed(msg));
        },
    };
    let ghost ps = pieces_view(pieces@);
    let mut out: Vec<String> = Vec::new();
    let mut i: usize = 0;
    while i < pieces.len()
        invariant
            ps == pieces_view(pieces@),
            i <= pieces@.len(),
            words_view(out@) == visible_texts(ps.take(i as int)),
        decreases pieces@.len() - i,
    {
        assert(ps.take(i + 1).drop_last() =~= ps.take(i as int));
        assert(ps.take(i + 1).last() == ps[i as int]);
        match &pieces[i].1 {
            Some(t) => {
                if !is_blank(t.as_str()) {
                    let ghost before = out@;
                    out.push(t.clone());
                    assert(words_view(out@) =~= words_view(before).push(t@));
                }
            },
            None => {},
        }
        i = i + 1;
    }
    assert(ps.take(ps.len() as int) =~= ps);
    Ok(out)
}

/// `xml` with `old` replaced by `new` in every text node that is not
/// blank, and how many replacements were made. Markup and blank text
/// nodes are written as the writer renders them; a rewritten text node is
/// escaped again.
pub fn replace_in_text_nodes(xml: &str, old: &str, new: &str) -> (r: Result<(String, usize), XmlError>)
    ensures
        match r {
            Ok((out, n)) => xml_pieces_of(xml@) matches Some(ps) && out@ == rewritten(ps, old@, new@) && n
                == replacement_count(ps, old@),
            Err(XmlError::Malformed(_)) => xml_pieces_of(xml@) is None,
            Err(XmlError::TooLarge) => xml_pieces_of(xml@) matches Some(ps) && replacement_count(ps, old@)
                > usize::MAX,
        },
{
    let pieces = match xml_pieces(xml) {
        Ok(p) => p,
        Err(msg) => {
            return Err(XmlError::Malformed(msg));
        },
    };
    let ghost ps = pieces_view(pieces@);
    let mut out = String::new();
    let mut total: usize = 0;
    let mut i: usize = 0;
    while i < pieces.len()
        invariant
            ps == pieces_view(pieces@),
            xml_pieces_of(xml@) == Some(ps),
            i <= pieces@.len(),
            out@ == rewritten(ps.take(i as int), old@, new@),
            total == replacement_count(ps.take(i as int), old@),
        decreases pieces@.len() - i,
    {
        let ghost pre = ps.take(i as int);
        assert(ps.take(i + 1).drop_last() =~= pre);
        assert(ps.take(i + 1).last() == ps[i as int]);
        match &pieces[i].1 {
            Some(t) => {
                assert(ps[i as int] == (pieces@[i as int].0@, Some(t@)));
                if is_blank(t.as_str()) {
                    out.append(pieces[i].0.as_str());
                } else {
                    assert(replacement_count(ps.take(i + 1), old@) == total + occurrences(t@, old@).len());
                    if old.unicode_len() == 0 && t.as_str().unicode_len() == usize::MAX {
                        assert(occurrences(t@, old@).len() == t@.len() + 1);
                        proof {
                            lemma_count_grows(ps, old@, i + 1);
                        }
                        return Err(XmlError::TooLarge);
                    }
                    let (changed, n) = replace_counting(t.as_str(), old, new);
                    match total.checked_add(n) {
                        Some(sum) => {
                            total = sum;
                        },
                        None => {
                            proof {
                                lemma_count_grows(ps, old@, i + 1);
                            }
                            return Err(XmlError::TooLarge);
                        },
                    }
                    let escaped = escape_text(changed.as_str());
                    out.append(escaped.as_str());
                }
            },
            None => {
                out.append(pieces[i].0.as_str());
            },
        }
        i = i + 1;
    }
    assert(ps.take(ps.len() as int) =~= ps);
    Ok((out, total))
}

/// The count over a prefix is at most the count over the whole.
proof fn lemma_count_grows(ps: Seq<XmlPieceView>, old: Seq<char>, k: int)
    requires
        0 <= k <= ps.len(),
    ensures
        replacement_count(ps.take(k), old) <= replacement_count(ps, old),
    decreases ps.len() - k,
{
    if k < ps.len() {
        lemma_count_grows(ps, old, k + 1);
        assert(ps.take(k + 1).drop_last() =~= ps.take(k));
    } else {
        assert(ps.take(k) =~= ps);
    }
}

} // verus!
