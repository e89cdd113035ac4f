//! OOXML archives as lists of members: reading a document's text out of
//! them, and rewriting their text nodes. Members that do not carry text,
//! and text parts that are not UTF-8, are copied verbatim, which keeps
//! embedded images, themes and relationship files intact; only text nodes
//! change.

use vstd::prelude::*;
use vstd::string::*;
use vstd::utf8::*;

use crate::documents::{
    carries_text, in_media_folder, is_media_image, lines_text, part_text, picture_suffix, text_bearing,
};
use crate::text::{ascii_lowercase, ends_with, starts_with};
use crate::xml::{replace_in_text_nodes, replacement_count, rewritten, visible_texts, xml_pieces_of, XmlError};
use std::io::{Read, Write};

verus! {

broadcast use vstd::utf8::encode_utf8_decode_utf8;

/// One member of a zip archive: its name, whether it is a directory, its
/// compression method (the number the zip format stores), its bytes,
/// uncompressed, and whether they could be read (when not, `data` holds
/// what was read before the failure).
#[derive(Debug)]
pub struct ArchiveMember {
    pub name: String,
    pub is_dir: bool,
    pub compression: u16,
    pub data: Vec<u8>,
    pub readable: bool,
}

/// A member as plain values.
pub type MemberView = (Seq<char>, bool, u16, Seq<u8>, bool);

pub open spec fn member_view(m: ArchiveMember) -> MemberView {
    (m.name@, m.is_dir, m.compression, m.data@, m.readable)
}

pub open spec fn members_view(ms: Seq<ArchiveMember>) -> Seq<MemberView> {
    ms.map_values(|m: ArchiveMember| member_view(m))
}

/// The members, in order, that the `zip` crate reads out of the archive
/// `bytes`; `None` when it cannot read them.
pub uninterp spec fn zip_members_of(bytes: Seq<u8>) -> Option<Seq<(Seq<char>, bool, u16, Seq<u8>, bool)>>;

/// `zip::ZipArchive` over `bytes`: each member's name, directory flag,
/// compression method, uncompressed bytes and whether reading them
/// succeeded, in archive order. Only the result's name is stated; the loop
/// converts each entry as it is read.
#[verifier::external_body]
fn zip_members(bytes: &[u8]) -> (r: Result<Vec<ArchiveMember>, String>)
    ensures
        match r {
            Ok(v) => zip_members_of(bytes@) == Some(members_view(v@)),
            Err(_) => zip_members_of(bytes@) is None,
        },
{
    let mut archive = zip::ZipArchive::new(std::io::Cursor::new(bytes)).map_err(|e| e.to_string())?;
    let mut members = Vec::new();
    for index in 0..archive.len() {
        let mut entry = archive.by_index(index).map_err(|e| e.to_string())?;
        let name = entry.name().map_err(|e| e.to_string())?.to_string();
        let mut data = Vec::new();
        let readable = entry.read_to_end(&mut data).is_ok();
        #[allow(deprecated)]
        let compression = entry.compression().to_u16();
        members.push(ArchiveMember { name, is_dir: entry.is_dir(), compression, data, readable });
    }
    Ok(members)
}

/// A zip archive being written to memory by `zip::ZipWriter`. Verus does
/// not take a declaration of the writer's type (its bounds are traits of
/// std's I/O), so it is held here, and what it holds is known only through
/// [`zip_entries`].
#[verifier::external_body]
pub struct ArchiveWriter {
    writer: zip::ZipWriter<std::io::Cursor<Vec<u8>>>,
}

/// The members that reading back the archive a writer builds gives, as far
/// as it has been written.
pub uninterp spec fn zip_entries(w: ArchiveWriter) -> Seq<(Seq<char>, bool, u16, Seq<u8>, bool)>;

/// `zip::ZipWriter::new` over an empty buffer: an archive with no members.
#[verifier::external_body]
fn zip_writer() -> (w: ArchiveWriter)
    ensures
        zip_entries(w) == Seq::<MemberView>::empty(),
{
    ArchiveWriter { writer: zip::ZipWriter::new(std::io::Cursor::new(Vec::new())) }
}

/// Whether a member name ends in `/` or `\\`, which is how the `zip` crate
/// tells a directory.
pub open spec fn dir_like(n: Seq<char>) -> bool {
    n.len() > 0 && (n.last() == '/' || n.last() == '\\')
}

/// The name a directory is written under: `/` is added when the name does
/// not end in `/` or `\\`.
pub open spec fn directory_name(n: Seq<char>) -> Seq<char> {
    if dir_like(n) {
        n
    } else {
        n.push('/')
    }
}

/// What reading back gives of a member the writer is handed: a directory
/// under its directory name, stored uncompressed and without data; a file
/// with its name, compression method and data, counted a directory when
/// its name ends in `/` or `\\`.
pub open spec fn as_written(m: MemberView) -> MemberView {
    if m.1 {
        (directory_name(m.0), true, 0u16, Seq::<u8>::empty(), true)
    } else {
        (m.0, dir_like(m.0), m.2, m.3, true)
    }
}

/// `zip::ZipWriter::add_directory`: one more member, a directory under
/// `name` with `/` added when it does not end in `/` or `\\`; the crate
/// stores directories uncompressed and without data. What the writer holds
/// after a failure is not stated.
#[verifier::external_body]
fn zip_add_directory(w: &mut ArchiveWriter, name: &str) -> (r: Result<(), String>)
    ensures
        r is Ok ==> zip_entries(*final(w)) == zip_entries(*old(w)).push(
            (directory_name(name@), true, 0u16, Seq::<u8>::empty(), true),
        ),
{
    w.writer.add_directory(name, zip::write::SimpleFileOptions::default()).map_err(|e| e.to_string())
}

/// `zip::ZipWriter::start_file` with the compression method numbered
/// `compression`, then `write_all` of `data`: one more member, a file that
/// reads back with that name, method and data. What the writer holds after
/// a failure (a method the crate cannot write, a name already used) is not
/// stated.
#[verifier::external_body]
fn zip_add_file(w: &mut ArchiveWriter, name: &str, compression: u16, data: &[u8]) -> (r: Result<(), String>)
    ensures
        r is Ok ==> zip_entries(*final(w)) == zip_entries(*old(w)).push(
            (name@, dir_like(name@), compression, data@, true),
        ),
{
    #[allow(deprecated)]
    let method = zip::CompressionMethod::from_u16(compression);
    let options = zip::write::SimpleFileOptions::default().compression_method(method);
    w.writer.start_file(name, options).map_err(|e| e.to_string())?;
    w.writer.write_all(data).map_err(|e| e.to_string())
}

/// `zip::ZipWriter::finish`: the archive's bytes, which the `zip` crate
/// reads back as the members written, in order. Nothing else is stated of
/// the bytes: the writer stamps each member with a time.
#[verifier::external_body]
fn zip_finish(w: ArchiveWriter) -> (r: Result<Vec<u8>, String>)
    ensures
        r matches Ok(out) ==> zip_members_of(out@) == Some(zip_entries(w)),
{
    w.writer.finish().map(|cursor| cursor.into_inner()).map_err(|e| e.to_string())
}

/// A new archive holding `members` in order: each directory added as a
/// directory, each file with its own compression method and data. The
/// bytes read back as the members as written (see [`as_written`]).
pub fn build_archive(members: &Vec<ArchiveMember>) -> (r: Result<Vec<u8>, String>)
    ensures
        r matches Ok(out) ==> zip_members_of(out@) == Some(
            members_view(members@).map_values(|m: MemberView| as_written(m)),
        ),
{
    let ghost ms = members_view(members@);
    let mut w = zip_writer();
    let mut i: usize = 0;
    while i < members.len()
        invariant
            ms == members_view(members@),
            i <= members@.len(),
            zip_entries(w) == ms.take(i as int).map_values(|m: MemberView| as_written(m)),
        decreases members@.len() - i,
    {
        let m = &members[i];
        proof {
            assert(ms[i as int] == member_view(*m));
        }
        if m.is_dir {
            zip_add_directory(&mut w, m.name.as_str())?;
        } else {
            zip_add_file(&mut w, m.name.as_str(), m.compression, m.data.as_slice())?;
        }
        assert(ms.take(i + 1).map_values(|m: MemberView| as_written(m)) =~= ms.take(i as int).map_values(
            |m: MemberView| as_written(m),
        ).push(as_written(ms[i as int])));
        i = i + 1;
    }
    assert(ms.take(members@.len() as int) =~= ms);
    zip_finish(w)
}

/// `std::str::from_utf8`: the text that `bytes` encode, or `None` when they
/// are not valid UTF-8.
#[verifier::external_body]
fn utf8_text(bytes: &[u8]) -> (r: Option<&str>)
    ensures
        match r {
            Some(s) => valid_utf8(bytes@) && s.spec_bytes() == bytes@,
            None => !valid_utf8(bytes@),
        },
{
    std::str::from_utf8(bytes).ok()
}

/// The members of the archive `bytes`, or `None` when it is not a zip
/// archive the `zip` crate can read.
pub fn read_archive(bytes: &[u8]) -> (r: Option<Vec<ArchiveMember>>)
    ensures
        match r {
            Some(v) => zip_members_of(bytes@) == Some(members_view(v@)),
            None => zip_members_of(bytes@) is None,
        },
{
    match zip_members(bytes) {
        Ok(v) => Some(v),
        Err(_) => None,
    }
}

/// Whether a member is an embedded picture.
pub open spec fn media_member(m: MemberView) -> bool {
    in_media_folder(m.0) && picture_suffix(ascii_lowercase(m.0))
}

/// Whether a member is an XML part that carries user text, read, in UTF-8.
pub open spec fn text_part(m: MemberView) -> bool {
    ends_with(m.0, ".xml"@) && text_bearing(m.0) && m.4 && valid_utf8(m.3)
}

/// Whether a document's text is read from a member: a text part that is
/// not a picture.
pub open spec fn read_member(m: MemberView) -> bool {
    !media_member(m) && text_part(m)
}

/// The text of a document whose members are `ms`: what each text part
/// adds, in archive order; `None` when one of them does not parse.
pub open spec fn collected_text(ms: Seq<MemberView>) -> Option<Seq<char>>
    decreases ms.len(),
{
    if ms.len() == 0 {
        Some(seq![])
    } else {
        match collected_text(ms.drop_last()) {
            None => None,
            Some(t) => if read_member(ms.last()) {
                match xml_pieces_of(decode_utf8(ms.last().3)) {
                    Some(ps) => Some(t + lines_text(visible_texts(ps))),
                    None => None,
                }
            } else {
                Some(t)
            },
        }
    }
}

/// A document whose first `k` members fail to read fails as a whole.
proof fn lemma_collected_fails_later(ms: Seq<MemberView>, k: int)
    requires
        0 <= k <= ms.len(),
        collected_text(ms.take(k)) is None,
    ensures
        collected_text(ms) is None,
    decreases ms.len() - k,
{
    if k == ms.len() {
        assert(ms.take(k) =~= ms);
    } else {
        assert(ms.take(k + 1).drop_last() =~= ms.take(k));
        lemma_collected_fails_later(ms, k + 1);
    }
}

/// The positions of the embedded pictures among `ms` whose bytes could be
/// read, in order.
pub open spec fn media_positions(ms: Seq<MemberView>) -> Seq<int>
    decreases ms.len(),
{
    if ms.len() == 0 {
        seq![]
    } else if media_member(ms.last()) && ms.last().4 {
        media_positions(ms.drop_last()).push(ms.len() - 1)
    } else {
        media_positions(ms.drop_last())
    }
}

/// The text of the document whose members are `members`, and the
/// positions of its embedded pictures, whose text only recognition can
/// read. A text part that does not parse fails the read.
pub fn document_text(members: &Vec<ArchiveMember>) -> (r: Result<(String, Vec<usize>), XmlError>)
    ensures
        match r {
            Ok((t, idx)) => collected_text(members_view(members@)) == Some(t@) && idx@.map_values(
                |i: usize| i as int,
            ) == media_positions(members_view(members@)),
            Err(e) => collected_text(members_view(members@)) is None && e is Malformed,
        },
{
    let ghost ms = members_view(members@);
    let mut text = String::new();
    let mut media: Vec<usize> = Vec::new();
    let mut i: usize = 0;
    while i < members.len()
        invariant
            ms == members_view(members@),
            i <= members@.len(),
            collected_text(ms.take(i as int)) == Some(text@),
            media@.map_values(|k: usize| k as int) == media_positions(ms.take(i as int)),
        decreases members@.len() - i,
    {
        let m = &members[i];
        let ghost mv = ms[i as int];
        proof {
            assert(ms.take(i + 1).drop_last() =~= ms.take(i as int));
            assert(ms.take(i + 1).last() == mv);
            assert(mv == member_view(*m));
        }
        if is_media_image(m.name.as_str()) {
            if m.readable {
                media.push(i);
                proof {
                    assert(media@.map_values(|k: usize| k as int) =~= media_positions(ms.take(i as int)).push(
                        i as int,
                    ));
                }
            }
        } else if carries_text(m.name.as_str()) && m.readable {
            match utf8_text(m.data.as_slice()) {
                Some(xml) => {
                    assert(xml@ == decode_utf8(mv.3));
                    match part_text(xml) {
                        Ok(part) => text.append(part.as_str()),
                        Err(e) => {
                            proof {
                                lemma_collected_fails_later(ms, i + 1);
                            }
                            return Err(e);
                        },
                    }
                },
                None => {},
            }
        }
        i = i + 1;
    }
    proof {
        assert(ms.take(members@.len() as int) =~= ms);
    }
    Ok((text, media))
}

/// The text of the OOXML document `bytes` (see [`document_text`]), with
/// its members and the positions of its embedded pictures, whose text only
/// recognition can read.
pub fn extract_text(bytes: &[u8]) -> (r: Result<(String, Vec<ArchiveMember>, Vec<usize>), DocumentError>)
    ensures
        match r {
            Ok((t, ms, idx)) => zip_members_of(bytes@) == Some(members_view(ms@)) && collected_text(
                members_view(ms@),
            ) == Some(t@) && idx@.map_values(|i: usize| i as int) == media_positions(members_view(ms@)),
            Err(DocumentError::NotAnArchive) => zip_members_of(bytes@) is None,
            Err(DocumentError::Xml(e)) => zip_members_of(bytes@) matches Some(ms) && collected_text(ms) is None
                && e is Malformed,
            Err(DocumentError::Unwritable(_)) => false,
            Err(DocumentError::Unreadable(_)) => false,
        },
{
    let members = match read_archive(bytes) {
        Some(v) => v,
        None => {
            return Err(DocumentError::NotAnArchive);
        },
    };
    match document_text(&members) {
        Ok((text, media)) => Ok((text, members, media)),
        Err(e) => Err(DocumentError::Xml(e)),
    }
}

/// Whether rewriting a document changes a member: a file, not a
/// directory, that is an XML text part in UTF-8.
pub open spec fn rewrites(m: MemberView) -> bool {
    !m.1 && text_part(m)
}

/// Whether a member that rewriting changes parses as XML.
pub open spec fn parses(m: MemberView) -> bool {
    rewrites(m) ==> xml_pieces_of(decode_utf8(m.3)) is Some
}

/// Whether every member that rewriting changes parses as XML.
pub open spec fn all_parse(ms: Seq<MemberView>) -> bool {
    forall|i: int| 0 <= i < ms.len() ==> #[trigger] parses(ms[i])
}

/// How many text-node replacements of `old` a member takes.
pub open spec fn member_replacements(m: MemberView, old: Seq<char>) -> nat {
    if rewrites(m) {
        match xml_pieces_of(decode_utf8(m.3)) {
            Some(ps) => replacement_count(ps, old),
            None => 0,
        }
    } else {
        0
    }
}

/// How many text-node replacements of `old` the members take in all.
pub open spec fn total_replacements(ms: Seq<MemberView>, old: Seq<char>) -> nat
    decreases ms.len(),
{
    if ms.len() == 0 {
        0
    } else {
        total_replacements(ms.drop_last(), old) + member_replacements(ms.last(), old)
    }
}

/// A member with `old` replaced by `new` in its text nodes, when rewriting
/// changes it; otherwise the member as it was, byte for byte.
pub open spec fn rewritten_member(m: MemberView, old: Seq<char>, new: Seq<char>) -> MemberView {
    if rewrites(m) {
        match xml_pieces_of(decode_utf8(m.3)) {
            Some(ps) => (m.0, m.1, m.2, encode_utf8(rewritten(ps, old, new)), m.4),
            None => m,
        }
    } else {
        m
    }
}

/// The members of a document with `old` replaced by `new` in every text
/// node, and how many replacements were made. Names, directory flags and
/// compression methods are kept; members that rewriting does not change
/// are copied verbatim. A text part that does not parse fails the
/// rewrite; so does a count beyond `usize::MAX`.
pub fn rewrite_members(members: &Vec<ArchiveMember>, old: &str, new: &str) -> (r: Result<
    (Vec<ArchiveMember>, usize),
    XmlError,
>)
    ensures
        ({
            let ms = members_view(members@);
            match r {
                Ok((out, n)) => all_parse(ms) && total_replacements(ms, old@) <= usize::MAX && members_view(out@)
                    == ms.map_values(|m: MemberView| rewritten_member(m, old@, new@)) && n == total_replacements(
                    ms,
                    old@,
                ),
                Err(XmlError::Malformed(_)) => !all_parse(ms),
                Err(XmlError::TooLarge) => all_parse(ms) && total_replacements(ms, old@) > usize::MAX,
            }
        }),
{
    let ghost ms = members_view(members@);
    let mut out: Vec<ArchiveMember> = Vec::new();
    let mut total: usize = 0;
    let mut over = false;
    let mut i: usize = 0;
    while i < members.len()
        invariant
            ms == members_view(members@),
            i <= members@.len(),
            all_parse(ms.take(i as int)),
            over == (total_replacements(ms.take(i as int), old@) > usize::MAX),
            !over ==> total == total_replacements(ms.take(i as int), old@),
            !over ==> out@.len() == i,
            !over ==> forall|j: int| 0 <= j < i ==> member_view(#[trigger] out@[j]) == rewritten_member(
                ms[j],
                old@,
                new@,
            ),
        decreases members@.len() - i,
    {
        let m = &members[i];
        let ghost mv = ms[i as int];
        proof {
            assert(ms.take(i + 1).drop_last() =~= ms.take(i as int));
            assert(ms.take(i + 1).last() == mv);
            assert(mv == member_view(*m));
        }
        let mut data = vstd::slice::slice_to_vec(m.data.as_slice());
        if !m.is_dir && carries_text(m.name.as_str()) && m.readable {
            match utf8_text(m.data.as_slice()) {
                Some(xml) => {
                    assert(xml@ == decode_utf8(mv.3));
                    match replace_in_text_nodes(xml, old, new) {
                        Ok((text, n)) => {
                            data = vstd::slice::slice_to_vec(text.as_str().as_bytes());
                            if !over {
                                match total.checked_add(n) {
                                    Some(t) => total = t,
                                    None => over = true,
                                }
                            }
                        },
                        Err(XmlError::Malformed(msg)) => {
                            proof {
                                assert(!parses(ms[i as int]));
                            }
                            return Err(XmlError::Malformed(msg));
                        },
                        Err(XmlError::TooLarge) => {
                            over = true;
                        },
                    }
                },
                None => {},
            }
        }
        out.push(
            ArchiveMember {
                name: m.name.clone(),
                is_dir: m.is_dir,
                compression: m.compression,
                data,
                readable: m.readable,
            },
        );
        proof {
            assert(parses(ms[i as int]));
            assert forall|j: int| 0 <= j < i + 1 implies #[trigger] parses(ms.take(i + 1)[j]) by {
                if j < i {
                    assert(ms.take(i + 1)[j] == ms.take(i as int)[j]);
                }
            }
        }
        i = i + 1;
    }
    proof {
        assert(ms.take(members@.len() as int) =~= ms);
    }
    if over {
        return Err(XmlError::TooLarge);
    }
    proof {
        assert(members_view(out@) =~= ms.map_values(|m: MemberView| rewritten_member(m, old@, new@)));
    }
    Ok((out, total))
}

/// Why a document could not be rewritten.
#[derive(Debug, Clone, PartialEq, Eq)]
pub enum DocumentError {
    /// The file is not a zip archive that can be read.
    NotAnArchive,
    /// The bytes of the member with this name could not be read.
    Unreadable(String),
    /// A text part does not parse, or the replacements cannot be counted.
    Xml(XmlError),
    /// The rewritten archive could not be written; the message says why.
    Unwritable(String),
}

/// A member that is a file whose bytes could not be read.
pub open spec fn unreadable_file(m: MemberView) -> bool {
    !m.1 && !m.4
}

/// Whether every file among the members could be read.
pub open spec fn all_readable(ms: Seq<MemberView>) -> bool {
    forall|i: int| 0 <= i < ms.len() ==> !unreadable_file(#[trigger] ms[i])
}

/// The first file among `members` whose bytes could not be read, if any.
pub fn first_unreadable(members: &Vec<ArchiveMember>) -> (r: Option<usize>)
    ensures
        match r {
            Some(i) => i < members@.len() && unreadable_file(members_view(members@)[i as int]) && forall|j: int|
                0 <= j < i ==> !unreadable_file(#[trigger] members_view(members@)[j]),
            None => all_readable(members_view(members@)),
        },
{
    let ghost ms = members_view(members@);
    let mut i: usize = 0;
    while i < members.len()
        invariant
            ms == members_view(members@),
            i <= members@.len(),
            forall|j: int| 0 <= j < i ==> !unreadable_file(#[trigger] ms[j]),
        decreases members@.len() - i,
    {
        assert(ms[i as int] == member_view(members@[i as int]));
        if !members[i].is_dir && !members[i].readable {
            return Some(i);
        }
        i = i + 1;
    }
    None
}

/// The archive `bytes` with `old` replaced by `new` in every text node of
/// its members (see [`rewrite_members`]), rebuilt, and how many
/// replacements were made. The rebuilt archive reads back as the
/// rewritten members as written (see [`as_written`]); a file whose bytes
/// could not be read fails the rewrite before anything is changed.
pub fn transform_document(bytes: &[u8], old: &str, new: &str) -> (r: Result<(Vec<u8>, usize), DocumentError>)
    ensures
        match r {
            Ok((out, n)) => zip_members_of(bytes@) matches Some(ms) && all_readable(ms) && all_parse(ms)
                && total_replacements(ms, old@) <= usize::MAX && n == total_replacements(ms, old@)
                && zip_members_of(out@) == Some(
                ms.map_values(|m: MemberView| as_written(rewritten_member(m, old@, new@))),
            ),
            Err(DocumentError::NotAnArchive) => zip_members_of(bytes@) is None,
            Err(DocumentError::Unreadable(name)) => zip_members_of(bytes@) matches Some(ms) && exists|i: int|
                0 <= i < ms.len() && unreadable_file(#[trigger] ms[i]) && ms[i].0 == name@,
            Err(DocumentError::Xml(XmlError::Malformed(_))) => zip_members_of(bytes@) matches Some(ms)
                && all_readable(ms) && !all_parse(ms),
            Err(DocumentError::Xml(XmlError::TooLarge)) => zip_members_of(bytes@) matches Some(ms) && all_readable(
                ms,
            ) && all_parse(ms) && total_replacements(ms, old@) > usize::MAX,
            Err(DocumentError::Unwritable(_)) => zip_members_of(bytes@) matches Some(ms) && all_readable(ms)
                && all_parse(ms) && total_replacements(ms, old@) <= usize::MAX,
        },
{
    let members = match read_archive(bytes) {
        Some(v) => v,
        None => {
            return Err(DocumentError::NotAnArchive);
        },
    };
    if let Some(i) = first_unreadable(&members) {
        let name = members[i].name.clone();
        assert(unreadable_file(zip_members_of(bytes@)->0[i as int]) && zip_members_of(bytes@)->0[i as int].0
            == name@);
        return Err(DocumentError::Unreadable(name));
    }
    let (rewritten_members, count) = match rewrite_members(&members, old, new) {
        Ok(x) => x,
        Err(e) => {
            return Err(DocumentError::Xml(e));
        },
    };
    match build_archive(&rewritten_members) {
        Ok(out) => {
            proof {
                let ms = members_view(members@);
                assert(members_view(rewritten_members@).map_values(|m: MemberView| as_written(m)) =~= ms.map_values(
                    |m: MemberView| as_written(rewritten_member(m, old@, new@)),
                ));
            }
            Ok((out, count))
        },
        Err(msg) => Err(DocumentError::Unwritable(msg)),
    }
}

/// A slide of a PowerPoint deck (`ppt/slides/<name>.xml`) that could be
/// read and is UTF-8 is part of the document's text, and an edit rewrites
/// its text nodes; so are Word's `word/` parts.
pub proof fn law_slides_and_word_parts_are_read(m: MemberView)
    requires
        starts_with(m.0, "ppt/slides/"@) || starts_with(m.0, "word/"@),
        !starts_with(m.0, "word/media/"@),
        ends_with(m.0, ".xml"@),
        m.4,
        valid_utf8(m.3),
    ensures
        read_member(m),
        !m.1 ==> rewrites(m),
{
    reveal_strlit("ppt/slides/");
    reveal_strlit("word/");
    reveal_strlit("word/media/");
    reveal_strlit("xl/media/");
    reveal_strlit("ppt/media/");
    crate::documents::law_text_bearing_parts(m.0);
    if starts_with(m.0, "ppt/slides/"@) {
        assert(m.0[0] == 'p' && m.0[4] == 's') by {
            assert(m.0.subrange(0, 11)[0] == m.0[0]);
            assert(m.0.subrange(0, 11)[4] == m.0[4]);
        }
        assert(!starts_with(m.0, "xl/media/"@)) by {
            if starts_with(m.0, "xl/media/"@) {
                assert(m.0.subrange(0, 9)[0] == m.0[0]);
            }
        }
        assert(!starts_with(m.0, "ppt/media/"@)) by {
            if starts_with(m.0, "ppt/media/"@) {
                assert(m.0.subrange(0, 10)[4] == m.0[4]);
            }
        }
        assert(!starts_with(m.0, "word/media/"@)) by {
            if starts_with(m.0, "word/media/"@) {
                assert(m.0.subrange(0, 11)[0] == m.0[0]);
            }
        }
    } else {
        assert(m.0[0] == 'w') by {
            assert(m.0.subrange(0, 5)[0] == m.0[0]);
        }
        assert(!starts_with(m.0, "xl/media/"@)) by {
            if starts_with(m.0, "xl/media/"@) {
                assert(m.0.subrange(0, 9)[0] == m.0[0]);
            }
        }
        assert(!starts_with(m.0, "ppt/media/"@)) by {
            if starts_with(m.0, "ppt/media/"@) {
                assert(m.0.subrange(0, 10)[0] == m.0[0]);
            }
        }
    }
}

} // verus!
