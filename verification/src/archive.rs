//! Reading the parts of a zip archive.

use vstd::prelude::*;

use crate::text::text_of;

verus! {

/// Whether `zip::ZipArchive::new` opens bytes as an archive.
pub uninterp spec fn archive_opens(bytes: Seq<u8>) -> bool;

/// What the file of an archive with the given name holds, read by `zip::ZipArchive::by_name` and
/// `read_to_string`; nothing where the archive does not open, has no such file or the file cannot
/// be read as text.
pub uninterp spec fn archive_text(bytes: Seq<u8>, name: Seq<char>) -> Option<Seq<char>>;

/// `zip::ZipArchive::new` on bytes in memory: says whether they are an archive. The bytes alone
/// decide.
#[verifier::external_body]
pub(crate) fn is_archive(bytes: &Vec<u8>) -> (opens: bool)
    ensures
        opens == archive_opens(bytes@),
{
    zip::ZipArchive::new(std::io::Cursor::new(bytes.as_slice())).is_ok()
}

/// `zip::ZipArchive::by_name` on an archive in memory, and `read_to_string` on the file that it
/// finds. The bytes and the name alone decide what is read.
#[verifier::external_body]
pub(crate) fn read_text(bytes: &Vec<u8>, name: &str) -> (part: Option<String>)
    ensures
        text_of(part) == archive_text(bytes@, name@),
{
    let mut archive = zip::ZipArchive::new(std::io::Cursor::new(bytes.as_slice())).ok()?;
    let mut file = archive.by_name(name).ok()?;
    let mut text = String::new();
    std::io::Read::read_to_string(&mut file, &mut text).ok()?;
    Some(text)
}

} // verus!
