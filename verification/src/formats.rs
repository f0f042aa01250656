//! Bytes from outside: archives, compressed data and old character sets. Each is
//! read by the crate that knows the format; what it makes of the bytes is a
//! function of the bytes alone, and has a name here.

use crate::text::texts;
use std::io::Read;
use vstd::prelude::*;
use vstd::utf8::{decode_utf8, valid_utf8};

verus! {

/// The names of the members of a zip archive, in the order of its directory;
/// `None` when the bytes are no such archive.
pub uninterp spec fn zip_directory(data: Seq<u8>) -> Option<Seq<Seq<char>>>;

/// The content of a member of a zip archive; `None` when it cannot be read.
pub uninterp spec fn zip_content(data: Seq<u8>, name: Seq<char>) -> Option<Seq<u8>>;

/// `zip::ZipArchive::file_names`, on an archive opened from memory.
#[verifier::external_body]
pub(crate) fn zip_names(data: &Vec<u8>) -> (r: Result<Vec<String>, String>)
    ensures
        match r {
            Ok(names) => zip_directory(data@) == Some(texts(names@)),
            Err(_) => zip_directory(data@) is None,
        },
{
    match zip::ZipArchive::new(std::io::Cursor::new(data)) {
        Ok(z) => Ok(z.file_names().map(String::from).collect()),
        Err(e) => Err(e.to_string()),
    }
}

/// `zip::ZipArchive::by_name`, read to its end, on an archive opened from memory.
#[verifier::external_body]
pub(crate) fn zip_read(data: &Vec<u8>, name: &str) -> (r: Result<Vec<u8>, String>)
    ensures
        match r {
            Ok(blob) => zip_content(data@, name@) == Some(blob@),
            Err(_) => zip_content(data@, name@) is None,
        },
{
    let mut zip = zip::ZipArchive::new(std::io::Cursor::new(data)).map_err(|e| e.to_string())?;
    let mut blob = Vec::new();
    let mut file = zip.by_name(name).map_err(|e| e.to_string())?;
    match file.read_to_end(&mut blob) {
        Ok(_) => Ok(blob),
        Err(e) => Err(e.to_string()),
    }
}

/// What gzip data unpacks to; `None` when it is damaged.
pub uninterp spec fn gunzipped(data: Seq<u8>) -> Option<Seq<u8>>;

/// `flate2::read::GzDecoder`, read to its end.
#[verifier::external_body]
pub(crate) fn gunzip(data: &Vec<u8>) -> (r: Result<Vec<u8>, String>)
    ensures
        match r {
            Ok(blob) => gunzipped(data@) == Some(blob@),
            Err(_) => gunzipped(data@) is None,
        },
{
    let mut out = Vec::new();
    match flate2::read::GzDecoder::new(&data[..]).read_to_end(&mut out) {
        Ok(_) => Ok(out),
        Err(e) => Err(e.to_string()),
    }
}

/// What bytes say in Windows-1252, or in the encoding that a byte order mark at
/// their beginning names.
pub uninterp spec fn windows_1252(data: Seq<u8>) -> Seq<char>;

/// `encoding_rs::Encoding::decode` of `encoding_rs::WINDOWS_1252`.
#[verifier::external_body]
pub(crate) fn decode_1252(data: &Vec<u8>) -> (s: String)
    ensures
        s@ == windows_1252(data@),
{
    encoding_rs::WINDOWS_1252.decode(data).0.into_owned()
}

/// `std::str::from_utf8`: the text, where the bytes are well-formed.
#[verifier::external_body]
pub(crate) fn from_utf8(data: &Vec<u8>) -> (r: Option<String>)
    ensures
        match r {
            Some(s) => valid_utf8(data@) && s@ == decode_utf8(data@),
            None => !valid_utf8(data@),
        },
{
    std::str::from_utf8(data).ok().map(String::from)
}

/// The words of a command line, as a shell would split it; `None` when a quote is
/// left open.
pub uninterp spec fn shell_words(line: Seq<char>) -> Option<Seq<Seq<char>>>;

/// `shlex::split`.
#[verifier::external_body]
pub(crate) fn split_words(line: &str) -> (r: Option<Vec<String>>)
    ensures
        match r {
            Some(words) => shell_words(line@) == Some(texts(words@)),
            None => shell_words(line@) is None,
        },
{
    shlex::split(line)
}

/// The text in a database cell: as UTF-8 where it is that, else as Windows-1252.
pub open spec fn lenient_text(data: Seq<u8>) -> Seq<char> {
    if valid_utf8(data) {
        decode_utf8(data)
    } else {
        windows_1252(data)
    }
}

/// Decodes the text in a database cell.
pub fn decode_lenient(data: &Vec<u8>) -> (s: String)
    ensures
        s@ == lenient_text(data@),
{
    match from_utf8(data) {
        Some(s) => s,
        None => decode_1252(data),
    }
}

/// `data` begins with these bytes.
pub open spec fn has_magic(data: Seq<u8>, magic: Seq<u8>) -> bool {
    magic.len() <= data.len() && data.take(magic.len() as int) == magic
}

pub fn begins_with(data: &Vec<u8>, magic: &Vec<u8>) -> (r: bool)
    ensures
        r == has_magic(data@, magic@),
{
    if magic.len() > data.len() {
        return false;
    }
    let mut i: usize = 0;
    while i < magic.len()
        invariant
            magic@.len() <= data@.len(),
            i <= magic@.len(),
            forall|k: int| 0 <= k < i ==> data@[k] == magic@[k],
        decreases magic@.len() - i,
    {
        if data[i] != magic[i] {
            assert(data@.take(magic@.len() as int)[i as int] == data@[i as int]);
            return false;
        }
        i += 1;
    }
    assert(data@.take(magic@.len() as int) =~= magic@);
    true
}

} // verus!
