//! The contents of exported files: gzip, and the name a compressed file gets.

use flate2::read::GzDecoder;
use flate2::write::GzEncoder;
use std::io::Read;
use std::io::Write;
use vstd::prelude::*;
use vstd::string::StringExecFns;

verus! {

/// `std::io::Error`, handed on as it comes; nothing is said of what it holds.
#[verifier::external_type_specification]
#[verifier::external_body]
pub struct ExIoError(std::io::Error);

/// The data that the first gzip member of `contents` decodes to, or `None`
/// where `contents` does not decode.
pub uninterp spec fn gunzipped(contents: Seq<u8>) -> Option<Seq<u8>>;

/// `flate2::read::GzDecoder` read to the end: the decoded data of the first
/// gzip member, which depends on the bytes alone, or the decoder's error.
#[verifier::external_body]
fn gz_decode(contents: &[u8]) -> (r: Result<Vec<u8>, std::io::Error>)
    ensures
        match r {
            Ok(data) => gunzipped(contents@) == Some(data@),
            Err(_) => gunzipped(contents@) is None,
        },
{
    let mut decoder = GzDecoder::new(contents);
    let mut data = Vec::new();
    decoder.read_to_end(&mut data)?;
    Ok(data)
}

/// What compressing `data` gives, or `None` where compressing fails.
pub uninterp spec fn gzipped(data: Seq<u8>) -> Option<Seq<u8>>;

/// `flate2::write::GzEncoder` at the default compression level, written to
/// in full and finished: what it hands back depends on `data` alone and
/// decodes to `data` again; it fails exactly where `gzipped` is `None`.
#[verifier::external_body]
fn gz_encode(data: &[u8]) -> (r: Result<Vec<u8>, std::io::Error>)
    ensures
        match r {
            Ok(contents) => gzipped(data@) == Some(contents@) && gunzipped(contents@) == Some(
                data@,
            ),
            Err(_) => gzipped(data@) is None,
        },
{
    let mut encoder = GzEncoder::new(Vec::new(), flate2::Compression::default());
    encoder.write_all(data)?;
    encoder.finish()
}

/// The `Display` text of a `std::io::Error`.
#[verifier::external_body]
fn io_error_text(error: &std::io::Error) -> String {
    error.to_string()
}

/// Why contents could not be compressed or decompressed.
#[derive(Debug)]
pub struct GzError {
    pub reason: String,
}

/// A file to write: where, and what.
#[derive(Debug)]
pub struct GzFile {
    pub path: String,
    pub contents: Vec<u8>,
}

/// `path` with `.` and `ext` added behind it, so that `foo.txt` with `gz`
/// gives `foo.txt.gz`.
pub open spec fn extension_appended(path: Seq<char>, ext: Seq<char>) -> Seq<char> {
    path.push('.') + ext
}

/// Adds the extension `ext` to `path` and keeps the extension it has. The
/// extension is added to the text of the path as it stands, also where the
/// path names no file: a path that ends in a separator keeps it, so that
/// `dir/` with `gz` gives `dir/.gz`.
pub fn path_extension_append(path: &str, ext: &str) -> (appended: String)
    ensures
        appended@ == extension_appended(path@, ext@),
{
    let mut appended = path.to_owned();
    appended.push('.');
    appended.append(ext);
    appended
}

/// Decompresses the contents of a gzip file.
pub fn read_gz(contents: &[u8]) -> (r: Result<Vec<u8>, GzError>)
    ensures
        match r {
            Ok(data) => gunzipped(contents@) == Some(data@),
            Err(_) => gunzipped(contents@) is None,
        },
{
    match gz_decode(contents) {
        Ok(data) => Ok(data),
        Err(error) => Err(GzError { reason: io_error_text(&error) }),
    }
}

/// Compresses `data` for the file at `path`. The file to write is `path`
/// with `.gz` added, and its contents decompress to `data`.
pub fn write_as_gz(path: &str, data: &[u8]) -> (r: Result<GzFile, GzError>)
    ensures
        r is Ok <==> gzipped(data@) is Some,
        r matches Ok(file) ==> file.path@ == extension_appended(path@, "gz"@) && gzipped(data@)
            == Some(file.contents@) && gunzipped(file.contents@) == Some(data@),
{
    gz_file(path, gz_encode(data))
}

/// The file to write for `path` from what compressing handed back: `path`
/// with `.gz` added and the compressed contents, or, where compressing
/// failed, the failure.
pub fn gz_file(path: &str, encoded: Result<Vec<u8>, std::io::Error>) -> (r: Result<GzFile, GzError>)
    ensures
        match encoded {
            Ok(contents) => r matches Ok(file) && file.path@ == extension_appended(path@, "gz"@)
                && file.contents@ == contents@,
            Err(_) => r is Err,
        },
{
    match encoded {
        Ok(contents) => Ok(GzFile { path: path_extension_append(path, "gz"), contents }),
        Err(error) => Err(GzError { reason: io_error_text(&error) }),
    }
}

} // verus!
