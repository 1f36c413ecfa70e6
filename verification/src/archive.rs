//! Reading the text of a gzip-compressed log.

use std::io::Read;
use vstd::prelude::*;
use crate::cleaner::CleanError;

verus! {

/// The text that a gzip stream decompresses to, when it decompresses and the
/// result is valid UTF-8.
pub uninterp spec fn gunzip_text(data: Seq<u8>) -> Option<Seq<char>>;

/// Decompresses `data` with flate2's `read::GzDecoder` and reads the result
/// with `Read::read_to_string`. Claimed: the outcome depends on `data` alone
/// (`gunzip_text`); the text comes back exactly when the read succeeds. What
/// the decoder makes of a given stream is left to flate2.
#[verifier::external_body]
fn gunzip_to_string(data: &[u8]) -> (r: Option<String>)
    ensures
        match r {
            Some(text) => gunzip_text(data@) == Some(text@),
            None => gunzip_text(data@) is None,
        },
{
    let mut text = String::new();
    match flate2::read::GzDecoder::new(data).read_to_string(&mut text) {
        Ok(_) => Some(text),
        Err(_) => None,
    }
}

/// The text of a compressed log, or `ArchiveNotText` when it does not
/// decompress to text.
pub fn decode_archive(data: &[u8]) -> (r: Result<String, CleanError>)
    ensures
        match gunzip_text(data@) {
            Some(text) => r matches Ok(s) && s@ == text,
            None => r == Err::<String, CleanError>(CleanError::ArchiveNotText),
        },
{
    match gunzip_to_string(data) {
        Some(text) => Ok(text),
        None => Err(CleanError::ArchiveNotText),
    }
}

} // verus!
