//! Scanning support: content digest, MIME classification, and the
//! verified construction of one index row from a file's content and
//! metadata.  Reading the file itself is the caller's job.
use sha2::Digest;
use vstd::prelude::*;
use vstd::slice::slice_subrange;

use crate::index::FileLocation;
use crate::index::LocationView;

verus! {

/// The SHA-256 digest of these bytes; a function of the bytes alone.
pub uninterp spec fn sha256_of(data: Seq<u8>) -> Seq<u8>;

/// Relies on sha2's Sha256: digesting the bytes yields the 32-byte
/// SHA-256 digest, a function of the bytes alone.
#[verifier::external_body]
fn sha256(data: &[u8]) -> (r: Vec<u8>)
    ensures
        r@ == sha256_of(data@),
        r@.len() == 32,
{
    sha2::Sha256::digest(data).to_vec()
}

/// The MIME type content sniffing reports for these leading bytes; a
/// function of the bytes alone.
pub uninterp spec fn sniffed_mime_of(data: Seq<u8>) -> Option<Seq<char>>;

/// Relies on infer::get: the MIME type recognized from the leading
/// bytes, a function of the bytes alone; `None` when inconclusive.
#[verifier::external_body]
fn sniff_mime(data: &[u8]) -> (r: Option<String>)
    ensures
        r is Some <==> sniffed_mime_of(data@) is Some,
        r is Some ==> r.unwrap()@ == sniffed_mime_of(data@).unwrap(),
{
    infer::get(data).map(|t| t.mime_type().to_string())
}

/// The MIME type guessed from a path's extension; a function of the
/// path alone.
pub uninterp spec fn guessed_mime_of(path: Seq<char>) -> Option<Seq<char>>;

/// Relies on mime_guess::from_path: the first MIME type guessed from
/// the path's extension, a function of the path alone.
#[verifier::external_body]
fn guess_mime(path: &str) -> (r: Option<String>)
    ensures
        r is Some <==> guessed_mime_of(path@) is Some,
        r is Some ==> r.unwrap()@ == guessed_mime_of(path@).unwrap(),
{
    mime_guess::from_path(path).first().map(|m| m.to_string())
}

/// The classification rule: content sniffing decides; only when it is
/// inconclusive does the extension-based guess count.
pub open spec fn spec_classify_mime(sniff: Seq<u8>, path: Seq<char>) -> Option<Seq<char>> {
    match sniffed_mime_of(sniff) {
        Some(m) => Some(m),
        None => guessed_mime_of(path),
    }
}

/// Classifies a file's MIME type from a leading window of its content,
/// falling back to its path's extension.
pub fn classify_mime(sniff: &[u8], path: &str) -> (r: Option<String>)
    ensures
        r is Some <==> spec_classify_mime(sniff@, path@) is Some,
        r is Some ==> r.unwrap()@ == spec_classify_mime(sniff@, path@).unwrap(),
{
    match sniff_mime(sniff) {
        Some(m) => Some(m),
        None => guess_mime(path),
    }
}

/// How many leading bytes are sniffed for MIME classification.
pub const MIME_SNIFF_WINDOW: usize = 1024;

/// The leading window of a file's content that MIME sniffing sees.
pub open spec fn sniff_window(data: Seq<u8>) -> Seq<u8> {
    if data.len() < MIME_SNIFF_WINDOW {
        data
    } else {
        data.take(MIME_SNIFF_WINDOW as int)
    }
}

/// The index row a scan produces for one file: its content digest, its
/// MIME classification, and the timestamps as the filesystem reported
/// them (unix microseconds, each possibly unavailable).
pub fn build_location(
    path: String,
    data: &[u8],
    timestamp: i64,
    created_at: Option<i64>,
    modified_at: Option<i64>,
    accessed_at: Option<i64>,
) -> (r: FileLocation)
    ensures
        r@ == (LocationView {
            path: path@,
            hash: Some(sha256_of(data@)),
            size: data@.len() as u64,
            mime_type: spec_classify_mime(sniff_window(data@), path@),
            timestamp,
            created_at,
            modified_at,
            accessed_at,
        }),
{
    let n = data.len();
    let window = if n < MIME_SNIFF_WINDOW {
        n
    } else {
        MIME_SNIFF_WINDOW
    };
    let sniff = slice_subrange(data, 0, window);
    proof {
        assert(sniff@ =~= sniff_window(data@));
    }
    let mime_type = classify_mime(sniff, path.as_str());
    let hash = sha256(data);
    FileLocation {
        path,
        hash: Some(hash),
        size: n as u64,
        mime_type,
        timestamp,
        created_at,
        modified_at,
        accessed_at,
    }
}

} // verus!
