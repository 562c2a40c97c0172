use vstd::prelude::*;

use crate::jav_config::ClientFile;
use crate::text::{decimal, decimal_string};

verus! {

/// The CRC-32 (ISO-HDLC) checksum of a byte sequence.
pub uninterp spec fn crc32_iso_hdlc(data: Seq<u8>) -> u32;

/// What an LZMA stream decodes to, or `None` where it is corrupt or truncated.
pub uninterp spec fn lzma_decoded(data: Seq<u8>) -> Option<Seq<u8>>;

/// `lzma_rs::error::Error`, carried from the decoder to the point where it is
/// mapped to this library's own error.
#[verifier::external_type_specification]
#[verifier::external_body]
pub struct ExLzmaError(lzma_rs::error::Error);

/// Relies on `crc::Crc::<u32>::checksum` with `crc::CRC_32_ISO_HDLC`: the
/// checksum depends on the bytes alone.
#[verifier::external_body]
fn crc32(data: &[u8]) -> (r: u32)
    ensures
        r == crc32_iso_hdlc(data@),
{
    crc::Crc::<u32>::new(&crc::CRC_32_ISO_HDLC).checksum(data)
}

/// Relies on `lzma_rs::lzma_decompress`, reading from a byte slice and writing
/// to a vector: neither side fails, so the outcome depends on the input alone.
#[verifier::external_body]
fn lzma_decompress(data: &[u8]) -> (r: Result<Vec<u8>, lzma_rs::error::Error>)
    ensures
        match r {
            Ok(out) => lzma_decoded(data@) == Some(out@),
            Err(_) => lzma_decoded(data@) is None,
        },
{
    let mut input = data;
    let mut out: Vec<u8> = Vec::new();
    match lzma_rs::lzma_decompress(&mut input, &mut out) {
        Ok(()) => Ok(out),
        Err(e) => Err(e),
    }
}

/// The checksum that the cache compares: CRC-32 (ISO-HDLC) of a file's contents.
pub fn get_crc(contents: &[u8]) -> (r: u32)
    ensures
        r == crc32_iso_hdlc(contents@),
{
    crc32(contents)
}

/// The address a manifest file is downloaded from:
/// `{base_url}&fileName={name}&crc={crc}`.
pub open spec fn download_url_of(base_url: Seq<char>, file: (Seq<char>, Seq<char>, Seq<char>)) -> Seq<char> {
    base_url + "&fileName="@ + file.0 + "&crc="@ + file.1
}

/// Whether a local copy with checksum `local_crc` is current for `file`: its
/// decimal form equals the expected checksum text.
pub open spec fn is_current(file: (Seq<char>, Seq<char>, Seq<char>), local_crc: u32) -> bool {
    decimal(local_crc as nat) == file.1
}

/// What synchronizing `file` does, given the checksum of its local copy if
/// there is one: nothing (`None`), or a download from the returned address.
pub open spec fn planned_download(
    file: (Seq<char>, Seq<char>, Seq<char>),
    base_url: Seq<char>,
    local_crc: Option<u32>,
) -> Option<Seq<char>> {
    match local_crc {
        Some(c) if is_current(file, c) => None,
        _ => Some(download_url_of(base_url, file)),
    }
}

/// The checksum of a local copy, where there is one.
pub open spec fn local_crc_of(local: Option<Seq<u8>>) -> Option<u32> {
    match local {
        Some(b) => Some(crc32_iso_hdlc(b)),
        None => None,
    }
}

/// What the synchronizer does for one manifest file.
#[derive(Clone, Debug)]
pub enum SyncAction {
    /// The local copy is current: nothing to fetch.
    Skip,
    /// Fetch the file from this address and store it decompressed.
    Download { url: String },
}

impl View for SyncAction {
    type V = Option<Seq<char>>;

    /// `None` for a skip, else the address to download from.
    open spec fn view(&self) -> Option<Seq<char>> {
        match self {
            SyncAction::Skip => None,
            SyncAction::Download { url } => Some(url@),
        }
    }
}

/// The download address of `file` under `base_url`.
pub fn download_url(file: &ClientFile, base_url: &str) -> (r: String)
    ensures
        r@ == download_url_of(base_url@, file@),
{
    let mut url = String::from_str(base_url);
    url.append("&fileName=");
    url.append(file.name.as_str());
    url.append("&crc=");
    url.append(file.crc.as_str());
    url
}

/// Whether a local copy with checksum `local_crc` is current for `file`.
pub fn crc_matches(file: &ClientFile, local_crc: u32) -> (r: bool)
    ensures
        r == is_current(file@, local_crc),
{
    let text = decimal_string(local_crc);
    text == file.crc
}

/// Decides what to do for `file` from the checksum of its local copy (`None`
/// where the file is absent).
pub fn plan_for_crc(file: &ClientFile, base_url: &str, local_crc: Option<u32>) -> (r: SyncAction)
    ensures
        r@ == planned_download(file@, base_url@, local_crc),
{
    match local_crc {
        Some(c) => {
            if crc_matches(file, c) {
                return SyncAction::Skip;
            }
        },
        None => {},
    }
    SyncAction::Download { url: download_url(file, base_url) }
}

/// Decides what to do for `file` from the contents of its local copy (`None`
/// where the file is absent): skip it where the checksum of the contents
/// matches, else download it.
pub fn plan_fetch(file: &ClientFile, base_url: &str, local: Option<&[u8]>) -> (r: SyncAction)
    ensures
        r@ == planned_download(
            file@,
            base_url@,
            local_crc_of(
                match local {
                    Some(b) => Some(b@),
                    None => None,
                },
            ),
        ),
{
    let local_crc = match local {
        Some(b) => Some(get_crc(b)),
        None => None,
    };
    plan_for_crc(file, base_url, local_crc)
}

/// The checksum of the cached copy of `name`, where there is one.
pub open spec fn cached_crc(cache: Map<Seq<char>, Seq<u8>>, name: Seq<char>) -> Option<u32> {
    if cache.contains_key(name) {
        Some(crc32_iso_hdlc(cache[name]))
    } else {
        None
    }
}

/// The addresses that a synchronization run over `files` fetches, in order.
pub open spec fn downloads(
    files: Seq<(Seq<char>, Seq<char>, Seq<char>)>,
    base_url: Seq<char>,
    cache: Map<Seq<char>, Seq<u8>>,
) -> Seq<Seq<char>>
    decreases files.len(),
{
    if files.len() == 0 {
        Seq::empty()
    } else {
        let f = files.last();
        let earlier = downloads(files.drop_last(), base_url, cache);
        match planned_download(f, base_url, cached_crc(cache, f.0)) {
            Some(url) => earlier.push(url),
            None => earlier,
        }
    }
}

/// The cache after a synchronization run over `files`, where each address
/// serves the contents that `served` gives for it.
pub open spec fn cache_after(
    files: Seq<(Seq<char>, Seq<char>, Seq<char>)>,
    base_url: Seq<char>,
    cache: Map<Seq<char>, Seq<u8>>,
    served: spec_fn(Seq<char>) -> Seq<u8>,
) -> Map<Seq<char>, Seq<u8>>
    decreases files.len(),
{
    if files.len() == 0 {
        cache
    } else {
        let f = files.last();
        let earlier = cache_after(files.drop_last(), base_url, cache, served);
        match planned_download(f, base_url, cached_crc(cache, f.0)) {
            Some(url) => earlier.insert(f.0, served(url)),
            None => earlier,
        }
    }
}

/// Against a cache that holds a current copy of every manifest file, a
/// synchronization run fetches nothing and leaves the cache as it was, so a
/// second run fetches nothing either.
pub proof fn lemma_sync_idempotent(
    files: Seq<(Seq<char>, Seq<char>, Seq<char>)>,
    base_url: Seq<char>,
    cache: Map<Seq<char>, Seq<u8>>,
    served: spec_fn(Seq<char>) -> Seq<u8>,
)
    requires
        forall|i: int|
            0 <= i < files.len() ==> #[trigger] cache.contains_key(files[i].0) && is_current(
                files[i],
                crc32_iso_hdlc(cache[files[i].0]),
            ),
    ensures
        downloads(files, base_url, cache).len() == 0,
        cache_after(files, base_url, cache, served) == cache,
        downloads(files, base_url, cache_after(files, base_url, cache, served)).len() == 0,
    decreases files.len(),
{
    if files.len() > 0 {
        let rest = files.drop_last();
        assert forall|i: int| 0 <= i < rest.len() implies #[trigger] cache.contains_key(rest[i].0)
            && is_current(rest[i], crc32_iso_hdlc(cache[rest[i].0])) by {
            assert(rest[i] == files[i]);
        }
        lemma_sync_idempotent(rest, base_url, cache, served);
        assert(cache.contains_key(files[files.len() - 1].0));
    }
}

/// Why a download could not be turned into file contents.
#[derive(Clone, Debug)]
pub enum FetchError {
    /// The server answered with this status, which is not a success.
    HttpStatus { status: u16 },
    /// The body is not a valid LZMA stream.
    Decompress,
}

/// Whether an HTTP status is an error: anything but a success (2xx).
pub open spec fn is_error_status(status: u16) -> bool {
    !(200 <= status <= 299)
}

/// Turns a download response into the file contents: refuses any status but
/// a success, then decompresses the LZMA body.
pub fn decode_response(status: u16, body: &[u8]) -> (r: Result<Vec<u8>, FetchError>)
    ensures
        is_error_status(status) ==> (r matches Err(FetchError::HttpStatus { status: s }) && s == status),
        !is_error_status(status) ==> match lzma_decoded(body@) {
            Some(out) => r is Ok && r->Ok_0@ == out,
            None => r matches Err(FetchError::Decompress),
        },
{
    if !(200 <= status && status <= 299) {
        return Err(FetchError::HttpStatus { status });
    }
    match lzma_decompress(body) {
        Ok(out) => Ok(out),
        Err(_) => Err(FetchError::Decompress),
    }
}

} // verus!
