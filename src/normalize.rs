//! Format normalization: from a downloaded sticker payload to the canonical
//! bytes, dimensions and file name that are uploaded, and the fingerprint and
//! mimetype of the result.
use vstd::prelude::*;
use crate::text::{ends_with, is_suffix_of};

verus! {

/// The SHA-512 digest of a byte sequence.
pub uninterp spec fn sha512_of(b: Seq<u8>) -> Seq<u8>;

/// The content of a complete gzip stream, or `None` when it is malformed.
pub uninterp spec fn gunzip_of(b: Seq<u8>) -> Option<Seq<u8>>;

/// The (width, height) that a WebP header declares, or `None` when the header
/// cannot be read.
pub uninterp spec fn webp_info_of(b: Seq<u8>) -> Option<(u32, u32)>;

/// Relies on sha2's `Sha512` (`Digest::digest`): the 64-byte SHA-512 digest of
/// the input.
#[verifier::external_body]
fn sha512(data: &[u8]) -> (r: Vec<u8>)
    ensures
        r@ == sha512_of(data@),
        r@.len() == 64,
{
    <sha2::Sha512 as sha2::Digest>::digest(data).to_vec()
}

/// Relies on flate2's `write::GzDecoder` (`write_all` then `finish`): the
/// decompressed content of the gzip stream, or an error for a malformed or
/// truncated stream.
#[verifier::external_body]
fn gunzip(data: &[u8]) -> (r: Option<Vec<u8>>)
    ensures
        r matches Some(v) ==> gunzip_of(data@) == Some(v@),
        r is None ==> gunzip_of(data@) is None,
{
    let mut decoder = flate2::write::GzDecoder::new(Vec::new());
    std::io::Write::write_all(&mut decoder, data).ok()?;
    decoder.finish().ok()
}

/// Relies on libwebp's `WebPGetInfo`: reads width and height from a WebP
/// header without decoding the image.
#[verifier::external_body]
fn webp_info(data: &[u8]) -> (r: Option<(u32, u32)>)
    ensures
        r == webp_info_of(data@),
{
    libwebp::WebPGetInfo(data).ok()
}

/// Why a payload could not be normalized.
#[derive(Clone, Copy, Debug, PartialEq, Eq)]
pub enum NormalizeError {
    /// The animation payload is not a well-formed gzip stream.
    Decompress,
    /// The decompressed animation document could not be parsed or converted.
    Animation,
    /// The raster header could not be read.
    RasterHeader,
    /// The final file name has no extension to derive a mimetype from.
    Mimetype,
}

/// A normalized sticker: the bytes to upload, their dimensions and a file
/// name whose extension gives the mimetype.
#[derive(Clone, Debug)]
pub struct NormalizedPayload {
    pub data: Vec<u8>,
    pub path: String,
    pub width: u32,
    pub height: u32,
}

pub open spec fn animation_ext() -> Seq<char> {
    ".tgs"@
}

pub open spec fn converted_ext() -> Seq<char> {
    ".gif"@
}

pub open spec fn document_ext() -> Seq<char> {
    ".json"@
}

/// Whether a payload with this file name is a compressed animation.
pub fn is_animation(path: &str) -> (r: bool)
    ensures
        r == is_suffix_of(animation_ext(), path@),
{
    ends_with(path, ".tgs")
}

/// The content fingerprint of normalized bytes.
pub fn fingerprint(data: &Vec<u8>) -> (r: Vec<u8>)
    ensures
        r@ == sha512_of(data@),
        r@.len() == 64,
{
    sha512(data.as_slice())
}

/// Decompress an animation payload.
pub fn decompress_animation(data: &Vec<u8>) -> (r: Result<Vec<u8>, NormalizeError>)
    ensures
        r matches Ok(v) ==> gunzip_of(data@) == Some(v@),
        r matches Err(e) ==> gunzip_of(data@) is None && e == NormalizeError::Decompress,
{
    match gunzip(data.as_slice()) {
        Some(v) => Ok(v),
        None => Err(NormalizeError::Decompress),
    }
}

/// The payload of an animation: the converted raster when there is one (its
/// name gains `.gif`), else the decompressed document itself (its name gains
/// `.json`). The dimensions are the document's own.
pub fn animation_payload(
    document: Vec<u8>,
    converted: Option<Vec<u8>>,
    path: String,
    width: u32,
    height: u32,
) -> (r: NormalizedPayload)
    ensures
        r.width == width,
        r.height == height,
        converted matches Some(c) ==> r.data@ == c@ && r.path@ == path@ + converted_ext(),
        converted is None ==> r.data@ == document@ && r.path@ == path@ + document_ext(),
{
    let mut path = path;
    match converted {
        Some(c) => {
            path.append(".gif");
            NormalizedPayload { data: c, path, width, height }
        },
        None => {
            path.append(".json");
            NormalizedPayload { data: document, path, width, height }
        },
    }
}

/// The payload of a still raster: bytes and name unchanged, dimensions read
/// from its header.
pub fn raster_payload(data: Vec<u8>, path: String) -> (r: Result<NormalizedPayload, NormalizeError>)
    ensures
        r matches Ok(p) ==> webp_info_of(data@) == Some((p.width, p.height)) && p.data@ == data@
            && p.path@ == path@,
        r matches Err(e) ==> webp_info_of(data@) is None && e == NormalizeError::RasterHeader,
{
    match webp_info(data.as_slice()) {
        Some((width, height)) => Ok(NormalizedPayload { data, path, width, height }),
        None => Err(NormalizeError::RasterHeader),
    }
}

/// The first stage of normalization.
#[derive(Clone, Debug)]
pub enum NormalizeStep {
    /// A still raster: normalization is complete.
    Ready(NormalizedPayload),
    /// An animation: the decompressed document and the payload's name; the
    /// document is still to be parsed for its dimensions and, unless
    /// formatting is off, converted (see `animation_payload`).
    Animation(Vec<u8>, String),
}

/// Start normalizing a downloaded payload named `path`: an animation
/// (`.tgs`) is decompressed, anything else is read as a raster.
pub fn normalize(data: Vec<u8>, path: String) -> (r: Result<NormalizeStep, NormalizeError>)
    ensures
        is_suffix_of(animation_ext(), path@) ==> match gunzip_of(data@) {
            Some(doc) => r matches Ok(NormalizeStep::Animation(d, p)) && d@ == doc && p@ == path@,
            None => r matches Err(NormalizeError::Decompress),
        },
        !is_suffix_of(animation_ext(), path@) ==> match webp_info_of(data@) {
            Some((w, h)) => r matches Ok(NormalizeStep::Ready(p)) && p.data@ == data@ && p.path@
                == path@ && p.width == w && p.height == h,
            None => r matches Err(NormalizeError::RasterHeader),
        },
{
    if is_animation(path.as_str()) {
        match decompress_animation(&data) {
            Ok(doc) => Ok(NormalizeStep::Animation(doc, path)),
            Err(e) => Err(e),
        }
    } else {
        match raster_payload(data, path) {
            Ok(p) => Ok(NormalizeStep::Ready(p)),
            Err(e) => Err(e),
        }
    }
}

/// Index of the last occurrence of `c` in `s`, or -1.
pub open spec fn last_index(s: Seq<char>, c: char) -> int
    decreases s.len(),
{
    if s.len() == 0 {
        -1
    } else if s.last() == c {
        s.len() - 1
    } else {
        last_index(s.drop_last(), c)
    }
}

/// The last component of a `/`-separated path.
pub open spec fn file_name(path: Seq<char>) -> Seq<char> {
    path.subrange(last_index(path, '/') + 1, path.len() as int)
}

/// The extension of a path: what follows the last `.` of its file name,
/// provided that dot is not the file name's first character.
pub open spec fn extension(path: Seq<char>) -> Option<Seq<char>> {
    let name = file_name(path);
    let d = last_index(name, '.');
    if d <= 0 {
        None
    } else {
        Some(name.subrange(d + 1, name.len() as int))
    }
}

pub open spec fn mime_prefix() -> Seq<char> {
    "image/"@
}

proof fn lemma_last_index_prefix(s: Seq<char>, c: char, m: int)
    requires
        0 <= m <= s.len(),
        forall|j: int| m <= j < s.len() ==> s[j] != c,
    ensures
        last_index(s, c) == last_index(s.take(m), c),
        -1 <= last_index(s, c) < m,
        last_index(s, c) >= 0 ==> s[last_index(s, c)] == c,
    decreases s.len(),
{
    if s.len() == m {
        assert(s.take(m) =~= s);
        lemma_last_index_bounds(s, c);
    } else {
        lemma_last_index_prefix(s.drop_last(), c, m);
        assert(s.drop_last().take(m) =~= s.take(m));
    }
}

proof fn lemma_last_index_bounds(s: Seq<char>, c: char)
    ensures
        -1 <= last_index(s, c) < s.len(),
        last_index(s, c) >= 0 ==> s[last_index(s, c)] == c,
    decreases s.len(),
{
    if s.len() > 0 && s.last() != c {
        lemma_last_index_bounds(s.drop_last(), c);
    }
}

/// One past the position of the last `c` in `s`, or 0 when there is none.
fn find_last(s: &str, c: char) -> (r: usize)
    ensures
        r as int == last_index(s@, c) + 1,
        r <= s@.len(),
{
    proof {
        lemma_last_index_bounds(s@, c);
    }
    let mut i: usize = s.unicode_len();
    while i > 0
        invariant
            i <= s@.len(),
            forall|j: int| i <= j < s@.len() ==> s@[j] != c,
        decreases i,
    {
        if s.get_char(i - 1) == c {
            proof {
                lemma_last_index_prefix(s@, c, i as int);
                assert(s@.take(i as int).drop_last() =~= s@.take(i - 1));
            }
            return i;
        }
        i = i - 1;
    }
    proof {
        lemma_last_index_prefix(s@, c, 0);
    }
    0
}

/// The mimetype of a file name: `image/` followed by its extension.
pub fn mimetype_of(path: &str) -> (r: Result<String, NormalizeError>)
    ensures
        r matches Ok(m) ==> extension(path@) matches Some(ext) && m@ == mime_prefix() + ext,
        r matches Err(e) ==> extension(path@) is None && e == NormalizeError::Mimetype,
{
    let n = path.unicode_len();
    let start = find_last(path, '/');
    let name = path.substring_char(start, n);
    assert(name@ == file_name(path@));
    let dot = find_last(name, '.');
    if dot <= 1 {
        return Err(NormalizeError::Mimetype);
    }
    let ext = name.substring_char(dot, name.unicode_len());
    let mut m = String::from_str("image/");
    m.append(ext);
    Ok(m)
}

} // verus!
