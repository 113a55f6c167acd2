use std::io::{Read, Write};

use sha1::Digest;
use vstd::prelude::*;
use vstd::utf8::{decode_utf8, valid_utf8};

use crate::git::objects::{TreeEntry, entries_view, name_key};
use crate::git::order::bytes_lt;

verus! {

/// The SHA-1 digest of `data`.
pub uninterp spec fn sha1_of(data: Seq<u8>) -> Seq<u8>;

/// The zlib stream that flate2 produces for `data` at the default level.
pub uninterp spec fn zlib_compressed(data: Seq<u8>) -> Seq<u8>;

/// What flate2's zlib decoder makes of `data`: the inflated bytes, or
/// `None` where `data` is not a complete zlib stream.
pub uninterp spec fn zlib_decompressed(data: Seq<u8>) -> Option<Seq<u8>>;

/// The text that `std` makes of `data` by lossy UTF-8 decoding: each
/// invalid sequence becomes U+FFFD.
pub uninterp spec fn lossy_text(data: Seq<u8>) -> Seq<char>;

/// Relies on `sha1::Sha1` (through `digest::Digest`): the 20-byte SHA-1
/// digest of `data`, which depends on the bytes alone.
#[verifier::external_body]
pub(crate) fn sha1_digest(data: &[u8]) -> (r: crate::git::objects::Hash)
    ensures
        r@ == sha1_of(data@),
{
    let mut hasher = sha1::Sha1::new();
    hasher.update(data);
    hasher.finalize().into()
}

/// Relies on `flate2::write::ZlibEncoder` at `Compression::default()`: the
/// zlib stream for `data`. Writing into a `Vec` never fails.
#[verifier::external_body]
pub(crate) fn zlib_compress(data: &[u8]) -> (r: Vec<u8>)
    ensures
        r@ == zlib_compressed(data@),
{
    let mut encoder = flate2::write::ZlibEncoder::new(Vec::new(), flate2::Compression::default());
    encoder.write_all(data).expect("writing into a Vec cannot fail");
    encoder.finish().expect("writing into a Vec cannot fail")
}

/// Relies on `flate2::read::ZlibDecoder` read to the end: the inflated
/// bytes, or `None` on a stream it rejects. A stream that the encoder made
/// from `x` inflates back to `x`.
#[verifier::external_body]
pub(crate) fn zlib_decompress(data: &[u8]) -> (r: Option<Vec<u8>>)
    ensures
        r is Some <==> zlib_decompressed(data@) is Some,
        r is Some ==> r->Some_0@ == zlib_decompressed(data@)->Some_0,
        forall|x: Seq<u8>|
            #[trigger] zlib_compressed(x) == data@ ==> r is Some && r->Some_0@ == x,
{
    let mut decoder = flate2::read::ZlibDecoder::new(data);
    let mut out: Vec<u8> = Vec::new();
    match decoder.read_to_end(&mut out) {
        Ok(_) => Some(out),
        Err(_) => None,
    }
}

/// Relies on `std::str::from_utf8`: the text that `bytes` encode, or `None`
/// where they are not valid UTF-8.
#[verifier::external_body]
pub(crate) fn utf8_text(bytes: &[u8]) -> (r: Option<&str>)
    ensures
        r is Some <==> valid_utf8(bytes@),
        r is Some ==> r->Some_0@ == decode_utf8(bytes@),
{
    std::str::from_utf8(bytes).ok()
}

/// Relies on `String::from_utf8_lossy`: the text of `bytes`, with U+FFFD
/// for each invalid sequence; valid UTF-8 decodes exactly.
#[verifier::external_body]
pub(crate) fn utf8_lossy(bytes: &[u8]) -> (r: String)
    ensures
        r@ == lossy_text(bytes@),
        valid_utf8(bytes@) ==> r@ == decode_utf8(bytes@),
{
    String::from_utf8_lossy(bytes).into_owned()
}

/// Relies on `String::push`: appends one character.
#[verifier::external_body]
pub(crate) fn push_char(s: &mut String, c: char)
    ensures
        final(s)@ == old(s)@.push(c),
{
    s.push(c)
}

/// Relies on `slice::sort_by`: given a total order (here `compare_names`,
/// which orders the names' bytes), it rearranges the entries so that none
/// compares greater than a later one.
#[verifier::external_body]
pub(crate) fn sort_by_name(entries: &mut Vec<TreeEntry>)
    ensures
        entries_view(final(entries)@).to_multiset() == entries_view(old(entries)@).to_multiset(),
        forall|i: int, j: int|
            0 <= i < j < final(entries)@.len() ==> !bytes_lt(
                name_key(final(entries)@[j]@),
                name_key(final(entries)@[i]@),
            ),
{
    entries.sort_by(|a, b| crate::git::tree::compare_names(a, b))
}

} // verus!
