//! The calls into the compression libraries.
//!
//! What a library packs or unpacks is given a name here; the rest of the crate speaks of the
//! names and of the one fact that ties them together: unpacking gives back what was packed.
//! Nothing longer than a frame can hold, 65,535 bytes, is packed or unpacked.

use std::io::{Read, Write};
use vstd::prelude::*;

verus! {

/// The bytes inside an optional vector.
pub open spec fn bytes_of(data: Option<Vec<u8>>) -> Option<Seq<u8>> {
    match data {
        Some(d) => Some(d@),
        None => None,
    }
}

/// The bytes, where there are at most `room` of them.
pub open spec fn fitting(data: Option<Seq<u8>>, room: nat) -> Option<Seq<u8>> {
    match data {
        Some(d) => if d.len() <= room {
            Some(d)
        } else {
            None
        },
        None => None,
    }
}

/// What `flate2::write::ZlibEncoder` makes of `data` at a level.
pub uninterp spec fn zlib_packed(data: Seq<u8>, level: u32) -> Option<Seq<u8>>;

/// What the first `room` bytes out of `flate2::read::ZlibDecoder` are for `data`.
pub uninterp spec fn zlib_unpacked(data: Seq<u8>, room: nat) -> Option<Seq<u8>>;

/// What `flate2::write::GzEncoder` makes of `data` at a level.
pub uninterp spec fn gz_packed(data: Seq<u8>, level: u32) -> Option<Seq<u8>>;

/// What the first `room` bytes out of `flate2::read::GzDecoder` are for `data`.
pub uninterp spec fn gz_unpacked(data: Seq<u8>, room: nat) -> Option<Seq<u8>>;

/// What `zstd::bulk::compress` makes of `data` at a level.
pub uninterp spec fn zstd_packed(data: Seq<u8>, level: i32) -> Option<Seq<u8>>;

/// What `zstd::bulk::decompress` makes of `data`, as far as it fits in `room` bytes.
pub uninterp spec fn zstd_unpacked(data: Seq<u8>, room: nat) -> Option<Seq<u8>>;

/// Packs `data` with `flate2::write::ZlibEncoder`: new, `write_all`, `finish`.
///
/// Claimed: the outcome depends on the data and the level alone, and a decoder that is stopped
/// after as many bytes as went in gives those bytes back. Levels above 10 are left out because
/// the encoder asserts against them in debug builds.
#[verifier::external_body]
pub(crate) fn zlib_pack(data: &[u8], level: u32) -> (packed: Option<Vec<u8>>)
    requires
        level <= 10,
        data@.len() <= 0xffff,
    ensures
        bytes_of(packed) == zlib_packed(data@, level),
        packed matches Some(p) ==> zlib_unpacked(p@, data@.len()) == Some(data@),
{
    let mut encoder =
        flate2::write::ZlibEncoder::new(Vec::new(), flate2::Compression::new(level));
    encoder.write_all(data).ok()?;
    encoder.finish().ok()
}

/// Packs `data` with `flate2::write::GzEncoder`: new, `write_all`, `finish`.
///
/// Claimed: as for zlib. The encoder writes no time stamp and no operating system into the
/// header, so the outcome depends on the data and the level alone.
#[verifier::external_body]
pub(crate) fn gz_pack(data: &[u8], level: u32) -> (packed: Option<Vec<u8>>)
    requires
        level <= 10,
        data@.len() <= 0xffff,
    ensures
        bytes_of(packed) == gz_packed(data@, level),
        packed matches Some(p) ==> gz_unpacked(p@, data@.len()) == Some(data@),
{
    let mut encoder = flate2::write::GzEncoder::new(Vec::new(), flate2::Compression::new(level));
    encoder.write_all(data).ok()?;
    encoder.finish().ok()
}

/// Packs `data` with `zstd::bulk::compress`.
///
/// Claimed: the outcome depends on the data and the level alone, and unpacking it with room for
/// as many bytes as went in gives those bytes back.
#[verifier::external_body]
pub(crate) fn zstd_pack(data: &[u8], level: i32) -> (packed: Option<Vec<u8>>)
    requires
        data@.len() <= 0xffff,
    ensures
        bytes_of(packed) == zstd_packed(data@, level),
        packed matches Some(p) ==> zstd_unpacked(p@, data@.len()) == Some(data@),
{
    zstd::bulk::compress(data, level).ok()
}

/// Reads at most `room` bytes out of `flate2::read::ZlibDecoder`.
///
/// Claimed: the outcome depends on the data and the room alone.
#[verifier::external_body]
pub(crate) fn zlib_unpack(data: &[u8], room: usize) -> (content: Option<Vec<u8>>)
    requires
        room <= 0xffff,
    ensures
        bytes_of(content) == zlib_unpacked(data@, room as nat),
{
    let mut decoder = flate2::read::ZlibDecoder::new(data).take(room as u64);
    let mut content: Vec<u8> = Vec::with_capacity(room);
    decoder.read_to_end(&mut content).ok()?;
    Some(content)
}

/// Reads at most `room` bytes out of `flate2::read::GzDecoder`.
///
/// Claimed: the outcome depends on the data and the room alone.
#[verifier::external_body]
pub(crate) fn gz_unpack(data: &[u8], room: usize) -> (content: Option<Vec<u8>>)
    requires
        room <= 0xffff,
    ensures
        bytes_of(content) == gz_unpacked(data@, room as nat),
{
    let mut decoder = flate2::read::GzDecoder::new(data).take(room as u64);
    let mut content: Vec<u8> = Vec::with_capacity(room);
    decoder.read_to_end(&mut content).ok()?;
    Some(content)
}

/// Unpacks `data` with `zstd::bulk::decompress`.
///
/// Claimed: what comes out in at most `room` bytes depends on the data and the room alone. The
/// call hands its decoder a vector of at least that capacity, so a longer result is possible
/// where the allocator rounds up; nothing is claimed of one.
#[verifier::external_body]
pub(crate) fn zstd_unpack(data: &[u8], room: usize) -> (content: Option<Vec<u8>>)
    requires
        room <= 0xffff,
    ensures
        fitting(bytes_of(content), room as nat) == zstd_unpacked(data@, room as nat),
{
    zstd::bulk::decompress(data, room).ok()
}

} // verus!
