//! Framed compression: every block carries a magic header, so that the receiving side can tell a
//! frame from ordinary traffic.
//!
//! A frame is the magic, one byte of flags, one byte that tells the codec, the length of the
//! content and the length of the payload (two bytes each, little endian), and the payload.

use crate::backend;
use crate::text;
use vstd::prelude::*;
use vstd::slice::*;
use vstd::string::*;

verus! {

/// The four bytes `IPBZ`.
pub const MAGIC: [u8; 4] = [0x49, 0x50, 0x42, 0x5a];

pub const HEADER_LEN: usize = 10;

pub const FLAG_COMPRESSED: u8 = 0x01;

#[derive(Debug, Clone, Copy, PartialEq, Eq, Structural)]
pub enum Codec {
    Zlib,
    Gz,
    Zstd,
}

/// The byte that stands for a codec in a frame.
pub open spec fn codec_id(codec: Codec) -> u8 {
    match codec {
        Codec::Zlib => 1,
        Codec::Gz => 2,
        Codec::Zstd => 3,
    }
}

/// The codec that a byte stands for.
pub open spec fn codec_of_id(id: u8) -> Option<Codec> {
    if id == 1 {
        Some(Codec::Zlib)
    } else if id == 2 {
        Some(Codec::Gz)
    } else if id == 3 {
        Some(Codec::Zstd)
    } else {
        None
    }
}

/// The name that a configuration writes for a codec.
pub open spec fn codec_name(codec: Codec) -> Seq<char> {
    match codec {
        Codec::Zlib => "zlib"@,
        Codec::Gz => "gz"@,
        Codec::Zstd => "zstd"@,
    }
}

/// The codec that a name stands for.
pub open spec fn codec_of_name(name: Seq<char>) -> Option<Codec> {
    if name == "zlib"@ {
        Some(Codec::Zlib)
    } else if name == "gz"@ {
        Some(Codec::Gz)
    } else if name == "zstd"@ {
        Some(Codec::Zstd)
    } else {
        None
    }
}

/// The lowest and the highest level that a codec may be configured with.
pub open spec fn level_range(codec: Codec) -> (i32, i32) {
    match codec {
        Codec::Zlib => (1, 9),
        Codec::Gz => (1, 9),
        Codec::Zstd => (1, 22),
    }
}

/// The level that a codec works at when none is given.
pub open spec fn standard_level(codec: Codec) -> i32 {
    match codec {
        Codec::Zlib => 6,
        Codec::Gz => 6,
        Codec::Zstd => 3,
    }
}

impl Codec {
    pub fn id(self) -> (id: u8)
        ensures
            id == codec_id(self),
    {
        match self {
            Codec::Zlib => 1,
            Codec::Gz => 2,
            Codec::Zstd => 3,
        }
    }

    pub fn from_id(id: u8) -> (codec: Option<Codec>)
        ensures
            codec == codec_of_id(id),
    {
        match id {
            1 => Some(Codec::Zlib),
            2 => Some(Codec::Gz),
            3 => Some(Codec::Zstd),
            _ => None,
        }
    }

    pub fn name(self) -> (name: &'static str)
        ensures
            name@ == codec_name(self),
    {
        match self {
            Codec::Zlib => "zlib",
            Codec::Gz => "gz",
            Codec::Zstd => "zstd",
        }
    }

    pub fn from_name(s: &str) -> (codec: Option<Codec>)
        ensures
            codec == codec_of_name(s@),
    {
        if text::same_text(s, "zlib") {
            Some(Codec::Zlib)
        } else if text::same_text(s, "gz") {
            Some(Codec::Gz)
        } else if text::same_text(s, "zstd") {
            Some(Codec::Zstd)
        } else {
            None
        }
    }
}

pub fn default_level(codec: Codec) -> (level: i32)
    ensures
        level == standard_level(codec),
{
    match codec {
        Codec::Zlib => 6,
        Codec::Gz => 6,
        Codec::Zstd => 3,
    }
}

/// A codec and the level it works at.
#[derive(Debug, Clone, Copy, PartialEq, Eq, Structural)]
pub struct Compression {
    pub codec: Codec,
    pub level: i32,
}

/// The text of the error for a level out of range.
pub open spec fn level_error(c: Compression) -> Seq<char> {
    let (lo, hi) = level_range(c.codec);
    "compression level "@ + text::decimal_int(c.level as int) + " out of range for "@ + codec_name(
        c.codec,
    ) + " (allowed "@ + text::decimal_int(lo as int) + "-"@ + text::decimal_int(hi as int) + ")"@
}

/// What packing with a codec at a level makes of `data`.
pub open spec fn packed_by(c: Compression, data: Seq<u8>) -> Option<Seq<u8>> {
    match c.codec {
        Codec::Zlib => backend::zlib_packed(data, c.level as u32),
        Codec::Gz => backend::gz_packed(data, c.level as u32),
        Codec::Zstd => backend::zstd_packed(data, c.level),
    }
}

/// What unpacking a payload with a codec gives in at most `room` bytes.
pub open spec fn unpacked_by(codec: Codec, payload: Seq<u8>, room: nat) -> Option<Seq<u8>> {
    match codec {
        Codec::Zlib => backend::zlib_unpacked(payload, room),
        Codec::Gz => backend::gz_unpacked(payload, room),
        Codec::Zstd => backend::zstd_unpacked(payload, room),
    }
}

impl Compression {
    /// Whether the codec's library takes the level at all. Every level that `validate` lets
    /// through is taken.
    pub open spec fn usable(self) -> bool {
        self.codec == Codec::Zstd || 0 <= self.level <= 10
    }

    pub fn new(codec: Codec, level: Option<i32>) -> (c: Self)
        ensures
            c.codec == codec,
            c.level == match level {
                Some(l) => l,
                None => standard_level(codec),
            },
    {
        let level: i32 = match level {
            Some(l) => l,
            None => default_level(codec),
        };
        Compression { codec, level }
    }

    pub fn validate(&self) -> (checked: Result<(), String>)
        ensures
            checked is Ok <==> level_range(self.codec).0 <= self.level <= level_range(self.codec).1,
            checked is Ok <==> 1 <= self.level && (self.level <= 9 || (self.codec == Codec::Zstd
                && self.level <= 22)),
            checked is Ok ==> self.usable(),
            checked matches Err(text) ==> text@ == level_error(*self),
    {
        let (lo, hi): (i32, i32) = match self.codec {
            Codec::Zlib => (1, 9),
            Codec::Gz => (1, 9),
            Codec::Zstd => (1, 22),
        };
        if self.level < lo || self.level > hi {
            let mut text = "compression level ".to_owned();
            text.append(text::decimal_int_text(self.level).as_str());
            text.append(" out of range for ");
            text.append(self.codec.name());
            text.append(" (allowed ");
            text.append(text::decimal_int_text(lo).as_str());
            text.append("-");
            text.append(text::decimal_int_text(hi).as_str());
            text.append(")");
            return Err(text);
        }
        Ok(())
    }

    /// Packs `input`, which is no longer than a frame can hold.
    pub fn try_compress(&self, input: &[u8]) -> (packed: Option<Vec<u8>>)
        requires
            self.usable(),
            input@.len() <= 0xffff,
        ensures
            backend::bytes_of(packed) == packed_by(*self, input@),
            packed matches Some(p) ==> unpacked_by(self.codec, p@, input@.len()) == Some(input@),
    {
        match self.codec {
            Codec::Zlib => backend::zlib_pack(input, self.level as u32),
            Codec::Gz => backend::gz_pack(input, self.level as u32),
            Codec::Zstd => backend::zstd_pack(input, self.level),
        }
    }
}

impl Default for Compression {
    fn default() -> (c: Self)
        ensures
            c.codec == Codec::Zlib,
            c.level == standard_level(Codec::Zlib),
    {
        Compression { codec: Codec::Zlib, level: default_level(Codec::Zlib) }
    }
}

/// Unpacks a payload into at most `cap` bytes.
pub fn decompress_payload(codec: Codec, data: &[u8], cap: usize) -> (content: Option<Vec<u8>>)
    requires
        cap <= 0xffff,
    ensures
        backend::bytes_of(content) == unpacked_by(codec, data@, cap as nat),
{
    match codec {
        Codec::Zlib => backend::zlib_unpack(data, cap),
        Codec::Gz => backend::gz_unpack(data, cap),
        Codec::Zstd => {
            let content = backend::zstd_unpack(data, cap);
            match content {
                Some(c) => if c.len() <= cap {
                    Some(c)
                } else {
                    None
                },
                None => None,
            }
        },
    }
}

/// The four bytes that every frame starts with.
pub open spec fn magic() -> Seq<u8> {
    seq![0x49u8, 0x50u8, 0x42u8, 0x5au8]
}

/// The low sixteen bits of `n`, little endian.
pub open spec fn le16(n: int) -> Seq<u8> {
    seq![(n % 256) as u8, (n / 256 % 256) as u8]
}

/// The number that the two bytes at `i` write, little endian.
pub open spec fn le16_at(s: Seq<u8>, i: int) -> int {
    s[i] + 256 * s[i + 1]
}

/// The header of a frame.
pub open spec fn frame_header(codec: Codec, compressed: bool, orig_len: int, pay_len: int) -> Seq<
    u8,
> {
    magic() + seq![
        if compressed {
            1u8
        } else {
            0u8
        },
        codec_id(codec),
    ] + le16(orig_len) + le16(pay_len)
}

/// The frame for `input`, given what packing made of it: the packed bytes where they save more
/// than the header costs, else the input as it is.
pub open spec fn frame_of(codec: Codec, input: Seq<u8>, packed: Option<Seq<u8>>) -> Seq<u8> {
    if input.len() <= 0xffff && packed is Some && packed->0.len() + HEADER_LEN < input.len() {
        frame_header(codec, true, input.len() as int, packed->0.len() as int) + packed->0
    } else {
        frame_header(codec, false, input.len() as int, input.len() as int) + input
    }
}

/// The frame that a compression writes for `input`.
pub open spec fn framed(c: Compression, input: Seq<u8>) -> Seq<u8> {
    frame_of(c.codec, input, packed_by(c, input))
}

/// Whether `s` starts with a header that names a known codec.
pub open spec fn has_header(s: Seq<u8>) -> bool {
    s.len() >= HEADER_LEN && s.take(4) == magic() && codec_of_id(s[5]) is Some
}

/// The payload that the header of `s` announces.
pub open spec fn payload_of(s: Seq<u8>) -> Seq<u8> {
    s.subrange(HEADER_LEN as int, HEADER_LEN + le16_at(s, 8))
}

/// What the frame `s` restores to where there is room for `room` bytes, if it is a frame that
/// can be restored.
pub open spec fn frame_content(s: Seq<u8>, room: nat) -> Option<Seq<u8>> {
    let orig_len = le16_at(s, 6);
    let pay_len = le16_at(s, 8);
    if !has_header(s) || orig_len > room || pay_len > s.len() - HEADER_LEN {
        None
    } else if s[4] % 2 == 0 {
        if orig_len == pay_len {
            Some(payload_of(s))
        } else {
            None
        }
    } else {
        match unpacked_by(codec_of_id(s[5])->0, payload_of(s), orig_len as nat) {
            Some(content) => if content.len() == orig_len {
                Some(content)
            } else {
                None
            },
            None => None,
        }
    }
}

/// Whether `frame` is exactly one frame, and restores to `content` wherever that fits.
pub open spec fn carries(frame: Seq<u8>, content: Seq<u8>) -> bool {
    &&& has_header(frame)
    &&& frame.len() == HEADER_LEN + le16_at(frame, 8)
    &&& forall|room: nat|
        content.len() <= room ==> #[trigger] frame_content(frame, room) == Some(content)
}

/// Appends the bytes of `data`.
fn append_bytes(out: &mut Vec<u8>, data: &[u8])
    ensures
        final(out)@ == old(out)@ + data@,
{
    out.extend_from_slice(data);
    assert(out@ =~= old(out)@ + data@);
}

fn write_u16(out: &mut Vec<u8>, n: usize)
    ensures
        final(out)@ == old(out)@ + le16(n as int),
{
    out.push((n % 256) as u8);
    out.push(((n / 256) % 256) as u8);
    assert(out@ =~= old(out)@ + le16(n as int));
}

/// Appends the header of a frame. Of each length the low sixteen bits are written.
pub fn write_header(
    out: &mut Vec<u8>,
    codec: Codec,
    compressed: bool,
    orig_len: usize,
    pay_len: usize,
)
    ensures
        final(out)@ == old(out)@ + frame_header(
            codec,
            compressed,
            orig_len as int,
            pay_len as int,
        ),
{
    append_bytes(out, &MAGIC);
    out.push(
        if compressed {
            FLAG_COMPRESSED
        } else {
            0
        },
    );
    out.push(codec.id());
    write_u16(out, orig_len);
    write_u16(out, pay_len);
    assert(MAGIC@ =~= magic());
    assert(out@ =~= old(out)@ + frame_header(codec, compressed, orig_len as int, pay_len as int));
}

/// Writes the frame for `input`, given what packing made of it.
pub fn write_frame(codec: Codec, input: &[u8], packed: Option<Vec<u8>>, out: &mut Vec<u8>)
    ensures
        final(out)@ == frame_of(codec, input@, backend::bytes_of(packed)),
{
    out.clear();
    if input.len() <= 0xffff {
        if let Some(p) = packed {
            if p.len() < input.len() && p.len() + HEADER_LEN < input.len() {
                write_header(out, codec, true, input.len(), p.len());
                append_bytes(out, p.as_slice());
                assert(out@ =~= frame_of(codec, input@, Some(p@)));
                return;
            }
        }
    }
    write_header(out, codec, false, input.len(), input.len());
    append_bytes(out, input);
    assert(out@ =~= frame_of(codec, input@, backend::bytes_of(packed)));
}

/// Frames a block of data, for UDP and TCP alike. A frame always starts with the magic. Where
/// packing does not pay, the bytes are stored as they are.
pub fn compress_frame(c: Compression, input: &[u8], out: &mut Vec<u8>)
    requires
        input@.len() <= 0xffff ==> c.usable(),
    ensures
        final(out)@ == framed(c, input@),
        input@.len() <= 0xffff ==> carries(final(out)@, input@),
{
    if input.len() > 0xffff {
        write_frame(c.codec, input, None, out);
    } else {
        let packed = c.try_compress(input);
        proof {
            law_frame_carries_its_input(c.codec, input@, backend::bytes_of(packed));
        }
        write_frame(c.codec, input, packed, out);
    }
}

proof fn lemma_le16(n: int)
    requires
        0 <= n <= 0xffff,
    ensures
        (n % 256) as u8 + 256 * ((n / 256 % 256) as u8) == n,
{
}

/// A frame carries its input, whether it was packed or stored, provided that packed bytes unpack
/// to what was packed. (`try_compress` ensures that of every input.)
pub proof fn law_frame_carries_its_input(codec: Codec, input: Seq<u8>, packed: Option<Seq<u8>>)
    requires
        input.len() <= 0xffff,
        packed matches Some(p) ==> unpacked_by(codec, p, input.len()) == Some(input),
    ensures
        carries(frame_of(codec, input, packed), input),
{
    let frame = frame_of(codec, input, packed);
    let compressed = packed is Some && packed->0.len() + HEADER_LEN < input.len();
    let payload = if compressed {
        packed->0
    } else {
        input
    };
    let header = frame_header(codec, compressed, input.len() as int, payload.len() as int);
    assert(frame == header + payload);
    assert(frame.take(4) =~= magic());
    assert(frame[4] == if compressed {
        1u8
    } else {
        0u8
    });
    assert(frame[5] == codec_id(codec));
    lemma_le16(input.len() as int);
    lemma_le16(payload.len() as int);
    assert(le16_at(frame, 6) == input.len());
    assert(le16_at(frame, 8) == payload.len());
    assert(payload_of(frame) =~= payload);
}

/// What a frame's header says.
#[derive(Debug, Clone, Copy, PartialEq, Eq, Structural)]
pub struct FrameHeader {
    pub codec: Codec,
    pub compressed: bool,
    pub orig_len: u16,
    pub pay_len: u16,
}

/// Reads the header at the start of `input`, if there is one.
pub fn read_header(input: &[u8]) -> (header: Option<FrameHeader>)
    ensures
        header is Some <==> has_header(input@),
        header matches Some(h) ==> {
            &&& Some(h.codec) == codec_of_id(input@[5])
            &&& h.compressed == (input@[4] % 2 == 1)
            &&& h.orig_len == le16_at(input@, 6)
            &&& h.pay_len == le16_at(input@, 8)
        },
{
    if input.len() < HEADER_LEN {
        return None;
    }
    if !starts_with_magic(input) {
        return None;
    }
    let codec = match Codec::from_id(input[5]) {
        Some(codec) => codec,
        None => return None,
    };
    let flags: u8 = input[4];
    assert((flags & 1 != 0) == (flags % 2 == 1)) by (bit_vector);
    Some(
        FrameHeader {
            codec,
            compressed: flags & FLAG_COMPRESSED != 0,
            orig_len: input[6] as u16 + 256 * (input[7] as u16),
            pay_len: input[8] as u16 + 256 * (input[9] as u16),
        },
    )
}

/// Whether the first four bytes are the magic.
pub fn starts_with_magic(input: &[u8]) -> (yes: bool)
    ensures
        yes == (input@.len() >= 4 && input@.take(4) == magic()),
{
    if input.len() < 4 {
        return false;
    }
    let yes = input[0] == MAGIC[0] && input[1] == MAGIC[1] && input[2] == MAGIC[2] && input[3]
        == MAGIC[3];
    proof {
        if yes {
            assert(input@.take(4) =~= magic());
        } else {
            assert(input@.take(4)[0] == input@[0]);
            assert(input@.take(4)[1] == input@[1]);
            assert(input@.take(4)[2] == input@[2]);
            assert(input@.take(4)[3] == input@[3]);
        }
    }
    yes
}

/// Copies `content` to the start of `out`.
fn place(content: &[u8], out: &mut [u8])
    requires
        content@.len() <= old(out)@.len(),
    ensures
        final(out)@ == content@ + old(out)@.skip(content@.len() as int),
{
    let n: usize = content.len();
    let mut i: usize = 0;
    while i < n
        invariant
            i <= n,
            n == content@.len(),
            n <= old(out)@.len(),
            out@ == content@.take(i as int) + old(out)@.skip(i as int),
        decreases n - i,
    {
        out[i] = content[i];
        i = i + 1;
        assert(out@ =~= content@.take(i as int) + old(out)@.skip(i as int));
    }
    assert(content@.take(n as int) =~= content@);
}

/// Puts an unpacked payload into `out`, where it is as long as the frame's header says.
pub fn place_unpacked(content: Option<Vec<u8>>, orig_len: usize, out: &mut [u8]) -> (restored:
    Option<usize>)
    requires
        orig_len <= old(out)@.len(),
    ensures
        match content {
            Some(c) if c@.len() == orig_len => {
                &&& restored == Some(orig_len)
                &&& final(out)@ == c@ + old(out)@.skip(orig_len as int)
            },
            _ => restored is None && final(out)@ == old(out)@,
        },
{
    match content {
        Some(c) => {
            if c.len() != orig_len {
                return None;
            }
            place(c.as_slice(), out);
            Some(orig_len)
        },
        None => None,
    }
}

/// Restores the frame at the start of `input` into `out` and returns the length of its content.
/// Returns nothing, and leaves `out` alone, where `input` is not a frame that can be restored:
/// such bytes are passed on as they are.
pub fn decompress(input: &[u8], out: &mut [u8]) -> (restored: Option<usize>)
    ensures
        match frame_content(input@, old(out)@.len()) {
            Some(content) => {
                &&& restored == Some(content.len() as usize)
                &&& content.len() <= old(out)@.len()
                &&& final(out)@ == content + old(out)@.skip(content.len() as int)
            },
            None => restored is None && final(out)@ == old(out)@,
        },
{
    let header = match read_header(input) {
        Some(header) => header,
        None => return None,
    };
    let orig_len: usize = header.orig_len as usize;
    let pay_len: usize = header.pay_len as usize;
    if orig_len > out.len() || pay_len > input.len() - HEADER_LEN {
        return None;
    }
    let payload = slice_subrange(input, HEADER_LEN, HEADER_LEN + pay_len);
    if !header.compressed {
        if orig_len != pay_len {
            return None;
        }
        place(payload, out);
        return Some(orig_len);
    }
    let content = decompress_payload(header.codec, payload, orig_len);
    place_unpacked(content, orig_len, out)
}

/// Each codec is known by its name and by its byte, and by no other codec's.
pub proof fn law_codec_is_known_by_name_and_id(codec: Codec)
    ensures
        codec_of_name(codec_name(codec)) == Some(codec),
        codec_of_id(codec_id(codec)) == Some(codec),
{
    reveal_strlit("zlib");
    reveal_strlit("gz");
    reveal_strlit("zstd");
    assert("zlib"@[1] == 'l');
    assert("zstd"@[1] == 's');
    assert("gz"@.len() == 2);
    assert("zlib"@.len() == 4);
    assert("zstd"@.len() == 4);
}

/// The level that a codec works at when none is given is one that it may be configured with.
pub proof fn law_standard_level_is_valid(codec: Codec)
    ensures
        level_range(codec).0 <= standard_level(codec) <= level_range(codec).1,
{
}

/// A frame starts with the magic. It is never longer than its input and a header, and where it
/// is marked as compressed it is shorter than its input.
pub proof fn law_frame_never_grows(c: Compression, input: Seq<u8>)
    ensures
        framed(c, input).len() >= HEADER_LEN,
        framed(c, input).take(4) == magic(),
        framed(c, input).len() <= input.len() + HEADER_LEN,
        framed(c, input)[4] == 1 ==> framed(c, input).len() < input.len(),
{
    assert(framed(c, input).take(4) =~= magic());
}

/// Packing better never makes the frame longer.
pub proof fn law_shorter_packing_shorter_frame(
    codec: Codec,
    input: Seq<u8>,
    shorter: Seq<u8>,
    longer: Seq<u8>,
)
    requires
        shorter.len() <= longer.len(),
    ensures
        frame_of(codec, input, Some(shorter)).len() <= frame_of(codec, input, Some(longer)).len(),
        frame_of(codec, input, Some(shorter)).len() <= frame_of(codec, input, None).len(),
{
}

/// Bytes that do not start with the magic are not taken for a frame.
pub proof fn law_no_magic_no_frame(s: Seq<u8>, room: nat)
    requires
        s.len() < 4 || s.take(4) != magic(),
    ensures
        frame_content(s, room) is None,
{
}

/// A byte stands for a codec only where it is that codec's byte, and a name likewise.
pub proof fn law_no_other_id_or_name(id: u8, name: Seq<char>)
    ensures
        codec_of_id(id) matches Some(codec) ==> codec_id(codec) == id,
        codec_of_id(id) is Some <==> 1 <= id <= 3,
        codec_of_name(name) matches Some(codec) ==> codec_name(codec) == name,
{
}

/// Every codec may be configured with the levels from 1 up, zstd to 22 and the others to 9, and
/// works at each of them.
pub proof fn law_levels_of_each_codec(c: Compression)
    ensures
        level_range(c.codec).0 <= c.level <= level_range(c.codec).1 <==> 1 <= c.level && (c.level
            <= 9 || (c.codec == Codec::Zstd && c.level <= 22)),
        level_range(c.codec).0 <= c.level <= level_range(c.codec).1 ==> c.usable(),
{
}

/// Each codec packs and unpacks with its own library, at the level that was asked for.
pub proof fn law_each_codec_has_its_library(level: i32, data: Seq<u8>, room: nat)
    ensures
        packed_by(Compression { codec: Codec::Zlib, level }, data) == backend::zlib_packed(
            data,
            level as u32,
        ),
        packed_by(Compression { codec: Codec::Gz, level }, data) == backend::gz_packed(
            data,
            level as u32,
        ),
        packed_by(Compression { codec: Codec::Zstd, level }, data) == backend::zstd_packed(
            data,
            level,
        ),
        unpacked_by(Codec::Zlib, data, room) == backend::zlib_unpacked(data, room),
        unpacked_by(Codec::Gz, data, room) == backend::gz_unpacked(data, room),
        unpacked_by(Codec::Zstd, data, room) == backend::zstd_unpacked(data, room),
{
}

/// What is refused of a level is said of that level: the text starts with it, and what follows
/// depends on the codec alone.
pub proof fn law_level_error_names_the_level(codec: Codec, level: i32, other: i32)
    ensures
        ({
            let start = |l: i32| "compression level "@ + text::decimal_int(l as int);
            let text = |l: i32| level_error(Compression { codec, level: l });
            &&& start(level).is_prefix_of(text(level))
            &&& text(level).skip(start(level).len() as int) == text(other).skip(
                start(other).len() as int,
            )
        }),
{
    let start = |l: i32| "compression level "@ + text::decimal_int(l as int);
    let text = |l: i32| level_error(Compression { codec, level: l });
    let (lo, hi) = level_range(codec);
    let tail = " out of range for "@ + codec_name(codec) + " (allowed "@ + text::decimal_int(
        lo as int,
    ) + "-"@ + text::decimal_int(hi as int) + ")"@;
    assert(text(level) =~= start(level) + tail);
    assert(text(other) =~= start(other) + tail);
    assert(text(level).skip(start(level).len() as int) =~= tail);
    assert(text(other).skip(start(other).len() as int) =~= tail);
    assert(text(level).subrange(0, start(level).len() as int) =~= start(level));
}

/// The low sixteen bits of a number are written in two bytes, low byte first.
pub proof fn law_length_reads_back(n: int)
    requires
        0 <= n,
    ensures
        le16(n).len() == 2,
        le16(n)[0] + 256 * le16(n)[1] == n % 0x1_0000,
        le16_at(le16(n), 0) == n % 0x1_0000,
{
    lemma_le16(n % 0x1_0000);
    assert(n % 0x1_0000 % 256 == n % 256);
    assert(n % 0x1_0000 / 256 == n / 256 % 256);
}

/// What a frame is made of, byte by byte. Where packing saves more than the header costs, the
/// packed bytes are the payload and the frame is marked as compressed; else the input is.
pub proof fn law_frame_layout(c: Compression, input: Seq<u8>)
    requires
        input.len() <= 0xffff,
    ensures
        ({
            let frame = framed(c, input);
            let packed = packed_by(c, input);
            let pays = packed is Some && packed->0.len() + 10 < input.len();
            &&& frame.len() >= 10
            &&& frame[0] == 0x49 && frame[1] == 0x50 && frame[2] == 0x42 && frame[3] == 0x5a
            &&& frame[5] == codec_id(c.codec)
            &&& frame[6] + 256 * frame[7] == input.len()
            &&& frame[8] + 256 * frame[9] == frame.len() - 10
            &&& pays ==> frame[4] == 1 && frame.skip(10) == packed->0
            &&& !pays ==> frame[4] == 0 && frame.skip(10) == input
        }),
{
    let frame = framed(c, input);
    let packed = packed_by(c, input);
    lemma_le16(input.len() as int);
    if packed is Some && packed->0.len() + 10 < input.len() {
        lemma_le16(packed->0.len() as int);
        assert(frame.skip(10) =~= packed->0);
    } else {
        assert(frame.skip(10) =~= input);
    }
}

/// Input that is too long for the header is stored behind it as it is.
pub proof fn law_long_input_is_stored(c: Compression, input: Seq<u8>)
    requires
        input.len() > 0xffff,
    ensures
        framed(c, input).len() == 10 + input.len(),
        framed(c, input)[4] == 0,
        framed(c, input)[5] == codec_id(c.codec),
        framed(c, input).skip(10) == input,
{
    assert(framed(c, input).skip(10) =~= input);
}

/// The better of packing and storing is taken: a frame is as long as its header and the shorter
/// of the two, and it is stored only where packing saves nothing over the header's length.
pub proof fn law_packing_is_used_where_it_pays(c: Compression, input: Seq<u8>, packed: Seq<u8>)
    requires
        input.len() <= 0xffff,
        packed_by(c, input) == Some(packed),
    ensures
        packed.len() + 10 < input.len() ==> framed(c, input).len() == 10 + packed.len(),
        framed(c, input).len() == 10 + input.len() ==> input.len() <= packed.len() + 10,
{
    law_frame_layout(c, input);
}

/// What bytes restore to. Ten bytes at least, the magic, a known codec, room for the content and
/// all of the payload must be there. Stored content is the payload; packed content is what the
/// codec unpacks; either is as long as the header says.
pub proof fn law_what_a_frame_restores_to(s: Seq<u8>, room: nat)
    ensures
        ({
            let orig_len = s[6] + 256 * s[7];
            let pay_len = s[8] + 256 * s[9];
            let payload = s.subrange(10, 10 + pay_len);
            let complete = s.len() >= 10 && s[0] == 0x49 && s[1] == 0x50 && s[2] == 0x42 && s[3]
                == 0x5a && 1 <= s[5] <= 3 && orig_len <= room && 10 + pay_len <= s.len();
            let unpacked = unpacked_by(codec_of_id(s[5])->0, payload, orig_len as nat);
            &&& frame_content(s, room) is Some ==> complete && frame_content(s, room)->0.len()
                == orig_len
            &&& complete && s[4] % 2 == 0 && orig_len == pay_len ==> frame_content(s, room)
                == Some(payload)
            &&& complete && s[4] % 2 == 0 && orig_len != pay_len ==> frame_content(s, room) is None
            &&& complete && s[4] % 2 == 1 && unpacked is Some && unpacked->0.len() == orig_len
                ==> frame_content(s, room) == unpacked
            &&& complete && s[4] % 2 == 1 && !(unpacked is Some && unpacked->0.len() == orig_len)
                ==> frame_content(s, room) is None
        }),
{
    if s.len() >= 4 {
        let m = s.take(4);
        assert(m[0] == s[0] && m[1] == s[1] && m[2] == s[2] && m[3] == s[3]);
        if s[0] == 0x49 && s[1] == 0x50 && s[2] == 0x42 && s[3] == 0x5a {
            assert(m =~= magic());
        }
    }
}

/// What stands behind a frame does not matter, and neither does more room than it needs.
pub proof fn law_only_the_frame_matters(s: Seq<u8>, more: Seq<u8>, room: nat, other: nat)
    requires
        frame_content(s, room) is Some,
    ensures
        frame_content(s + more, room) == frame_content(s, room),
        frame_content(s, room)->0.len() <= other ==> frame_content(s, other) == frame_content(
            s,
            room,
        ),
        frame_content(s, room)->0.len() > other ==> frame_content(s, other) is None,
{
    assert((s + more).take(4) =~= s.take(4));
    assert(payload_of(s + more) =~= payload_of(s));
}

/// A frame that carries a content restores to it where there is room, is not restored where there
/// is none, and ends where its payload does.
pub proof fn law_carried_content_comes_back(frame: Seq<u8>, content: Seq<u8>, room: nat)
    requires
        carries(frame, content),
    ensures
        content.len() <= room ==> frame_content(frame, room) == Some(content),
        content.len() > room ==> frame_content(frame, room) is None,
        frame.len() == 10 + frame[8] + 256 * frame[9],
{
    assert(frame_content(frame, content.len()) == Some(content));
    law_only_the_frame_matters(frame, Seq::empty(), content.len(), room);
}

} // verus!
