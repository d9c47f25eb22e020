//! One direction of a TCP connection through a tunnel that compresses.
//!
//! The first four bytes of the stream decide. Where they are the magic of a frame, the other side
//! is a tunnel too: its frames are restored one by one. Where they are not, what arrives is
//! framed, read by read. The machine says what to read next, is handed what was read, and
//! returns what to write.

use crate::compress;
use crate::compress::Compression;
use crate::session::ByteStats;
use crate::tunnel;
use vstd::prelude::*;

verus! {

/// How far a stream has come.
#[derive(Debug, Clone, Copy, PartialEq, Eq, Structural)]
pub enum Stage {
    /// Collecting the first four bytes.
    Sniff,
    /// Behind the magic of a frame.
    Header,
    /// Behind the header of a frame.
    Payload,
    /// Between two frames.
    Next,
    /// In a stream that is not framed.
    Plain,
    /// At the end.
    Done,
}

/// What to read next.
#[derive(Debug, Clone, Copy, PartialEq, Eq, Structural)]
pub enum Want {
    /// One read of at least one and at most this many bytes.
    AtMost(usize),
    /// As many reads as it takes for exactly this many bytes.
    Exactly(usize),
    /// Nothing more.
    Nothing,
}

/// The state of a pump: the stage, and the bytes that are held back.
pub struct PumpView {
    pub compression: Compression,
    pub stage: Stage,
    pub pending: Seq<u8>,
}

/// One direction of a connection.
#[derive(Debug)]
pub struct Pump {
    compression: Compression,
    stage: Stage,
    pending: Vec<u8>,
}

/// What to write, and what it counts for.
#[derive(Debug)]
pub struct Pumped {
    pub bytes: Vec<u8>,
    pub counted: ByteStats,
}

impl View for Pump {
    type V = PumpView;

    closed spec fn view(&self) -> PumpView {
        PumpView { compression: self.compression, stage: self.stage, pending: self.pending@ }
    }
}

impl PumpView {
    /// A pump that has read nothing.
    pub open spec fn fresh(compression: Compression) -> PumpView {
        PumpView { compression, stage: Stage::Sniff, pending: Seq::empty() }
    }

    /// The bytes held back fit the stage.
    pub open spec fn wf(self) -> bool {
        &&& self.compression.usable()
        &&& match self.stage {
            Stage::Sniff => self.pending.len() < 4,
            Stage::Header => self.pending == compress::magic(),
            Stage::Payload => self.pending.len() == compress::HEADER_LEN && self.pending.take(4)
                == compress::magic(),
            _ => self.pending.len() == 0,
        }
    }

    /// What a pump in this state asks for.
    pub open spec fn want(self) -> Want {
        match self.stage {
            Stage::Sniff => Want::AtMost((4 - self.pending.len()) as usize),
            Stage::Header => Want::Exactly(6),
            Stage::Payload => Want::Exactly(compress::le16_at(self.pending, 8) as usize),
            Stage::Next => Want::Exactly(4),
            Stage::Plain => Want::AtMost(tunnel::BUF_SIZE),
            Stage::Done => Want::Nothing,
        }
    }

    /// Whether so many bytes are what a pump in this state asked for.
    pub open spec fn takes(self, n: nat) -> bool {
        match self.want() {
            Want::AtMost(most) => 0 < n <= most,
            Want::Exactly(all) => n == all,
            Want::Nothing => false,
        }
    }

    /// Whether so many bytes are too few for what a pump in this state asked for, so that a
    /// stream that has no more of them ends here.
    pub open spec fn too_few(self, n: nat) -> bool {
        match self.want() {
            Want::AtMost(_) => n == 0,
            Want::Exactly(all) => n < all,
            Want::Nothing => true,
        }
    }

    /// The same pump at another stage.
    pub open spec fn at(self, stage: Stage, pending: Seq<u8>) -> PumpView {
        PumpView { compression: self.compression, stage, pending }
    }

    /// The chunk that is framed when `data` arrives, if any is.
    pub open spec fn chunk(self, data: Seq<u8>) -> Option<Seq<u8>> {
        let head = self.pending + data;
        if self.stage == Stage::Plain || (self.stage == Stage::Sniff && head.len() >= 4 && head
            != compress::magic()) {
            Some(head)
        } else {
            None
        }
    }

    /// The chunk that is restored when `data` arrives, if any is.
    pub open spec fn restored(self, data: Seq<u8>) -> Option<Seq<u8>> {
        if self.stage == Stage::Payload {
            compress::frame_content(self.pending + data, tunnel::BUF_SIZE as nat)
        } else {
            None
        }
    }

    /// The state after `data` has arrived.
    pub open spec fn fed(self, data: Seq<u8>) -> PumpView {
        let head = self.pending + data;
        match self.stage {
            Stage::Sniff => if head.len() < 4 {
                self.at(Stage::Sniff, head)
            } else if head == compress::magic() {
                self.at(Stage::Header, head)
            } else {
                self.at(Stage::Plain, Seq::empty())
            },
            Stage::Header => self.at(Stage::Payload, head),
            Stage::Payload => if self.restored(data) is Some {
                self.at(Stage::Next, Seq::empty())
            } else {
                self.at(Stage::Done, Seq::empty())
            },
            Stage::Next => if data == compress::magic() {
                self.at(Stage::Header, data)
            } else {
                self.at(Stage::Done, Seq::empty())
            },
            Stage::Plain => self,
            Stage::Done => self,
        }
    }

    /// What is written when `data` arrives.
    pub open spec fn output(self, data: Seq<u8>) -> Seq<u8> {
        match (self.chunk(data), self.restored(data)) {
            (Some(chunk), _) => compress::framed(self.compression, chunk),
            (None, Some(content)) => content,
            (None, None) => Seq::empty(),
        }
    }

    /// What is counted when `data` arrives: the bytes of a chunk, and the bytes of its frame.
    pub open spec fn counts(self, data: Seq<u8>) -> (nat, nat) {
        match (self.chunk(data), self.restored(data)) {
            (Some(chunk), _) => (chunk.len(), self.output(data).len()),
            (None, Some(content)) => (content.len(), (self.pending + data).len()),
            (None, None) => (0, 0),
        }
    }

    /// The chunk that is framed when the stream ends, if any is: what was held back of a stream
    /// that ended before it was told apart.
    pub open spec fn last_chunk(self) -> Option<Seq<u8>> {
        if self.stage == Stage::Sniff && self.pending.len() > 0 {
            Some(self.pending)
        } else {
            None
        }
    }

    /// The state after a read found the end of the stream, or failed. A stream that ended before
    /// it was told apart is read once more.
    pub open spec fn ended(self) -> PumpView {
        self.at(
            if self.stage == Stage::Sniff {
                Stage::Plain
            } else {
                Stage::Done
            },
            Seq::empty(),
        )
    }

    /// What is written when the stream ends.
    pub open spec fn last_output(self) -> Seq<u8> {
        match self.last_chunk() {
            Some(chunk) => compress::framed(self.compression, chunk),
            None => Seq::empty(),
        }
    }

    /// What is counted when the stream ends.
    pub open spec fn last_counts(self) -> (nat, nat) {
        match self.last_chunk() {
            Some(chunk) => (chunk.len(), self.last_output().len()),
            None => (0, 0),
        }
    }
}

impl Pump {
    pub fn new(compression: Compression) -> (pump: Pump)
        requires
            compression.usable(),
        ensures
            pump@ == PumpView::fresh(compression),
            pump@.wf(),
    {
        let pump = Pump { compression, stage: Stage::Sniff, pending: Vec::new() };
        assert(pump.pending@ =~= Seq::empty());
        pump
    }

    /// What to read next.
    pub fn wanted(&self) -> (want: Want)
        requires
            self@.wf(),
        ensures
            want == self@.want(),
    {
        match self.stage {
            Stage::Sniff => Want::AtMost(4 - self.pending.len()),
            Stage::Header => Want::Exactly(6),
            Stage::Payload => Want::Exactly(
                (self.pending[8] as u16 + 256 * (self.pending[9] as u16)) as usize,
            ),
            Stage::Next => Want::Exactly(4),
            Stage::Plain => Want::AtMost(tunnel::BUF_SIZE),
            Stage::Done => Want::Nothing,
        }
    }

    /// Takes what was asked for.
    pub fn on_bytes(&mut self, data: &[u8]) -> (pumped: Pumped)
        requires
            old(self)@.wf(),
            old(self)@.takes(data@.len()),
        ensures
            final(self)@ == old(self)@.fed(data@),
            final(self)@.wf(),
            pumped.bytes@ == old(self)@.output(data@),
            old(self)@.chunk(data@) matches Some(chunk) ==> compress::carries(
                pumped.bytes@,
                chunk,
            ),
            pumped.counted.payload == old(self)@.counts(data@).0,
            pumped.counted.wire == old(self)@.counts(data@).1,
    {
        let ghost before = self@;
        self.pending.extend_from_slice(data);
        assert(self.pending@ =~= before.pending + data@);
        match self.stage {
            Stage::Sniff => {
                if self.pending.len() < 4 {
                    return nothing();
                }
                if compress::starts_with_magic(self.pending.as_slice()) {
                    assert(self.pending@.take(4) =~= self.pending@);
                    self.stage = Stage::Header;
                    return nothing();
                }
                assert(self.pending@.take(4) =~= self.pending@);
                self.stage = Stage::Plain;
                let pumped = seal(self.compression, self.pending.as_slice());
                self.pending = Vec::new();
                assert(self.pending@ =~= Seq::empty());
                pumped
            },
            Stage::Header => {
                assert(self.pending@.take(4) =~= compress::magic());
                self.stage = Stage::Payload;
                nothing()
            },
            Stage::Payload => {
                let restored = tunnel::restore(self.pending.as_slice());
                let wire: u64 = self.pending.len() as u64;
                self.pending = Vec::new();
                assert(self.pending@ =~= Seq::empty());
                match restored {
                    Some(content) => {
                        self.stage = Stage::Next;
                        let payload: u64 = content.len() as u64;
                        Pumped { bytes: content, counted: ByteStats { payload, wire } }
                    },
                    None => {
                        self.stage = Stage::Done;
                        nothing()
                    },
                }
            },
            Stage::Next => {
                assert(self.pending@ =~= data@);
                assert(data@.take(4) =~= data@);
                if compress::starts_with_magic(data) {
                    self.stage = Stage::Header;
                } else {
                    self.stage = Stage::Done;
                    self.pending = Vec::new();
                    assert(self.pending@ =~= Seq::empty());
                }
                nothing()
            },
            Stage::Plain => {
                let pumped = seal(self.compression, self.pending.as_slice());
                self.pending = Vec::new();
                assert(self.pending@ =~= before.pending);
                pumped
            },
            Stage::Done => nothing(),
        }
    }

    /// Takes the end of the stream. A read that failed counts as its end.
    pub fn on_end(&mut self) -> (pumped: Pumped)
        requires
            old(self)@.wf(),
        ensures
            final(self)@ == old(self)@.ended(),
            final(self)@.wf(),
            pumped.bytes@ == old(self)@.last_output(),
            old(self)@.last_chunk() matches Some(chunk) ==> compress::carries(
                pumped.bytes@,
                chunk,
            ),
            pumped.counted.payload == old(self)@.last_counts().0,
            pumped.counted.wire == old(self)@.last_counts().1,
    {
        let pumped = if self.stage == Stage::Sniff && self.pending.len() > 0 {
            seal(self.compression, self.pending.as_slice())
        } else {
            nothing()
        };
        self.stage =
        if self.stage == Stage::Sniff {
            Stage::Plain
        } else {
            Stage::Done
        };
        self.pending = Vec::new();
        assert(self.pending@ =~= Seq::empty());
        pumped
    }

    /// Gives up: what was to be written could not be.
    pub fn stop(&mut self)
        requires
            old(self)@.wf(),
        ensures
            final(self)@ == old(self)@.at(Stage::Done, Seq::empty()),
            final(self)@.wf(),
    {
        self.stage = Stage::Done;
        self.pending = Vec::new();
        assert(self.pending@ =~= Seq::empty());
    }
}

fn nothing() -> (pumped: Pumped)
    ensures
        pumped.bytes@ == Seq::<u8>::empty(),
        pumped.counted.payload == 0,
        pumped.counted.wire == 0,
{
    let bytes: Vec<u8> = Vec::new();
    assert(bytes@ =~= Seq::empty());
    Pumped { bytes, counted: ByteStats { payload: 0, wire: 0 } }
}

/// Frames a chunk.
fn seal(compression: Compression, chunk: &[u8]) -> (pumped: Pumped)
    requires
        compression.usable(),
        chunk@.len() <= 0xffff,
    ensures
        pumped.bytes@ == compress::framed(compression, chunk@),
        compress::carries(pumped.bytes@, chunk@),
        pumped.counted.payload == chunk@.len(),
        pumped.counted.wire == pumped.bytes@.len(),
{
    let mut bytes: Vec<u8> = Vec::new();
    compress::compress_frame(compression, chunk, &mut bytes);
    let counted = ByteStats { payload: chunk.len() as u64, wire: bytes.len() as u64 };
    Pumped { bytes, counted }
}

/// The frame that a stream starts with, if it starts with one that can be restored: its length
/// and its content.
pub open spec fn first_frame(s: Seq<u8>) -> Option<(int, Seq<u8>)> {
    let len = compress::HEADER_LEN + compress::le16_at(s, 8);
    if s.len() < compress::HEADER_LEN || s.take(4) != compress::magic() || s.len() < len {
        None
    } else {
        match compress::frame_content(s.take(len), tunnel::BUF_SIZE as nat) {
            Some(content) => Some((len, content)),
            None => None,
        }
    }
}

/// What the frames of a stream restore to, up to the first place where there is no frame.
pub open spec fn unframed(s: Seq<u8>) -> Seq<u8>
    decreases s.len(),
{
    match first_frame(s) {
        Some((len, content)) => content + unframed(s.skip(len)),
        None => Seq::empty(),
    }
}

/// How long the frames of a stream are together, up to the first place where there is no frame.
pub open spec fn frames_len(s: Seq<u8>) -> int
    decreases s.len(),
{
    match first_frame(s) {
        Some((len, _)) => len + frames_len(s.skip(len)),
        None => 0,
    }
}

/// Whether a stream is nothing but frames.
pub open spec fn whole(s: Seq<u8>) -> bool
    decreases s.len(),
{
    s.len() == 0 || match first_frame(s) {
        Some((len, content)) => whole(s.skip(len)),
        None => false,
    }
}

/// The bytes of some reads.
pub open spec fn joined(reads: Seq<Seq<u8>>) -> Seq<u8>
    decreases reads.len(),
{
    if reads.len() == 0 {
        Seq::empty()
    } else {
        joined(reads.drop_last()) + reads.last()
    }
}

/// The state of a pump after some reads.
pub open spec fn after(p: PumpView, reads: Seq<Seq<u8>>) -> PumpView
    decreases reads.len(),
{
    if reads.len() == 0 {
        p
    } else {
        after(p, reads.drop_last()).fed(reads.last())
    }
}

/// What a pump has written after some reads.
pub open spec fn written(p: PumpView, reads: Seq<Seq<u8>>) -> Seq<u8>
    decreases reads.len(),
{
    if reads.len() == 0 {
        Seq::empty()
    } else {
        written(p, reads.drop_last()) + after(p, reads.drop_last()).output(reads.last())
    }
}

/// What a pump has written when the stream has ended after some reads.
pub open spec fn written_in_all(p: PumpView, reads: Seq<Seq<u8>>) -> Seq<u8> {
    written(p, reads) + after(p, reads).last_output()
}

/// What a pump has counted after some reads: bytes as the peers see them, and bytes of frames.
pub open spec fn counted(p: PumpView, reads: Seq<Seq<u8>>) -> (nat, nat)
    decreases reads.len(),
{
    if reads.len() == 0 {
        (0, 0)
    } else {
        let before = counted(p, reads.drop_last());
        let more = after(p, reads.drop_last()).counts(reads.last());
        (before.0 + more.0, before.1 + more.1)
    }
}

/// Whether each read brings what the pump asked for.
pub open spec fn asked_for(p: PumpView, reads: Seq<Seq<u8>>) -> bool
    decreases reads.len(),
{
    reads.len() == 0 || (asked_for(p, reads.drop_last()) && after(p, reads.drop_last()).takes(
        reads.last().len(),
    ))
}

/// Whether a chunk, if there is one, can be got back from its frame.
pub open spec fn kept(c: Compression, chunk: Option<Seq<u8>>) -> bool {
    chunk matches Some(data) ==> compress::carries(compress::framed(c, data), data)
}

/// Whether every chunk that a pump frames during some reads can be got back from its frame, as
/// `on_bytes` ensures of each. (Of the chunk that is framed when the stream ends, `on_end` does.)
pub open spec fn chunks_kept(p: PumpView, reads: Seq<Seq<u8>>) -> bool
    decreases reads.len(),
{
    reads.len() == 0 || (chunks_kept(p, reads.drop_last()) && kept(
        p.compression,
        after(p, reads.drop_last()).chunk(reads.last()),
    ))
}

/// Whether a stream starts with the magic of a frame.
pub open spec fn starts_framed(s: Seq<u8>) -> bool {
    s.len() >= 4 && s.take(4) == compress::magic()
}

/// A frame at the start of a stream is found.
proof fn lemma_first_frame(frame: Seq<u8>, content: Seq<u8>, rest: Seq<u8>)
    requires
        compress::carries(frame, content),
        content.len() <= tunnel::BUF_SIZE,
    ensures
        first_frame(frame + rest) == Some((frame.len() as int, content)),
{
    let s = frame + rest;
    assert(s.take(4) =~= frame.take(4));
    assert(s.take(frame.len() as int) =~= frame);
    assert(compress::le16_at(s, 8) == compress::le16_at(frame, 8));
}

/// A frame at the end of a stream of frames adds its content.
proof fn lemma_frame_added(s: Seq<u8>, frame: Seq<u8>, content: Seq<u8>)
    requires
        whole(s),
        compress::carries(frame, content),
        content.len() <= tunnel::BUF_SIZE,
    ensures
        whole(s + frame),
        unframed(s + frame) == unframed(s) + content,
    decreases s.len(),
{
    if s.len() == 0 {
        let none = Seq::<u8>::empty();
        lemma_first_frame(frame, content, none);
        assert(s + frame =~= frame + none);
        assert((frame + none).skip(frame.len() as int) =~= none);
        assert(s =~= none);
        assert(first_frame(none) is None);
        assert(unframed(none) =~= none);
        assert(whole(none));
        assert(unframed(s + frame) =~= unframed(s) + content);
    } else {
        let (len, first) = first_frame(s)->0;
        let t = s + frame;
        assert(t.take(4) =~= s.take(4));
        assert(t.take(len) =~= s.take(len));
        assert(compress::le16_at(t, 8) == compress::le16_at(s, 8));
        assert(first_frame(t) == Some((len, first)));
        assert(t.skip(len) =~= s.skip(len) + frame);
        lemma_frame_added(s.skip(len), frame, content);
        assert(unframed(t) =~= unframed(s) + content);
    }
}

/// A header and the payload that it announces are the first frame, where they can be restored.
proof fn lemma_block_read(header: Seq<u8>, payload: Seq<u8>, rest: Seq<u8>)
    requires
        header.len() == compress::HEADER_LEN,
        header.take(4) == compress::magic(),
        payload.len() == compress::le16_at(header, 8),
    ensures
        first_frame(header + payload + rest) == match compress::frame_content(
            header + payload,
            tunnel::BUF_SIZE as nat,
        ) {
            Some(content) => Some(((header + payload).len() as int, content)),
            None => None,
        },
        (header + payload + rest).skip((header + payload).len() as int) == rest,
{
    let block = header + payload;
    let s = block + rest;
    assert(compress::le16_at(s, 8) == compress::le16_at(header, 8));
    assert(s.take(4) =~= header.take(4));
    assert(s.take(block.len() as int) =~= block);
    assert(s.skip(block.len() as int) =~= rest);
}

/// A pump keeps its compression.
proof fn lemma_same_compression(p: PumpView, reads: Seq<Seq<u8>>)
    ensures
        after(p, reads).compression == p.compression,
    decreases reads.len(),
{
    if reads.len() > 0 {
        lemma_same_compression(p, reads.drop_last());
    }
}

/// What a pump has written of a framed stream, and what is left of it in the bytes held back and
/// in those to come.
#[verifier::rlimit(40)]
proof fn lemma_restored_so_far(c: Compression, reads: Seq<Seq<u8>>, rest: Seq<u8>)
    requires
        c.usable(),
        asked_for(PumpView::fresh(c), reads),
    ensures
        after(PumpView::fresh(c), reads).wf(),
        ({
            let p = PumpView::fresh(c);
            let q = after(p, reads);
            match q.stage {
                Stage::Sniff => q.pending == joined(reads) && written(p, reads).len() == 0,
                Stage::Plain => joined(reads).len() >= 4 && joined(reads).take(4)
                    != compress::magic(),
                Stage::Done => {
                    &&& unframed(joined(reads) + rest) == written(p, reads)
                    &&& !whole(joined(reads) + rest)
                },
                _ => {
                    &&& unframed(joined(reads) + rest) == written(p, reads) + unframed(
                        q.pending + rest,
                    )
                    &&& whole(joined(reads) + rest) ==> whole(q.pending + rest)
                },
            }
        }),
    decreases reads.len(),
{
    let p = PumpView::fresh(c);
    let none = Seq::<u8>::empty();
    if reads.len() > 0 {
        let before = reads.drop_last();
        let data = reads.last();
        let q = after(p, before);
        lemma_restored_so_far(c, before, data + rest);
        lemma_same_compression(p, before);
        let head = q.pending + data;
        assert(joined(before) + (data + rest) =~= joined(reads) + rest);
        assert(q.pending + (data + rest) =~= head + rest);
        match q.stage {
            Stage::Sniff => {
                assert(head =~= joined(reads));
                assert(head.len() == 4 ==> head.take(4) =~= head);
                assert(written(p, reads) =~= q.output(data));
                if head.len() >= 4 && head == compress::magic() {
                    assert(written(p, reads) + unframed(head + rest) =~= unframed(head + rest));
                }
            },
            Stage::Plain => {
                assert(joined(reads).take(4) =~= joined(before).take(4));
            },
            Stage::Header => {
                assert(head.take(4) =~= compress::magic());
                assert(written(p, reads) =~= written(p, before));
            },
            Stage::Payload => {
                let s = head + rest;
                lemma_block_read(q.pending, data, rest);
                assert(none + rest =~= rest);
                match q.restored(data) {
                    Some(content) => {
                        assert(written(p, reads) + unframed(rest) =~= written(p, before) + unframed(
                            s,
                        ));
                    },
                    None => {
                        assert(written(p, reads) =~= written(p, before) + unframed(s));
                    },
                }
            },
            Stage::Next => {
                let s = head + rest;
                assert(head =~= data);
                assert(s.take(4) =~= data);
                if data != compress::magic() {
                    assert(first_frame(s) is None);
                }
                assert(written(p, reads) =~= written(p, before));
                assert(written(p, before) + none =~= written(p, before));
            },
            Stage::Done => {},
        }
    } else {
        assert(p.pending =~= joined(reads));
    }
}

/// What a pump has written of a stream that is not framed.
proof fn lemma_framed_so_far(c: Compression, reads: Seq<Seq<u8>>)
    requires
        c.usable(),
        asked_for(PumpView::fresh(c), reads),
        chunks_kept(PumpView::fresh(c), reads),
    ensures
        ({
            let p = PumpView::fresh(c);
            after(p, reads).stage == Stage::Plain ==> {
                &&& whole(written(p, reads))
                &&& written(p, reads).len() > 0
                &&& unframed(written(p, reads)) == joined(reads)
            }
        }),
    decreases reads.len(),
{
    let p = PumpView::fresh(c);
    if reads.len() > 0 {
        let before = reads.drop_last();
        let data = reads.last();
        let q = after(p, before);
        lemma_framed_so_far(c, before);
        lemma_same_compression(p, before);
        lemma_restored_so_far(c, before, Seq::empty());
        if after(p, reads).stage == Stage::Plain {
            let chunk = q.pending + data;
            let frame = compress::framed(c, chunk);
            assert(q.chunk(data) == Some(chunk));
            if q.stage == Stage::Sniff {
                let none = Seq::<u8>::empty();
                assert(written(p, before) =~= none);
                assert(first_frame(none) is None);
                assert(unframed(none) =~= none);
                lemma_frame_added(none, frame, chunk);
                assert(written(p, reads) =~= none + frame);
                assert(unframed(written(p, reads)) =~= joined(reads));
            } else {
                assert(chunk =~= data);
                lemma_frame_added(written(p, before), frame, chunk);
            }
        }
    }
}

/// Of a stream that ends with `rest`, too few bytes for what the pump asked for, no frame is left
/// in the bytes held back and in `rest`.
proof fn lemma_nothing_left(q: PumpView, rest: Seq<u8>)
    requires
        q.wf(),
        q.stage == Stage::Header || q.stage == Stage::Payload || q.stage == Stage::Next,
        q.too_few(rest.len()),
    ensures
        first_frame(q.pending + rest) is None,
        unframed(q.pending + rest) == Seq::<u8>::empty(),
        frames_len(q.pending + rest) == 0,
{
    let s = q.pending + rest;
    if q.stage == Stage::Payload {
        assert(compress::le16_at(s, 8) == compress::le16_at(q.pending, 8));
    }
    assert(first_frame(s) is None);
    assert(unframed(s) =~= Seq::<u8>::empty());
}

/// A pump restores a framed stream, wherever it ends: with `rest` the last bytes, too few for
/// what the pump asked for, it has written what the frames of the whole stream restore to.
pub proof fn law_framed_stream_is_restored(c: Compression, reads: Seq<Seq<u8>>, rest: Seq<u8>)
    requires
        c.usable(),
        asked_for(PumpView::fresh(c), reads),
        after(PumpView::fresh(c), reads).too_few(rest.len()),
        starts_framed(joined(reads)),
    ensures
        written(PumpView::fresh(c), reads) == unframed(joined(reads) + rest),
{
    let p = PumpView::fresh(c);
    let q = after(p, reads);
    lemma_restored_so_far(c, reads, rest);
    lemma_stage_follows_magic(c, reads);
    if q.stage != Stage::Done {
        lemma_nothing_left(q, rest);
        assert(written(p, reads) + Seq::<u8>::empty() =~= written(p, reads));
    }
}

/// A pump frames every stream that does not start with the magic: it writes nothing but frames,
/// and they restore to the stream.
pub proof fn law_plain_stream_is_framed(c: Compression, reads: Seq<Seq<u8>>)
    requires
        c.usable(),
        asked_for(PumpView::fresh(c), reads),
        chunks_kept(PumpView::fresh(c), reads),
        kept(c, after(PumpView::fresh(c), reads).last_chunk()),
        !starts_framed(joined(reads)),
    ensures
        whole(written_in_all(PumpView::fresh(c), reads)),
        unframed(written_in_all(PumpView::fresh(c), reads)) == joined(reads),
{
    let p = PumpView::fresh(c);
    let q = after(p, reads);
    let none = Seq::<u8>::empty();
    lemma_restored_so_far(c, reads, none);
    lemma_framed_so_far(c, reads);
    lemma_same_compression(p, reads);
    lemma_stage_follows_magic(c, reads);
    assert(first_frame(none) is None);
    assert(unframed(none) =~= none);
    if q.stage == Stage::Sniff {
        assert(written(p, reads) =~= none);
        if q.pending.len() > 0 {
            let frame = compress::framed(c, q.pending);
            lemma_frame_added(none, frame, q.pending);
            assert(written_in_all(p, reads) =~= none + frame);
            assert(none + q.pending =~= q.pending);
        } else {
            assert(written_in_all(p, reads) =~= none);
            assert(joined(reads) =~= none);
        }
    } else {
        assert(written_in_all(p, reads) =~= written(p, reads));
    }
}

/// Past the first four bytes, a pump restores frames exactly where the stream starts with the
/// magic.
proof fn lemma_stage_follows_magic(c: Compression, reads: Seq<Seq<u8>>)
    requires
        c.usable(),
        asked_for(PumpView::fresh(c), reads),
    ensures
        ({
            let q = after(PumpView::fresh(c), reads);
            if q.stage == Stage::Sniff {
                joined(reads).len() < 4
            } else {
                &&& joined(reads).len() >= 4
                &&& (joined(reads).take(4) == compress::magic()) == (q.stage != Stage::Plain)
            }
        }),
    decreases reads.len(),
{
    if reads.len() > 0 {
        let before = reads.drop_last();
        let data = reads.last();
        let q = after(PumpView::fresh(c), before);
        lemma_stage_follows_magic(c, before);
        lemma_restored_so_far(c, before, Seq::empty());
        if q.stage == Stage::Sniff {
            let head = q.pending + data;
            assert(head =~= joined(reads));
            assert(head.len() == 4 ==> head.take(4) =~= head);
        } else {
            assert(joined(reads).take(4) =~= joined(before).take(4));
        }
    }
}

/// What two tunnels that compress do to a stream: nothing. The near pump frames it, the far pump
/// restores it. The stream must not start with the magic, and the far pump must have been handed
/// all that the near one wrote, in whatever pieces it asked for them (a payload of no bytes
/// counts as a piece).
pub proof fn law_stream_survives_two_pumps(
    near: Compression,
    far: Compression,
    sent: Seq<Seq<u8>>,
    arrived: Seq<Seq<u8>>,
)
    requires
        near.usable(),
        far.usable(),
        asked_for(PumpView::fresh(near), sent),
        chunks_kept(PumpView::fresh(near), sent),
        kept(near, after(PumpView::fresh(near), sent).last_chunk()),
        !starts_framed(joined(sent)),
        asked_for(PumpView::fresh(far), arrived),
        joined(arrived) == written_in_all(PumpView::fresh(near), sent),
        after(PumpView::fresh(far), arrived).want() != Want::Exactly(0),
    ensures
        written(PumpView::fresh(far), arrived) == joined(sent),
{
    let none = Seq::<u8>::empty();
    let wire = joined(arrived);
    let q = after(PumpView::fresh(far), arrived);
    law_plain_stream_is_framed(near, sent);
    lemma_restored_so_far(far, arrived, none);
    lemma_stage_follows_magic(far, arrived);
    assert(wire + none =~= wire);
    assert(q.pending + none =~= q.pending);
    assert(first_frame(none) is None);
    assert(unframed(none) =~= none);
    if wire.len() == 0 {
        assert(wire =~= none);
        assert(written(PumpView::fresh(far), arrived) =~= none);
    } else {
        assert(first_frame(wire) is Some);
        assert(wire.take(4) == compress::magic());
        match q.stage {
            Stage::Header => {
                assert(first_frame(q.pending) is None);
            },
            Stage::Payload => {
                assert(first_frame(q.pending) is None);
            },
            _ => {
                law_framed_stream_is_restored(far, arrived, none);
            },
        }
    }
}

/// What a pump has counted of a stream that is not framed.
proof fn lemma_plain_counted(c: Compression, reads: Seq<Seq<u8>>)
    requires
        c.usable(),
        asked_for(PumpView::fresh(c), reads),
    ensures
        ({
            let p = PumpView::fresh(c);
            let (payload, wire) = counted(p, reads);
            match after(p, reads).stage {
                Stage::Sniff => payload == 0 && wire == 0,
                Stage::Plain => payload == joined(reads).len() && wire == written(p, reads).len(),
                _ => true,
            }
        }),
    decreases reads.len(),
{
    if reads.len() > 0 {
        lemma_plain_counted(c, reads.drop_last());
        lemma_restored_so_far(c, reads.drop_last(), Seq::empty());
    }
}

/// What a pump has counted of a framed stream, and what is left to count in the bytes held back
/// and in those to come.
proof fn lemma_frames_counted(c: Compression, reads: Seq<Seq<u8>>, rest: Seq<u8>)
    requires
        c.usable(),
        asked_for(PumpView::fresh(c), reads),
    ensures
        ({
            let p = PumpView::fresh(c);
            let q = after(p, reads);
            let (payload, wire) = counted(p, reads);
            match q.stage {
                Stage::Sniff | Stage::Plain => true,
                Stage::Done => {
                    &&& payload == written(p, reads).len()
                    &&& wire == frames_len(joined(reads) + rest)
                },
                _ => {
                    &&& payload == written(p, reads).len()
                    &&& wire + q.pending.len() == joined(reads).len()
                    &&& wire + frames_len(q.pending + rest) == frames_len(joined(reads) + rest)
                },
            }
        }),
    decreases reads.len(),
{
    let p = PumpView::fresh(c);
    if reads.len() > 0 {
        let before = reads.drop_last();
        let data = reads.last();
        let q = after(p, before);
        lemma_frames_counted(c, before, data + rest);
        lemma_restored_so_far(c, before, data + rest);
        lemma_plain_counted(c, before);
        let s = q.pending + data + rest;
        assert(joined(before) + (data + rest) =~= joined(reads) + rest);
        assert(q.pending + (data + rest) =~= s);
        match q.stage {
            Stage::Sniff => {
                assert(q.pending + data =~= joined(reads));
            },
            Stage::Payload => {
                lemma_block_read(q.pending, data, rest);
                assert(Seq::<u8>::empty() + rest =~= rest);
            },
            Stage::Next => {
                assert(q.pending + data =~= data);
                assert(s.take(4) =~= data);
            },
            _ => {},
        }
    }
}

/// What is counted is what went through, wherever the stream ends, with `rest` the last bytes,
/// too few for what the pump asked for: of a stream that is not framed, the bytes that were read
/// and the bytes that were written; of a framed stream, the bytes that its frames restore to and
/// the bytes of those frames. Between two frames, that is all that was read.
pub proof fn law_counts_are_what_went_through(c: Compression, reads: Seq<Seq<u8>>, rest: Seq<u8>)
    requires
        c.usable(),
        asked_for(PumpView::fresh(c), reads),
        after(PumpView::fresh(c), reads).too_few(rest.len()),
    ensures
        ({
            let p = PumpView::fresh(c);
            let q = after(p, reads);
            let (payload, wire) = counted(p, reads);
            let (last_payload, last_wire) = q.last_counts();
            let stream = joined(reads) + rest;
            if starts_framed(joined(reads)) {
                &&& payload == unframed(stream).len()
                &&& wire == frames_len(stream)
                &&& q.stage == Stage::Next ==> wire == joined(reads).len()
                &&& last_payload == 0 && last_wire == 0
            } else {
                &&& payload + last_payload == stream.len()
                &&& wire + last_wire == written_in_all(p, reads).len()
            }
        }),
{
    let q = after(PumpView::fresh(c), reads);
    lemma_plain_counted(c, reads);
    lemma_frames_counted(c, reads, rest);
    lemma_restored_so_far(c, reads, rest);
    lemma_stage_follows_magic(c, reads);
    if starts_framed(joined(reads)) {
        law_framed_stream_is_restored(c, reads, rest);
        if q.stage != Stage::Done {
            lemma_nothing_left(q, rest);
        }
    }
}

/// The frames of a stream restore one after the other, and up to the first place that is no
/// frame: a frame in front adds its content and its length.
pub proof fn law_frames_restore_in_turn(frame: Seq<u8>, content: Seq<u8>, rest: Seq<u8>)
    ensures
        compress::carries(frame, content) && content.len() <= 65_535 ==> {
            &&& unframed(frame + rest) == content + unframed(rest)
            &&& frames_len(frame + rest) == frame.len() + frames_len(rest)
            &&& whole(frame + rest) == whole(rest)
        },
        !starts_framed(rest) ==> unframed(rest) == Seq::<u8>::empty() && frames_len(rest) == 0
            && whole(rest) == (rest.len() == 0),
{
    if compress::carries(frame, content) && content.len() <= 65_535 {
        lemma_first_frame(frame, content, rest);
        assert((frame + rest).skip(frame.len() as int) =~= rest);
    }
    if !starts_framed(rest) {
        assert(first_frame(rest) is None);
        assert(unframed(rest) =~= Seq::<u8>::empty());
    }
}

/// In a stream that is not framed, each read is framed at once and by itself, with the pump's own
/// compression, and nothing is held back.
pub proof fn law_each_read_is_a_frame(q: PumpView, data: Seq<u8>)
    requires
        q.wf(),
        q.stage == Stage::Plain,
        q.takes(data.len()),
    ensures
        q.output(data) == compress::framed(q.compression, data),
        q.fed(data) == q,
        data.len() <= 65_535,
{
    assert(q.pending + data =~= data);
}

/// The first four bytes of a stream that is not framed, or all of a shorter one, are framed
/// together, with the pump's own compression, however they were read.
pub proof fn law_first_bytes_are_a_frame(c: Compression, reads: Seq<Seq<u8>>)
    requires
        c.usable(),
        asked_for(PumpView::fresh(c), reads),
        joined(reads).len() <= 4,
        !starts_framed(joined(reads)),
    ensures
        joined(reads).len() > 0 ==> written_in_all(PumpView::fresh(c), reads) == compress::framed(
            c,
            joined(reads),
        ),
        joined(reads).len() == 0 ==> written_in_all(PumpView::fresh(c), reads).len() == 0,
        joined(reads).len() < 4 ==> written(PumpView::fresh(c), reads).len() == 0,
    decreases reads.len(),
{
    let p = PumpView::fresh(c);
    let q = after(p, reads);
    lemma_restored_so_far(c, reads, Seq::empty());
    lemma_stage_follows_magic(c, reads);
    lemma_same_compression(p, reads);
    if q.stage == Stage::Sniff {
        assert(written(p, reads) =~= Seq::<u8>::empty());
        assert(written_in_all(p, reads) =~= q.last_output());
    } else {
        let before = reads.drop_last();
        let data = reads.last();
        lemma_restored_so_far(c, before, Seq::empty());
        lemma_stage_follows_magic(c, before);
        lemma_same_compression(p, before);
        assert(after(p, before).takes(data.len()));
        assert(after(p, before).stage == Stage::Sniff);
        assert(after(p, before).pending + data =~= joined(reads));
        assert(written(p, before) =~= Seq::<u8>::empty());
        assert(written_in_all(p, reads) =~= compress::framed(c, joined(reads)));
    }
}

/// A pump asks for something until it is done; the end of the stream ends it, or, where the
/// stream ended before it was told apart, the second end does; and it then writes nothing more.
pub proof fn law_pump_ends_with_the_stream(q: PumpView)
    requires
        q.wf(),
    ensures
        q.want() == Want::Nothing <==> q.stage == Stage::Done,
        q.ended().wf(),
        q.stage != Stage::Sniff ==> q.ended().want() == Want::Nothing && q.last_output().len()
            == 0,
        q.ended().ended().want() == Want::Nothing,
        q.ended().last_output().len() == 0,
        q.ended().compression == q.compression,
{
}

/// Behind the magic a pump reads the six other bytes of the header, then as many bytes as the
/// header announces, then the next magic; of a stream that is not framed it reads what there is.
pub proof fn law_pump_reads_frame_by_frame(q: PumpView, data: Seq<u8>)
    requires
        q.wf(),
        q.takes(data.len()),
    ensures
        q.stage == Stage::Header ==> data.len() == 6 && q.fed(data).want() == Want::Exactly(
            (data[4] + 256 * data[5]) as usize,
        ) && q.output(data).len() == 0,
        q.stage == Stage::Next ==> data.len() == 4 && q.output(data).len() == 0,
        q.stage == Stage::Next && data == seq![0x49u8, 0x50u8, 0x42u8, 0x5au8] ==> q.fed(
            data,
        ).want() == Want::Exactly(6),
        q.stage == Stage::Next && data != seq![0x49u8, 0x50u8, 0x42u8, 0x5au8] ==> q.fed(
            data,
        ).want() == Want::Nothing,
        q.stage == Stage::Payload ==> q.fed(data).want() == Want::Exactly(4) || q.fed(data).want()
            == Want::Nothing,
        q.stage == Stage::Plain ==> q.want() == Want::AtMost(65_535),
        q.stage == Stage::Sniff ==> q.want() == Want::AtMost((4 - q.pending.len()) as usize),
{
    if q.stage == Stage::Header {
        assert((q.pending + data)[8] == data[4]);
        assert((q.pending + data)[9] == data[5]);
    }
}

/// What is said of a run is said read by read: one read more feeds the pump once more, and adds
/// its bytes, what is written for it and what is counted.
pub proof fn law_run_goes_read_by_read(p: PumpView, reads: Seq<Seq<u8>>, data: Seq<u8>)
    ensures
        after(p, reads.push(data)) == after(p, reads).fed(data),
        joined(reads.push(data)) == joined(reads) + data,
        written(p, reads.push(data)) == written(p, reads) + after(p, reads).output(data),
        counted(p, reads.push(data)).0 == counted(p, reads).0 + after(p, reads).counts(data).0,
        counted(p, reads.push(data)).1 == counted(p, reads).1 + after(p, reads).counts(data).1,
        asked_for(p, reads.push(data)) <==> asked_for(p, reads) && after(p, reads).takes(
            data.len(),
        ),
        after(p, Seq::empty()) == p,
        joined(Seq::empty()) == Seq::<u8>::empty(),
        written(p, Seq::empty()) == Seq::<u8>::empty(),
        counted(p, Seq::empty()) == (0nat, 0nat),
        asked_for(p, Seq::empty()),
{
    assert(reads.push(data).drop_last() =~= reads);
}

/// A chunk that is framed is counted with its frame, and one that is restored with the frame that
/// it came in.
pub proof fn law_each_step_is_counted(q: PumpView, data: Seq<u8>)
    requires
        q.wf(),
        q.takes(data.len()),
    ensures
        q.stage == Stage::Plain ==> q.counts(data) == (data.len(), q.output(data).len()),
        q.stage == Stage::Payload && q.fed(data).stage == Stage::Next ==> q.counts(data) == (
            q.output(data).len(),
            10 + data.len(),
        ),
        q.output(data).len() == 0 && q.fed(data).stage != Stage::Next ==> q.counts(data) == (
            0nat,
            0nat,
        ),
        q.stage == Stage::Sniff && q.pending.len() > 0 ==> q.last_counts() == (
            q.pending.len(),
            q.last_output().len(),
        ),
{
    if q.stage == Stage::Plain || q.stage == Stage::Sniff {
        compress::law_frame_never_grows(q.compression, q.pending + data);
    }
    assert(q.stage == Stage::Plain ==> q.pending + data =~= data);
}

} // verus!
