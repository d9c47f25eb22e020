//! What a tunnel does with the traffic that comes in.

use crate::compress;
use crate::compress::Compression;
use crate::config::{Protocol, Tunnel, TunnelView};
use crate::session;
use crate::session::{ByteStats, Peer, Session, SessionTable, SECOND};
use crate::text;
use vstd::prelude::*;
use vstd::slice::*;
use vstd::string::*;

verus! {

/// The most bytes that one read or one datagram brings.
pub const BUF_SIZE: usize = 65_535;

/// How long a new session of a UDP tunnel is taken to have been silent already.
pub const MIN_TIMEOUT: u64 = 30 * SECOND;

/// The four bytes `IPBR`, which a tunnel sends back to whoever sends them.
pub const HEARTBEAT_MAGIC: [u8; 4] = [0x49, 0x50, 0x42, 0x52];

/// The bytes of a heartbeat.
pub open spec fn heartbeat() -> Seq<u8> {
    seq![0x49u8, 0x50u8, 0x42u8, 0x52u8]
}

/// Whether a datagram is a heartbeat and nothing else.
pub fn is_heartbeat(datagram: &[u8]) -> (yes: bool)
    ensures
        yes == (datagram@ == heartbeat()),
{
    if datagram.len() != HEARTBEAT_MAGIC.len() {
        return false;
    }
    let yes = datagram[0] == HEARTBEAT_MAGIC[0] && datagram[1] == HEARTBEAT_MAGIC[1] && datagram[2]
        == HEARTBEAT_MAGIC[2] && datagram[3] == HEARTBEAT_MAGIC[3];
    proof {
        if yes {
            assert(datagram@ =~= heartbeat());
        }
    }
    yes
}

/// What a datagram carries: the content of a frame, or else the datagram itself.
pub open spec fn packet_of(datagram: Seq<u8>) -> Seq<u8> {
    match compress::frame_content(datagram, BUF_SIZE as nat) {
        Some(content) => content,
        None => datagram,
    }
}

/// Whether a datagram is a frame, so that its sender is another tunnel.
pub open spec fn is_link(datagram: Seq<u8>) -> bool {
    compress::frame_content(datagram, BUF_SIZE as nat) is Some
}

/// What a tunnel sends on for a datagram that came in from a peer: a tunnel that compresses
/// frames what is not framed yet; what is framed is restored.
pub open spec fn relayed(datagram: Seq<u8>, compression: Option<Compression>) -> Seq<u8> {
    if compression is Some && !is_link(datagram) {
        compress::framed(compression->0, datagram)
    } else {
        packet_of(datagram)
    }
}

/// What a tunnel sends back to a peer for a datagram that came in from the target: a tunnel that
/// compresses frames it for a peer that is another tunnel.
pub open spec fn answered(datagram: Seq<u8>, compression: Option<Compression>, link: bool) -> Seq<
    u8,
> {
    if compression is Some && link {
        compress::framed(compression->0, packet_of(datagram))
    } else {
        packet_of(datagram)
    }
}

/// What is counted of a datagram from a peer: bytes of packets, and bytes of frames.
pub open spec fn request_counts(datagram: Seq<u8>, compression: Option<Compression>) -> (nat, nat) {
    if compression is None {
        (0, 0)
    } else if is_link(datagram) {
        (packet_of(datagram).len(), datagram.len())
    } else {
        (packet_of(datagram).len(), relayed(datagram, compression).len())
    }
}

/// What is counted of a datagram from the target: bytes of packets, and bytes of frames.
pub open spec fn reply_counts(
    datagram: Seq<u8>,
    compression: Option<Compression>,
    link: bool,
) -> (nat, nat) {
    let came: (nat, nat) = if is_link(datagram) {
        (packet_of(datagram).len(), datagram.len())
    } else {
        (0, 0)
    };
    let goes: (nat, nat) = if compression is Some && link {
        (packet_of(datagram).len(), answered(datagram, compression, link).len())
    } else {
        (0, 0)
    };
    (came.0 + goes.0, came.1 + goes.1)
}

/// Bytes to send on, and what they count for.
#[derive(Debug)]
pub struct Relay {
    pub bytes: Vec<u8>,
    pub link: bool,
    pub counted: ByteStats,
}

/// What to do about a datagram from a peer.
#[derive(Debug)]
pub enum Inbound {
    Echo(Vec<u8>),
    Forward(Relay),
}

impl Inbound {
    /// The bytes that are sent, back or on.
    pub open spec fn sent(self) -> Seq<u8> {
        match self {
            Inbound::Echo(bytes) => bytes@,
            Inbound::Forward(relay) => relay.bytes@,
        }
    }
}

/// The content of a frame that arrived in one piece.
pub fn restore(data: &[u8]) -> (content: Option<Vec<u8>>)
    ensures
        match content {
            Some(c) => compress::frame_content(data@, BUF_SIZE as nat) == Some(c@),
            None => compress::frame_content(data@, BUF_SIZE as nat) is None,
        },
{
    let mut out: Vec<u8> = vec![0u8; BUF_SIZE];
    match compress::decompress(data, out.as_mut_slice()) {
        Some(n) => {
            out.truncate(n);
            assert(Some(out@) =~= compress::frame_content(data@, BUF_SIZE as nat));
            Some(out)
        },
        None => None,
    }
}

/// What to do about a datagram from a peer of a tunnel.
pub fn on_datagram(datagram: &[u8], compression: Option<Compression>) -> (inbound: Inbound)
    requires
        compression matches Some(c) ==> c.usable(),
    ensures
        match inbound {
            Inbound::Echo(bytes) => datagram@ == heartbeat() && bytes@ == heartbeat(),
            Inbound::Forward(relay) => {
                &&& datagram@ != heartbeat()
                &&& relay.bytes@ == relayed(datagram@, compression)
                &&& relay.link == is_link(datagram@)
                &&& relay.link ==> datagram@.len() >= compress::HEADER_LEN && datagram@.take(4)
                    == compress::magic()
                &&& relay.link ==> compress::frame_content(datagram@, BUF_SIZE as nat) == Some(
                    relay.bytes@,
                )
                &&& relay.counted.payload == if compression is Some {
                    packet_of(datagram@).len()
                } else {
                    0
                }
                &&& relay.counted.wire == if compression is None {
                    0
                } else if relay.link {
                    datagram@.len()
                } else {
                    relay.bytes@.len()
                }
                &&& compression is Some && !relay.link && datagram@.len() <= 0xffff
                    ==> compress::carries(relay.bytes@, datagram@)
                &&& relay.counted.payload == request_counts(datagram@, compression).0
                &&& relay.counted.wire == request_counts(datagram@, compression).1
            },
        },
        inbound is Echo <==> datagram@ == seq![0x49u8, 0x50u8, 0x42u8, 0x52u8],
        inbound is Echo ==> inbound.sent() == datagram@,
        inbound is Forward ==> inbound.sent() == relayed(datagram@, compression),
{
    if is_heartbeat(datagram) {
        return Inbound::Echo(slice_to_vec(datagram));
    }
    match restore(datagram) {
        Some(packet) => {
            let counted = if compression.is_some() {
                ByteStats { payload: packet.len() as u64, wire: datagram.len() as u64 }
            } else {
                ByteStats { payload: 0, wire: 0 }
            };
            Inbound::Forward(Relay { bytes: packet, link: true, counted })
        },
        None => match compression {
            Some(c) => {
                let mut frame: Vec<u8> = Vec::new();
                compress::compress_frame(c, datagram, &mut frame);
                let counted = ByteStats { payload: datagram.len() as u64, wire: frame.len() as u64 };
                Inbound::Forward(Relay { bytes: frame, link: false, counted })
            },
            None => Inbound::Forward(
                Relay {
                    bytes: slice_to_vec(datagram),
                    link: false,
                    counted: ByteStats { payload: 0, wire: 0 },
                },
            ),
        },
    }
}

/// What to send to the peer of a session for a datagram from the target. `link` tells whether the
/// session was opened by a frame.
pub fn on_response(datagram: &[u8], compression: Option<Compression>, link: bool) -> (relay: Relay)
    requires
        compression matches Some(c) ==> c.usable(),
        datagram@.len() <= BUF_SIZE,
    ensures
        relay.bytes@ == answered(datagram@, compression, link),
        relay.link == link,
        relay.counted.payload == (if is_link(datagram@) {
            packet_of(datagram@).len()
        } else {
            0
        }) + (if compression is Some && link {
            packet_of(datagram@).len()
        } else {
            0
        }),
        relay.counted.wire == (if is_link(datagram@) {
            datagram@.len()
        } else {
            0
        }) + (if compression is Some && link {
            relay.bytes@.len()
        } else {
            0
        }),
        compression is Some && link ==> compress::carries(relay.bytes@, packet_of(datagram@)),
        relay.counted.payload == reply_counts(datagram@, compression, link).0,
        relay.counted.wire == reply_counts(datagram@, compression, link).1,
{
    let mut counted: ByteStats = ByteStats { payload: 0, wire: 0 };
    let packet: Vec<u8> = match restore(datagram) {
        Some(content) => {
            counted.add(content.len() as u64, datagram.len() as u64);
            content
        },
        None => slice_to_vec(datagram),
    };
    proof {
        lemma_content_fits(datagram@);
    }
    if let Some(c) = compression {
        if link {
            let mut frame: Vec<u8> = Vec::new();
            compress::compress_frame(c, packet.as_slice(), &mut frame);
            proof {
                compress::law_frame_never_grows(c, packet@);
            }
            counted.add(packet.len() as u64, frame.len() as u64);
            return Relay { bytes: frame, link, counted };
        }
    }
    Relay { bytes: packet, link, counted }
}

/// What a frame restores to is no longer than its header can say.
proof fn lemma_content_fits(data: Seq<u8>)
    ensures
        compress::frame_content(data, BUF_SIZE as nat) matches Some(content) ==> content.len()
            <= BUF_SIZE,
{
}

/// Opens a session for a peer of a tunnel that was just heard of, in place of one that it may have,
/// and tells where it stands.
pub fn open_session<H>(table: &mut SessionTable<H>, peer: Peer, now: u64, handle: H) -> (place:
    usize)
    requires
        old(table).wf(),
    ensures
        final(table).wf(),
        place == session::seat_of(old(table)@, peer),
        place < final(table)@.len(),
        final(table)@[place as int] == (Session {
            peer,
            last_active: now,
            max_gap: MIN_TIMEOUT,
            handle,
        }),
        final(table)@ == session::seated(
            old(table)@,
            (Session { peer, last_active: now, max_gap: MIN_TIMEOUT, handle }),
        ),
{
    proof {
        session::law_inserted_session_is_found(
            table@,
            Session { peer, last_active: now, max_gap: MIN_TIMEOUT, handle },
        );
    }
    table.insert(peer, now, MIN_TIMEOUT, handle)
}

/// What is said of the compression of a tunnel.
pub open spec fn compress_text(compression: Option<Compression>) -> Seq<char> {
    match compression {
        Some(c) => "compress "@ + compress::codec_name(c.codec) + ":"@ + text::decimal_int(
            c.level as int,
        ),
        None => "no compression"@,
    }
}

pub fn fmt_compress(c: Option<Compression>) -> (note: String)
    ensures
        note@ == compress_text(c),
{
    match c {
        Some(c) => {
            let mut note = "compress ".to_owned();
            note.append(c.codec.name());
            note.append(":");
            note.append(text::decimal_int_text(c.level).as_str());
            note
        },
        None => "no compression".to_owned(),
    }
}

/// The line that introduces a tunnel.
pub open spec fn header_text(tunnel: TunnelView) -> Seq<char> {
    let label = match tunnel.protocol {
        Protocol::Udp => "UDP"@,
        Protocol::Tcp => "TCP"@,
    };
    "["@ + label + "] "@ + tunnel.listen + " -> "@ + tunnel.forward
}

pub fn fmt_tunnel_header(tunnel: &Tunnel) -> (line: String)
    ensures
        line@ == header_text(tunnel@),
{
    let label = match tunnel.protocol {
        Protocol::Udp => "UDP",
        Protocol::Tcp => "TCP",
    };
    let mut line = "[".to_owned();
    line.append(label);
    line.append("] ");
    line.append(tunnel.listen.as_str());
    line.append(" -> ");
    line.append(tunnel.forward.as_str());
    line
}

/// The host of an address: what stands between the brackets, or else before the last colon.
pub open spec fn host_of(addr: Seq<char>) -> Seq<char> {
    if addr.len() > 0 && addr[0] == '[' {
        match text::first_of(addr, ']') {
            Some(end) => addr.subrange(1, end),
            None => Seq::empty(),
        }
    } else {
        match text::last_of(addr, seq![':']) {
            Some(colon) => addr.take(colon),
            None => Seq::empty(),
        }
    }
}

/// Whether an address opens a bracket that it does not close.
pub open spec fn bracket_left_open(addr: Seq<char>) -> bool {
    addr.len() > 0 && addr[0] == '[' && !addr.contains(']')
}

/// The host of an address.
pub fn addr_host(addr: &str) -> (host: &str)
    requires
        !bracket_left_open(addr@),
    ensures
        host@ == host_of(addr@),
{
    let chars = text::chars_of(addr);
    let n: usize = chars.len();
    if n > 0 && chars[0] == '[' {
        proof {
            text::lemma_first_of(chars@, ']');
        }
        let end: usize = match text::find_first(&chars, ']') {
            Some(i) => i,
            None => 1,
        };
        addr.substring_char(1, end)
    } else {
        let colon: usize = match text::find_last(&chars, ':') {
            Some(i) => i,
            None => 0,
        };
        assert(addr@.subrange(0, colon as int) =~= host_of(addr@));
        addr.substring_char(0, colon)
    }
}

/// A frame is never taken for a heartbeat.
pub proof fn law_frame_is_no_heartbeat(c: Compression, packet: Seq<u8>)
    ensures
        compress::framed(c, packet) != heartbeat(),
{
    compress::law_frame_never_grows(c, packet);
}

/// Between two tunnels of which the first one compresses, a packet of a client reaches the
/// target as it was sent, whether the second one compresses or not. The second one learns from
/// the frame that its peer is a tunnel. (Every frame that `on_datagram` returns carries its
/// packet.)
pub proof fn law_request_arrives(near: Compression, far: Option<Compression>, packet: Seq<u8>)
    requires
        packet.len() <= BUF_SIZE,
        packet != heartbeat(),
        !is_link(packet),
        compress::carries(compress::framed(near, packet), packet),
    ensures
        relayed(packet, Some(near)) != heartbeat(),
        is_link(relayed(packet, Some(near))),
        relayed(relayed(packet, Some(near)), far) == packet,
{
    law_frame_is_no_heartbeat(near, packet);
}

/// On the way back, a reply of the target reaches the client as it was sent: a second tunnel
/// that compresses frames it for the first one, and the first one restores it for the client.
/// (Every frame that `on_response` returns carries its packet.)
pub proof fn law_reply_arrives(near: Compression, far: Option<Compression>, reply: Seq<u8>)
    requires
        reply.len() <= BUF_SIZE,
        !is_link(reply),
        far matches Some(c) ==> compress::carries(compress::framed(c, reply), reply),
    ensures
        far is Some ==> is_link(answered(reply, far, true)),
        answered(answered(reply, far, true), Some(near), false) == reply,
{
}

/// A tunnel that does not compress passes what is no frame on as it is, both ways.
pub proof fn law_plain_tunnel_changes_nothing(datagram: Seq<u8>, link: bool)
    requires
        !is_link(datagram),
    ensures
        relayed(datagram, None) == datagram,
        answered(datagram, None, link) == datagram,
{
}

/// A datagram that does not start with the magic is never taken for a frame: its sender is no
/// link, and it is passed on as it is, or framed by a tunnel that compresses. Replies that do not
/// start with it are treated likewise, and framed only for a link.
pub proof fn law_no_magic_no_link(datagram: Seq<u8>, c: Compression, link: bool)
    requires
        datagram.len() < 4 || datagram.take(4) != seq![0x49u8, 0x50u8, 0x42u8, 0x5au8],
    ensures
        !is_link(datagram),
        packet_of(datagram) == datagram,
        relayed(datagram, None) == datagram,
        relayed(datagram, Some(c)) == compress::framed(c, datagram),
        answered(datagram, None, link) == datagram,
        answered(datagram, Some(c), false) == datagram,
        answered(datagram, Some(c), true) == compress::framed(c, datagram),
{
    compress::law_no_magic_no_frame(datagram, BUF_SIZE as nat);
}

/// A datagram is taken for a frame exactly where it can be restored. What cannot be, though it
/// starts like a frame, is treated as any other datagram.
pub proof fn law_only_what_restores_is_a_link(datagram: Seq<u8>, c: Compression, link: bool)
    ensures
        is_link(datagram) <==> compress::frame_content(datagram, 65_535) is Some,
        is_link(datagram) ==> datagram.len() >= 10 && datagram.take(4) == seq![
            0x49u8,
            0x50u8,
            0x42u8,
            0x5au8,
        ],
        compress::frame_content(datagram, 65_535) is None ==> {
            &&& packet_of(datagram) == datagram
            &&& relayed(datagram, None) == datagram
            &&& relayed(datagram, Some(c)) == compress::framed(c, datagram)
            &&& answered(datagram, None, link) == datagram
            &&& answered(datagram, Some(c), false) == datagram
            &&& answered(datagram, Some(c), true) == compress::framed(c, datagram)
        },
{
}

/// A frame is restored wherever it comes from. Towards the target it is passed on restored, by a
/// tunnel that compresses too; towards a peer it is framed anew for a link alone, and only by a
/// tunnel that compresses.
pub proof fn law_frames_are_restored(
    frame: Seq<u8>,
    content: Seq<u8>,
    compression: Option<Compression>,
    link: bool,
)
    requires
        compress::carries(frame, content),
        content.len() <= 65_535,
    ensures
        is_link(frame),
        packet_of(frame) == content,
        relayed(frame, compression) == content,
        compression is None || !link ==> answered(frame, compression, link) == content,
        compression is Some && link ==> answered(frame, compression, link) == compress::framed(
            compression->0,
            content,
        ),
{
    compress::law_carried_content_comes_back(frame, content, 65_535);
}

/// The host of an address without brackets is what stands before the last colon; the host of one
/// in brackets is what they enclose.
pub proof fn law_host_stands_before_the_port(host: Seq<char>, rest: Seq<char>)
    ensures
        !rest.contains(':') && (host.len() == 0 || host[0] != '[') ==> host_of(
            host + seq![':'] + rest,
        ) == host,
        !host.contains(']') ==> host_of(seq!['['] + host + seq![']'] + rest) == host,
        !rest.contains(':') && (rest.len() == 0 || rest[0] != '[') ==> host_of(rest)
            == Seq::<char>::empty(),
{
    let pat = seq![':'];
    if !rest.contains(':') {
        text::lemma_last_of(rest, pat);
        if let Some(k) = text::last_of(rest, pat) {
            assert(rest.subrange(k, k + 1)[0] == ':');
            assert(rest[k] == ':');
        }
        let addr = host + pat + rest;
        assert(addr.subrange(host.len() as int, host.len() as int + 1) =~= pat);
        assert forall|j: int| host.len() < j && j + pat.len() <= addr.len() implies #[trigger] addr.subrange(
            j,
            j + pat.len(),
        ) != pat by {
            assert(addr.subrange(j, j + pat.len())[0] == rest[j - host.len() - 1]);
            assert(pat[0] == ':');
        }
        text::lemma_last_of_at(addr, pat, host.len() as int);
        assert(addr.take(host.len() as int) =~= host);
        if host.len() == 0 {
            assert(addr[0] == ':');
        } else {
            assert(addr[0] == host[0]);
        }
    }
    if !host.contains(']') {
        let addr = seq!['['] + host + seq![']'] + rest;
        let end = host.len() as int + 1;
        assert(addr[end] == ']');
        assert forall|j: int| 0 <= j < end implies addr[j] != ']' by {
            if j > 0 {
                assert(addr[j] == host[j - 1]);
            }
        }
        text::lemma_first_of_at(addr, ']', end);
        assert(addr[0] == '[');
        assert(addr.subrange(1, end) =~= host);
    }
}

/// The line that introduces a tunnel ends with where it listens and where it forwards to; what
/// stands before that depends on the protocol alone, and differs between the two.
pub proof fn law_header_names_both_ends(tunnel: TunnelView, other: TunnelView)
    ensures
        (tunnel.listen + " -> "@ + tunnel.forward).is_suffix_of(header_text(tunnel)),
        header_text(tunnel).len() == 6 + (tunnel.listen + " -> "@ + tunnel.forward).len(),
        tunnel.protocol == other.protocol <==> header_text(tunnel).take(6) == header_text(
            other,
        ).take(6),
{
    reveal_strlit("[");
    reveal_strlit("] ");
    reveal_strlit("UDP");
    reveal_strlit("TCP");
    let tail = |t: TunnelView| t.listen + " -> "@ + t.forward;
    let head = |t: TunnelView|
        "["@ + (if t.protocol == Protocol::Udp {
            "UDP"@
        } else {
            "TCP"@
        }) + "] "@;
    assert(header_text(tunnel) =~= head(tunnel) + tail(tunnel));
    assert(header_text(other) =~= head(other) + tail(other));
    assert(header_text(tunnel).take(6) =~= head(tunnel));
    assert(header_text(other).take(6) =~= head(other));
    assert(head(tunnel)[1] == if tunnel.protocol == Protocol::Udp {
        'U'
    } else {
        'T'
    });
    assert(head(other)[1] == if other.protocol == Protocol::Udp {
        'U'
    } else {
        'T'
    });
}

/// What is said of a compression ends with its level, and starts alike for all levels.
pub proof fn law_compression_is_named_with_its_level(c: Compression, other: i32)
    ensures
        compress_text(Some(c)) == "compress "@ + compress::codec_name(c.codec) + ":"@
            + text::decimal_int(c.level as int),
        compress_text(Some(c)).take(
            compress_text(Some(c)).len() - text::decimal_int(c.level as int).len(),
        ) == compress_text(Some(Compression { level: other, ..c })).take(
            compress_text(Some(Compression { level: other, ..c })).len() - text::decimal_int(
                other as int,
            ).len(),
        ),
        text::decimal_int(c.level as int).is_suffix_of(compress_text(Some(c))),
{
    let head = "compress "@ + compress::codec_name(c.codec) + ":"@;
    let d = Compression { level: other, ..c };
    assert(compress_text(Some(c)).take(head.len() as int) =~= head);
    assert(compress_text(Some(d)).take(head.len() as int) =~= head);
}

/// What is counted of a datagram from a peer: nothing by a tunnel that does not compress; else the
/// packet, and the frame that it came in or goes out in.
pub proof fn law_requests_are_counted(datagram: Seq<u8>, c: Compression, content: Seq<u8>)
    ensures
        request_counts(datagram, None) == (0nat, 0nat),
        compress::frame_content(datagram, 65_535) is None ==> request_counts(datagram, Some(c)) == (
            datagram.len(),
            compress::framed(c, datagram).len(),
        ),
        compress::frame_content(datagram, 65_535) == Some(content) ==> request_counts(
            datagram,
            Some(c),
        ) == (content.len(), datagram.len()),
{
}

/// What is counted of a datagram from the target: the packet and the frame that it came in, if it
/// came in one, and the packet and the frame that it goes out in, if it does.
pub proof fn law_replies_are_counted(datagram: Seq<u8>, c: Compression, content: Seq<u8>)
    ensures
        compress::frame_content(datagram, 65_535) is None ==> {
            &&& reply_counts(datagram, None, true) == (0nat, 0nat)
            &&& reply_counts(datagram, None, false) == (0nat, 0nat)
            &&& reply_counts(datagram, Some(c), false) == (0nat, 0nat)
            &&& reply_counts(datagram, Some(c), true) == (
                datagram.len(),
                compress::framed(c, datagram).len(),
            )
        },
        compress::frame_content(datagram, 65_535) == Some(content) ==> {
            &&& reply_counts(datagram, None, true) == (content.len(), datagram.len())
            &&& reply_counts(datagram, None, false) == (content.len(), datagram.len())
            &&& reply_counts(datagram, Some(c), false) == (content.len(), datagram.len())
            &&& reply_counts(datagram, Some(c), true) == (
                content.len() + content.len(),
                datagram.len() + compress::framed(c, content).len(),
            )
        },
{
}

/// A heartbeat is the four letters `IPBR`.
pub proof fn law_heartbeat_is_ipbr()
    ensures
        heartbeat().len() == 4,
        heartbeat()[0] == 'I' as u8 && heartbeat()[1] == 'P' as u8 && heartbeat()[2] == 'B' as u8
            && heartbeat()[3] == 'R' as u8,
{
}

} // verus!
