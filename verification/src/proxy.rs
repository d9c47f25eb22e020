//! A proxy: a tunnel that never looks inside what it carries.

use crate::session;
use crate::session::{ByteStats, Peer, Session, SessionTable, SECOND};
use crate::tunnel;
use crate::tunnel::{Inbound, Relay};
use vstd::prelude::*;
use vstd::slice::*;

verus! {

/// How long a new session of a proxy is taken to have been silent already.
pub const MIN_TIMEOUT: u64 = 10 * SECOND;

/// What to do about a datagram from a peer of a proxy: a heartbeat is sent back, and anything
/// else, a frame too, is passed on as it is and not counted.
pub fn on_datagram(datagram: &[u8]) -> (inbound: Inbound)
    ensures
        match inbound {
            Inbound::Echo(bytes) => datagram@ == tunnel::heartbeat() && bytes@
                == tunnel::heartbeat(),
            Inbound::Forward(relay) => {
                &&& datagram@ != tunnel::heartbeat()
                &&& relay.bytes@ == datagram@
                &&& !relay.link
                &&& relay.counted.payload == 0
                &&& relay.counted.wire == 0
            },
        },
        inbound is Echo <==> datagram@ == seq![0x49u8, 0x50u8, 0x42u8, 0x52u8],
        inbound.sent() == datagram@,
{
    let bytes = slice_to_vec(datagram);
    if tunnel::is_heartbeat(datagram) {
        Inbound::Echo(bytes)
    } else {
        Inbound::Forward(
            Relay { bytes, link: false, counted: ByteStats { payload: 0, wire: 0 } },
        )
    }
}

/// Opens a session for a peer of a proxy that was just heard of, in place of one that it may have,
/// and tells where it stands.
pub fn open_session<H>(table: &mut SessionTable<H>, peer: Peer, now: u64, handle: H) -> (place:
    usize)
    requires
        old(table).wf(),
    ensures
        final(table).wf(),
        place == session::seat_of(old(table)@, peer),
        place < final(table)@.len(),
        final(table)@[place as int] == (Session {
            peer,
            last_active: now,
            max_gap: MIN_TIMEOUT,
            handle,
        }),
        final(table)@ == session::seated(
            old(table)@,
            (Session { peer, last_active: now, max_gap: MIN_TIMEOUT, handle }),
        ),
{
    proof {
        session::law_inserted_session_is_found(
            table@,
            Session { peer, last_active: now, max_gap: MIN_TIMEOUT, handle },
        );
    }
    table.insert(peer, now, MIN_TIMEOUT, handle)
}

} // verus!
