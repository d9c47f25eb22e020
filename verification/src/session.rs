//! The sessions of a UDP tunnel: one for each peer that sends through it.
//!
//! Times are nanoseconds since some fixed moment, and spans of time are nanoseconds.

use vstd::prelude::*;

verus! {

/// One second.
pub const SECOND: u64 = 1_000_000_000;

/// The shortest time that a silent session is kept.
pub const SHORTEST_TIMEOUT: u64 = 30 * SECOND;

/// The longest time that a silent session is kept.
pub const MAX_TIMEOUT: u64 = 180 * SECOND;

/// How long a session is kept whose longest silence so far was `max_gap`: three times as long,
/// within fixed bounds.
pub open spec fn timeout_of(max_gap: int) -> int {
    if 3 * max_gap < SHORTEST_TIMEOUT {
        SHORTEST_TIMEOUT as int
    } else if 3 * max_gap > MAX_TIMEOUT {
        MAX_TIMEOUT as int
    } else {
        3 * max_gap
    }
}

pub fn session_timeout(max_gap: u64) -> (timeout: u64)
    ensures
        timeout == timeout_of(max_gap as int),
{
    if max_gap > MAX_TIMEOUT {
        return MAX_TIMEOUT;
    }
    let t: u64 = max_gap * 3;
    if t < SHORTEST_TIMEOUT {
        SHORTEST_TIMEOUT
    } else if t > MAX_TIMEOUT {
        MAX_TIMEOUT
    } else {
        t
    }
}

/// The time from `earlier` to `now`, none where the clock did not move on.
pub open spec fn elapsed(earlier: u64, now: u64) -> int {
    if now >= earlier {
        now - earlier
    } else {
        0
    }
}

fn time_since(earlier: u64, now: u64) -> (span: u64)
    ensures
        span == elapsed(earlier, now),
{
    if now >= earlier {
        now - earlier
    } else {
        0
    }
}

/// Bytes that went through: as the peers see them, and as they were on the wire.
#[derive(Debug, Clone, Copy, PartialEq, Eq, Structural)]
pub struct ByteStats {
    pub payload: u64,
    pub wire: u64,
}

impl Default for ByteStats {
    fn default() -> (stats: Self)
        ensures
            stats.payload == 0,
            stats.wire == 0,
    {
        ByteStats { payload: 0, wire: 0 }
    }
}

impl ByteStats {
    /// Whether both counts can be raised.
    pub open spec fn has_room(self, payload: u64, wire: u64) -> bool {
        self.payload + payload <= u64::MAX && self.wire + wire <= u64::MAX
    }

    pub fn can_add(&self, payload: u64, wire: u64) -> (yes: bool)
        ensures
            yes == self.has_room(payload, wire),
    {
        payload <= u64::MAX - self.payload && wire <= u64::MAX - self.wire
    }

    pub fn add(&mut self, payload: u64, wire: u64)
        requires
            old(self).has_room(payload, wire),
        ensures
            final(self).payload == old(self).payload + payload,
            final(self).wire == old(self).wire + wire,
    {
        self.payload = self.payload + payload;
        self.wire = self.wire + wire;
    }
}

/// The sum of some counts of payload bytes.
pub open spec fn payload_sum(stats: Seq<ByteStats>) -> int
    decreases stats.len(),
{
    if stats.len() == 0 {
        0
    } else {
        payload_sum(stats.drop_last()) + stats.last().payload
    }
}

/// The sum of some counts of wire bytes.
pub open spec fn wire_sum(stats: Seq<ByteStats>) -> int
    decreases stats.len(),
{
    if stats.len() == 0 {
        0
    } else {
        wire_sum(stats.drop_last()) + stats.last().wire
    }
}

proof fn lemma_sums_grow(stats: Seq<ByteStats>, i: int)
    requires
        0 <= i <= stats.len(),
    ensures
        payload_sum(stats.take(i)) <= payload_sum(stats),
        wire_sum(stats.take(i)) <= wire_sum(stats),
    decreases stats.len() - i,
{
    if i == stats.len() {
        assert(stats.take(i) =~= stats);
    } else {
        assert(stats.take(i + 1).drop_last() =~= stats.take(i));
        lemma_sums_grow(stats, i + 1);
    }
}

/// The counts of all sessions together, where they can be held.
pub fn total(stats: &Vec<ByteStats>) -> (sum: Option<ByteStats>)
    ensures
        match sum {
            Some(s) => s.payload == payload_sum(stats@) && s.wire == wire_sum(stats@),
            None => payload_sum(stats@) > u64::MAX || wire_sum(stats@) > u64::MAX,
        },
{
    let n: usize = stats.len();
    let mut sum: ByteStats = ByteStats { payload: 0, wire: 0 };
    let mut i: usize = 0;
    while i < n
        invariant
            i <= n,
            n == stats@.len(),
            sum.payload == payload_sum(stats@.take(i as int)),
            sum.wire == wire_sum(stats@.take(i as int)),
        decreases n - i,
    {
        assert(stats@.take(i + 1).drop_last() =~= stats@.take(i as int));
        if !sum.can_add(stats[i].payload, stats[i].wire) {
            proof {
                lemma_sums_grow(stats@, i + 1);
            }
            return None;
        }
        sum.add(stats[i].payload, stats[i].wire);
        i = i + 1;
    }
    assert(stats@.take(n as int) =~= stats@);
    Some(sum)
}

/// The address of a peer.
#[derive(Debug, Clone, Copy, PartialEq, Eq, Structural)]
pub struct Peer {
    pub v6: bool,
    pub ip: u128,
    pub port: u16,
    pub flowinfo: u32,
    pub scope_id: u32,
}

/// One peer's session, with what the program holds open for it.
#[derive(Debug)]
pub struct Session<H> {
    pub peer: Peer,
    pub last_active: u64,
    pub max_gap: u64,
    pub handle: H,
}

impl<H> Session<H> {
    /// Whether the session has been silent for too long.
    pub open spec fn expired(self, now: u64) -> bool {
        elapsed(self.last_active, now) >= timeout_of(self.max_gap as int)
    }

    /// The session after its peer was heard of.
    pub open spec fn heard(self, now: u64) -> Session<H> {
        Session {
            last_active: now,
            max_gap: if elapsed(self.last_active, now) > self.max_gap {
                elapsed(self.last_active, now) as u64
            } else {
                self.max_gap
            },
            ..self
        }
    }

    pub fn is_expired(&self, now: u64) -> (yes: bool)
        ensures
            yes == self.expired(now),
    {
        time_since(self.last_active, now) >= session_timeout(self.max_gap)
    }
}

/// The sessions that have not expired at `now`.
pub open spec fn live<H>(sessions: Seq<Session<H>>, now: u64) -> Seq<Session<H>> {
    sessions.filter(|s: Session<H>| !s.expired(now))
}

/// The sessions that have expired at `now`.
pub open spec fn stale<H>(sessions: Seq<Session<H>>, now: u64) -> Seq<Session<H>> {
    sessions.filter(|s: Session<H>| s.expired(now))
}

/// Where the session of a peer stands.
pub open spec fn place_of<H>(sessions: Seq<Session<H>>, peer: Peer) -> Option<int>
    decreases sessions.len(),
{
    if sessions.len() == 0 {
        None
    } else if sessions.last().peer == peer {
        Some(sessions.len() - 1)
    } else {
        place_of(sessions.drop_last(), peer)
    }
}

/// Where a new session of a peer is put: where its old one stands, or else at the end.
pub open spec fn seat_of<H>(sessions: Seq<Session<H>>, peer: Peer) -> int {
    match place_of(sessions, peer) {
        Some(i) => i,
        None => sessions.len() as int,
    }
}

/// The sessions with a new one put in its place. All others stay as they are.
pub open spec fn seated<H>(sessions: Seq<Session<H>>, session: Session<H>) -> Seq<Session<H>> {
    match place_of(sessions, session.peer) {
        Some(i) => sessions.update(i, session),
        None => sessions.push(session),
    }
}

/// The sessions after a datagram from a peer: its session, where it has one, was heard of.
pub open spec fn marked<H>(sessions: Seq<Session<H>>, peer: Peer, now: u64) -> Seq<Session<H>> {
    match place_of(sessions, peer) {
        Some(i) => sessions.update(i, sessions[i].heard(now)),
        None => sessions,
    }
}

/// All sessions of a tunnel. No two of them have the same peer.
#[derive(Debug)]
pub struct SessionTable<H> {
    sessions: Vec<Session<H>>,
}

impl<H> View for SessionTable<H> {
    type V = Seq<Session<H>>;

    closed spec fn view(&self) -> Seq<Session<H>> {
        self.sessions@
    }
}

/// Whether each peer has at most one session.
pub open spec fn one_per_peer<H>(sessions: Seq<Session<H>>) -> bool {
    forall|i: int, j: int|
        0 <= i < j < sessions.len() ==> #[trigger] sessions[i].peer != #[trigger] sessions[j].peer
}

proof fn lemma_place_of<H>(sessions: Seq<Session<H>>, peer: Peer)
    ensures
        match place_of(sessions, peer) {
            Some(i) => 0 <= i < sessions.len() && sessions[i].peer == peer,
            None => forall|i: int| 0 <= i < sessions.len() ==> #[trigger] sessions[i].peer != peer,
        },
    decreases sessions.len(),
{
    if sessions.len() > 0 && sessions.last().peer != peer {
        lemma_place_of(sessions.drop_last(), peer);
        if place_of(sessions, peer) is None {
            assert forall|i: int| 0 <= i < sessions.len() implies #[trigger] sessions[i].peer
                != peer by {
                if i < sessions.len() - 1 {
                    assert(sessions.drop_last()[i].peer != peer);
                }
            }
        }
    }
}

/// What is left has not expired.
proof fn lemma_live_is_live<H>(sessions: Seq<Session<H>>, now: u64, i: int)
    requires
        0 <= i < live(sessions, now).len(),
    ensures
        !live(sessions, now)[i].expired(now),
    decreases sessions.len(),
{
    reveal(Seq::filter);
    if sessions.len() > 0 && i < live(sessions.drop_last(), now).len() {
        lemma_live_is_live(sessions.drop_last(), now, i);
    }
}

/// Leaving sessions out keeps one per peer.
proof fn lemma_filter_keeps_one_per_peer<H>(
    sessions: Seq<Session<H>>,
    keep: spec_fn(Session<H>) -> bool,
)
    requires
        one_per_peer(sessions),
    ensures
        one_per_peer(sessions.filter(keep)),
        forall|i: int|
            0 <= i < sessions.filter(keep).len() ==> exists|k: int|
                0 <= k < sessions.len() && sessions[k] == #[trigger] sessions.filter(keep)[i],
    decreases sessions.len(),
{
    reveal(Seq::filter);
    if sessions.len() > 0 {
        let before = sessions.drop_last();
        lemma_filter_keeps_one_per_peer(before, keep);
        let kept = before.filter(keep);
        let all = sessions.filter(keep);
        assert forall|i: int| 0 <= i < all.len() implies exists|k: int|
            0 <= k < sessions.len() && sessions[k] == #[trigger] all[i] by {
            if i < kept.len() {
                let k = choose|k: int| 0 <= k < before.len() && before[k] == kept[i];
                assert(sessions[k] == all[i]);
            } else {
                assert(sessions[sessions.len() - 1] == all[i]);
            }
        }
        assert forall|i: int, j: int| 0 <= i < j < all.len() implies #[trigger] all[i].peer
            != #[trigger] all[j].peer by {
            if j == kept.len() {
                let k = choose|k: int| 0 <= k < before.len() && before[k] == kept[i];
                assert(sessions[k].peer != sessions[sessions.len() - 1].peer);
            } else {
                assert(kept[i].peer != kept[j].peer);
            }
        }
    }
}

impl<H> SessionTable<H> {
    /// Each peer has at most one session.
    pub open spec fn wf(self) -> bool {
        one_per_peer(self@)
    }

    pub fn new() -> (table: Self)
        ensures
            table.wf(),
            table@ == Seq::<Session<H>>::empty(),
    {
        SessionTable { sessions: Vec::new() }
    }

    pub fn len(&self) -> (n: usize)
        ensures
            n == self@.len(),
    {
        self.sessions.len()
    }

    /// The session at a place.
    pub fn get(&self, i: usize) -> (session: &Session<H>)
        requires
            i < self@.len(),
        ensures
            *session == self@[i as int],
    {
        &self.sessions[i]
    }

    /// Takes out the sessions that have been silent for too long, and returns them.
    pub fn cleanup_expired(&mut self, now: u64) -> (removed: Vec<Session<H>>)
        requires
            old(self).wf(),
        ensures
            final(self).wf(),
            final(self)@ == live(old(self)@, now),
            removed@ == stale(old(self)@, now),
    {
        let ghost all = self@;
        let ghost keep = |s: Session<H>| !s.expired(now);
        let ghost drop = |s: Session<H>| s.expired(now);
        let mut removed: Vec<Session<H>> = Vec::new();
        let mut i: usize = 0;
        let ghost mut k: int = 0;
        proof {
            reveal(Seq::filter);
            assert(all.take(0) =~= Seq::<Session<H>>::empty());
            assert(all.skip(0) =~= all);
            assert(all.take(0).filter(keep) + all.skip(0) =~= all);
        }
        while i < self.sessions.len()
            invariant
                0 <= k <= all.len(),
                keep == (|s: Session<H>| !s.expired(now)),
                drop == (|s: Session<H>| s.expired(now)),
                self@ == all.take(k).filter(keep) + all.skip(k),
                i == all.take(k).filter(keep).len(),
                removed@ == all.take(k).filter(drop),
            decreases all.len() - k,
        {
            let ghost kept = all.take(k).filter(keep);
            proof {
                reveal(Seq::filter);
                assert(self@[i as int] == all.skip(k)[0]);
                assert(all.take(k + 1).drop_last() =~= all.take(k));
                assert(all.take(k + 1).last() == all[k]);
            }
            if self.sessions[i].is_expired(now) {
                let session = self.sessions.remove(i);
                removed.push(session);
                proof {
                    assert(all.take(k + 1).filter(keep) == kept);
                    assert(all.take(k + 1).filter(drop) == all.take(k).filter(drop).push(all[k]));
                    assert(self@ =~= kept + all.skip(k + 1));
                }
            } else {
                i = i + 1;
                proof {
                    assert(all.take(k + 1).filter(keep) == kept.push(all[k]));
                    assert(all.take(k + 1).filter(drop) == all.take(k).filter(drop));
                    assert(self@ =~= kept.push(all[k]) + all.skip(k + 1));
                }
            }
            proof {
                k = k + 1;
            }
        }
        proof {
            assert(all.skip(k).len() == 0);
            assert(all.take(k) =~= all);
            assert(self@ =~= all.filter(keep));
            lemma_filter_keeps_one_per_peer(all, keep);
        }
        removed
    }

    /// Where the session of a peer stands.
    fn find(&self, peer: Peer) -> (place: Option<usize>)
        ensures
            match place {
                Some(i) => i < self@.len() && place_of(self@, peer) == Some(i as int),
                None => place_of(self@, peer) is None,
            },
    {
        let mut n: usize = self.sessions.len();
        assert(self@.take(n as int) =~= self@);
        while n > 0
            invariant
                n <= self@.len(),
                place_of(self@, peer) == place_of(self@.take(n as int), peer),
            decreases n,
        {
            assert(self@.take(n as int).drop_last() =~= self@.take(n - 1));
            if self.sessions[n - 1].peer == peer {
                return Some(n - 1);
            }
            n = n - 1;
        }
        None
    }

    /// Marks the session of a peer as heard of, and tells where it stands, if there is one.
    pub fn hear(&mut self, peer: Peer, now: u64) -> (place: Option<usize>)
        requires
            old(self).wf(),
        ensures
            final(self).wf(),
            match place {
                Some(i) => {
                    &&& i < old(self)@.len()
                    &&& place_of(old(self)@, peer) == Some(i as int)
                    &&& final(self)@ == old(self)@.update(i as int, old(self)@[i as int].heard(now))
                },
                None => place_of(old(self)@, peer) is None && final(self)@ == old(self)@,
            },
            final(self)@ == marked(old(self)@, peer, now),
    {
        match self.find(peer) {
            Some(i) => {
                let gap: u64 = time_since(self.sessions[i].last_active, now);
                if gap > self.sessions[i].max_gap {
                    self.sessions[i].max_gap = gap;
                }
                self.sessions[i].last_active = now;
                assert(self@ =~= old(self)@.update(i as int, old(self)@[i as int].heard(now)));
                Some(i)
            },
            None => None,
        }
    }

    /// Takes note of a datagram from a peer: takes out the sessions that have been silent for too
    /// long and returns them; of those that are left, marks the peer's as heard of, and tells
    /// where it stands, if there is one. A session that has expired is never heard of again.
    pub fn arrive(&mut self, peer: Peer, now: u64) -> (result: (Vec<Session<H>>, Option<usize>))
        requires
            old(self).wf(),
        ensures
            final(self).wf(),
            result.0@ == stale(old(self)@, now),
            match result.1 {
                Some(i) => {
                    &&& i < live(old(self)@, now).len()
                    &&& place_of(live(old(self)@, now), peer) == Some(i as int)
                    &&& final(self)@ == live(old(self)@, now).update(
                        i as int,
                        live(old(self)@, now)[i as int].heard(now),
                    )
                },
                None => {
                    &&& place_of(live(old(self)@, now), peer) is None
                    &&& final(self)@ == live(old(self)@, now)
                },
            },
            final(self)@ == marked(live(old(self)@, now), peer, now),
    {
        let removed = self.cleanup_expired(now);
        let place = self.hear(peer, now);
        (removed, place)
    }

    /// Adds a session for a peer, in place of one that it may have, and tells where it stands.
    pub fn insert(&mut self, peer: Peer, now: u64, first_gap: u64, handle: H) -> (place: usize)
        requires
            old(self).wf(),
        ensures
            final(self).wf(),
            place == seat_of(old(self)@, peer),
            place < final(self)@.len(),
            final(self)@ == seated(
                old(self)@,
                (Session { peer, last_active: now, max_gap: first_gap, handle }),
            ),
    {
        let session = Session { peer, last_active: now, max_gap: first_gap, handle };
        proof {
            lemma_place_of(self@, peer);
        }
        match self.find(peer) {
            Some(i) => {
                self.sessions[i] = session;
                assert(self@ =~= old(self)@.update(i as int, session));
                i
            },
            None => {
                self.sessions.push(session);
                assert(self@ =~= old(self)@.push(session));
                self.sessions.len() - 1
            },
        }
    }
}

/// A silent session is kept for at least the shortest time and at most the longest, and the
/// longer its peer used to be silent, the longer it is kept.
pub proof fn law_timeout_adapts_within_bounds(gap: int, longer_gap: int)
    requires
        gap <= longer_gap,
    ensures
        SHORTEST_TIMEOUT <= timeout_of(gap) <= timeout_of(longer_gap) <= MAX_TIMEOUT,
{
}

/// Hearing of a peer never shortens the time that its session is kept, and keeps the session for
/// at least the shortest time from then on.
pub proof fn law_heard_session_lives<H>(session: Session<H>, now: u64, later: u64)
    ensures
        timeout_of(session.heard(now).max_gap as int) >= timeout_of(session.max_gap as int),
        elapsed(now, later) < SHORTEST_TIMEOUT ==> !session.heard(now).expired(later),
{
}

/// A session that was silent for the longest time is expired.
pub proof fn law_silent_session_expires<H>(session: Session<H>, now: u64)
    requires
        elapsed(session.last_active, now) >= MAX_TIMEOUT,
    ensures
        session.expired(now),
{
}

/// A cleanup leaves no expired session, so that a second one at the same time changes nothing,
/// and it loses none: each session is either kept or handed out.
pub proof fn law_cleanup_settles<H>(sessions: Seq<Session<H>>, now: u64)
    ensures
        live(live(sessions, now), now) == live(sessions, now),
        stale(live(sessions, now), now) == Seq::<Session<H>>::empty(),
        live(sessions, now).len() + stale(sessions, now).len() == sessions.len(),
        forall|s: Session<H>|
            #![trigger sessions.contains(s)]
            sessions.contains(s) ==> if s.expired(now) {
                stale(sessions, now).contains(s)
            } else {
                live(sessions, now).contains(s)
            },
    decreases sessions.len(),
{
    reveal(Seq::filter);
    if sessions.len() > 0 {
        let before = sessions.drop_last();
        let last = sessions.last();
        law_cleanup_settles(before, now);
        if !last.expired(now) {
            assert(live(sessions, now).drop_last() =~= live(before, now));
        }
        assert forall|s: Session<H>| #[trigger] sessions.contains(s) implies if s.expired(now) {
            stale(sessions, now).contains(s)
        } else {
            live(sessions, now).contains(s)
        } by {
            let k = sessions.index_of(s);
            if k < before.len() {
                assert(before[k] == s);
                assert(before.contains(s));
                if s.expired(now) {
                    let m = stale(before, now).index_of(s);
                    assert(stale(sessions, now)[m] == s);
                } else {
                    let m = live(before, now).index_of(s);
                    assert(live(sessions, now)[m] == s);
                }
            } else if s.expired(now) {
                assert(stale(sessions, now).last() == s);
            } else {
                assert(live(sessions, now).last() == s);
            }
        }
    }
}

/// A peer that was just heard of keeps its session through a cleanup.
pub proof fn law_heard_peer_survives_cleanup<H>(sessions: Seq<Session<H>>, i: int, now: u64)
    requires
        0 <= i < sessions.len(),
    ensures
        live(sessions.update(i, sessions[i].heard(now)), now).contains(sessions[i].heard(now)),
{
    let updated = sessions.update(i, sessions[i].heard(now));
    law_cleanup_settles(updated, now);
    law_heard_session_lives(sessions[i], now, now);
    assert(updated[i] == sessions[i].heard(now));
    assert(updated.contains(sessions[i].heard(now)));
}

/// The session that a datagram is taken to belong to has not expired: a peer that was silent for
/// too long finds none, and gets a new one.
pub proof fn law_expired_session_is_not_reused<H>(sessions: Seq<Session<H>>, peer: Peer, now: u64)
    requires
        one_per_peer(sessions),
    ensures
        place_of(live(sessions, now), peer) matches Some(i) ==> {
            &&& 0 <= i < live(sessions, now).len()
            &&& live(sessions, now)[i].peer == peer
            &&& !live(sessions, now)[i].expired(now)
        },
        place_of(sessions, peer) matches Some(i) ==> (sessions[i].expired(now) <==> place_of(
            live(sessions, now),
            peer,
        ) is None),
        place_of(sessions, peer) is None ==> place_of(live(sessions, now), peer) is None,
{
    let keep = |s: Session<H>| !s.expired(now);
    let kept = live(sessions, now);
    lemma_place_of(sessions, peer);
    lemma_place_of(kept, peer);
    lemma_filter_keeps_one_per_peer(sessions, keep);
    law_cleanup_settles(sessions, now);
    if let Some(i) = place_of(kept, peer) {
        lemma_live_is_live(sessions, now, i);
        let k = choose|k: int| 0 <= k < sessions.len() && sessions[k] == kept[i];
        assert(sessions[k].peer == peer);
        if let Some(j) = place_of(sessions, peer) {
            if j < k {
                assert(sessions[j].peer != sessions[k].peer);
            } else if k < j {
                assert(sessions[k].peer != sessions[j].peer);
            }
        }
    } else if let Some(j) = place_of(sessions, peer) {
        assert(sessions.contains(sessions[j]));
        if !sessions[j].expired(now) {
            let m = kept.index_of(sessions[j]);
            assert(kept[m].peer == peer);
        }
    }
}

/// A session that was added is found again where it was put, and every other one is where it was.
pub proof fn law_inserted_session_is_found<H>(sessions: Seq<Session<H>>, session: Session<H>)
    requires
        one_per_peer(sessions),
    ensures
        place_of(seated(sessions, session), session.peer) == Some(seat_of(sessions, session.peer)),
        0 <= seat_of(sessions, session.peer) < seated(sessions, session).len(),
        seated(sessions, session)[seat_of(sessions, session.peer)] == session,
        forall|i: int|
            0 <= i < sessions.len() && i != seat_of(sessions, session.peer) ==> #[trigger] seated(
                sessions,
                session,
            )[i] == sessions[i],
{
    lemma_place_of(sessions, session.peer);
    if let Some(i) = place_of(sessions, session.peer) {
        let updated = sessions.update(i, session);
        lemma_place_of(updated, session.peer);
        assert(updated[i].peer == session.peer);
        if let Some(j) = place_of(updated, session.peer) {
            if i != j {
                assert(sessions[i].peer == sessions[j].peer);
            }
        }
    }
}

/// Between the bounds, a silent session is kept for three times the longest silence so far.
pub proof fn law_timeout_is_three_gaps(gap: int)
    ensures
        SHORTEST_TIMEOUT <= 3 * gap <= MAX_TIMEOUT ==> timeout_of(gap) == 3 * gap,
        3 * gap < SHORTEST_TIMEOUT ==> timeout_of(gap) == SHORTEST_TIMEOUT,
        3 * gap > MAX_TIMEOUT ==> timeout_of(gap) == MAX_TIMEOUT,
{
}

/// A session is expired exactly from the moment when its timeout has passed since its peer was
/// last heard of, and stays so.
pub proof fn law_expiry_is_a_moment<H>(session: Session<H>, now: u64, later: u64)
    ensures
        session.expired(now) <==> session.last_active + timeout_of(session.max_gap as int) <= now,
        session.expired(now) && now <= later ==> session.expired(later),
{
}

/// Hearing of a peer makes its longest silence the longer of what it was and of the silence that
/// just ended. Nothing else of the session changes but the time it was last active.
pub proof fn law_longest_silence_is_remembered<H>(session: Session<H>, now: u64)
    ensures
        session.heard(now).max_gap >= session.max_gap,
        session.last_active <= now ==> session.last_active + session.heard(now).max_gap >= now,
        session.heard(now).max_gap == session.max_gap || session.last_active + session.heard(
            now,
        ).max_gap == now,
        session.heard(now).last_active == now,
        session.heard(now).peer == session.peer,
        session.heard(now).handle == session.handle,
{
}

/// The timeout adapts: a peer that came back after a silence may be silent for any time shorter
/// than three times as long, or than the longest timeout, and keeps its session.
pub proof fn law_timeout_adapts_to_the_silence<H>(session: Session<H>, now: u64, later: u64)
    requires
        session.last_active <= now <= later,
        later - now < 3 * (now - session.last_active),
        later - now < MAX_TIMEOUT,
    ensures
        !session.heard(now).expired(later),
{
}

/// A cleanup judges each session by itself and keeps their order: of two tables, one behind the
/// other, it keeps and hands out what it does of each.
pub proof fn law_cleanup_goes_session_by_session<H>(
    first: Seq<Session<H>>,
    second: Seq<Session<H>>,
    now: u64,
)
    ensures
        live(first + second, now) == live(first, now) + live(second, now),
        stale(first + second, now) == stale(first, now) + stale(second, now),
    decreases second.len(),
{
    reveal(Seq::filter);
    if second.len() == 0 {
        assert(first + second =~= first);
        assert(live(second, now) =~= Seq::<Session<H>>::empty());
        assert(stale(second, now) =~= Seq::<Session<H>>::empty());
        assert(live(first, now) + live(second, now) =~= live(first, now));
        assert(stale(first, now) + stale(second, now) =~= stale(first, now));
    } else {
        let both = first + second;
        law_cleanup_goes_session_by_session(first, second.drop_last(), now);
        assert(both.drop_last() =~= first + second.drop_last());
        assert(both.last() == second.last());
        assert(live(both, now) =~= live(first, now) + live(second, now));
        assert(stale(both, now) =~= stale(first, now) + stale(second, now));
    }
}

/// A session alone is kept as it is before its timeout has passed, and handed out as it is after.
pub proof fn law_cleanup_of_one_session<H>(session: Session<H>, now: u64)
    ensures
        ({
            let one = seq![session];
            let none = Seq::<Session<H>>::empty();
            if session.last_active + timeout_of(session.max_gap as int) <= now {
                live(one, now) == none && stale(one, now) == one
            } else {
                live(one, now) == one && stale(one, now) == none
            }
        }),
{
    reveal(Seq::filter);
    let one = seq![session];
    let none = Seq::<Session<H>>::empty();
    assert(one.drop_last() =~= none);
    assert(live(none, now) =~= none);
    assert(stale(none, now) =~= none);
    assert(one.last() == session);
    assert(none.push(session) =~= one);
}

/// A session is found where its peer has one, and nowhere else.
pub proof fn law_place_is_the_peers<H>(sessions: Seq<Session<H>>, peer: Peer)
    ensures
        match place_of(sessions, peer) {
            Some(i) => 0 <= i < sessions.len() && sessions[i].peer == peer,
            None => forall|i: int| 0 <= i < sessions.len() ==> #[trigger] sessions[i].peer != peer,
        },
{
    lemma_place_of(sessions, peer);
}

/// The counts of two groups of sessions add up to the counts of all, and the counts of one
/// session are its own.
pub proof fn law_counts_add_up(first: Seq<ByteStats>, second: Seq<ByteStats>, one: ByteStats)
    ensures
        payload_sum(first + second) == payload_sum(first) + payload_sum(second),
        wire_sum(first + second) == wire_sum(first) + wire_sum(second),
        payload_sum(seq![one]) == one.payload,
        wire_sum(seq![one]) == one.wire,
    decreases second.len(),
{
    assert(seq![one].drop_last() =~= Seq::<ByteStats>::empty());
    assert(payload_sum(Seq::<ByteStats>::empty()) == 0);
    assert(wire_sum(Seq::<ByteStats>::empty()) == 0);
    assert(seq![one].last() == one);
    if second.len() == 0 {
        assert(first + second =~= first);
    } else {
        law_counts_add_up(first, second.drop_last(), one);
        assert((first + second).drop_last() =~= first + second.drop_last());
    }
}

/// A datagram from a peer changes the session of that peer alone, where it has one: that one is
/// heard of, and every other stays.
pub proof fn law_arrival_touches_one_session<H>(sessions: Seq<Session<H>>, peer: Peer, now: u64)
    requires
        one_per_peer(sessions),
    ensures
        marked(sessions, peer, now).len() == sessions.len(),
        forall|i: int|
            0 <= i < sessions.len() ==> #[trigger] marked(sessions, peer, now)[i] == if sessions[i].peer
                == peer {
                sessions[i].heard(now)
            } else {
                sessions[i]
            },
{
    lemma_place_of(sessions, peer);
    if let Some(k) = place_of(sessions, peer) {
        assert forall|i: int| 0 <= i < sessions.len() && i != k implies #[trigger] sessions[i].peer
            != peer by {
            assert(sessions[k].peer == peer);
            if i < k {
                assert(sessions[i].peer != sessions[k].peer);
            } else {
                assert(sessions[k].peer != sessions[i].peer);
            }
        }
    }
}

/// A peer that comes back after a silence within its timeout keeps its session through any later
/// silence that is shorter than three times as long, and than the longest timeout.
pub proof fn law_returning_peer_keeps_its_session<H>(
    sessions: Seq<Session<H>>,
    i: int,
    now: u64,
    later: u64,
)
    requires
        one_per_peer(sessions),
        0 <= i < sessions.len(),
        sessions[i].last_active <= now <= later,
        !sessions[i].expired(now),
        later - now < 3 * (now - sessions[i].last_active) || later - now < SHORTEST_TIMEOUT,
        later - now < MAX_TIMEOUT,
    ensures
        live(marked(live(sessions, now), sessions[i].peer, now), later).contains(
            sessions[i].heard(now),
        ),
{
    let peer = sessions[i].peer;
    let kept = live(sessions, now);
    let keep = |s: Session<H>| !s.expired(now);
    law_cleanup_settles(sessions, now);
    assert(sessions.contains(sessions[i]));
    let m = kept.index_of(sessions[i]);
    lemma_filter_keeps_one_per_peer(sessions, keep);
    law_arrival_touches_one_session(kept, peer, now);
    let after = marked(kept, peer, now);
    assert(after[m] == sessions[i].heard(now));
    assert(after.contains(sessions[i].heard(now)));
    law_cleanup_settles(after, later);
    law_heard_session_lives(sessions[i], now, later);
    if later - now < 3 * (now - sessions[i].last_active) {
        law_timeout_adapts_to_the_silence(sessions[i], now, later);
    }
}

} // verus!
