//! The server: many connections behind one socket, told apart by the
//! identifier in each packet's header. The identifier that a peer sends is
//! the key under which the server keeps the peer's connection; the
//! connection's own identifier, which goes out with its packets, is drawn
//! by the caller.
//!
//! The server itself touches no socket and no clock. Its caller binds the
//! socket, hands every datagram that arrives to `receive`, calls `tick` at
//! the send rate and sends what `tick` returns.

use crate::address::Address;
use crate::config::Config;
use crate::connection::{
    sealed, Connection, ConnectionID, ConnectionView, Departure,
};
use crate::handler::Handler;
use crate::message::{payloads, MessageKind};
use crate::queue::contents;
use crate::wire::{id_field, well_framed};
use vstd::prelude::*;

verus! {

/// A connection of the server, and the key under which the server keeps
/// it: the identifier that the peer's datagrams carry.
pub struct PeerView {
    pub key: ConnectionID,
    pub connection: ConnectionView,
}

/// Where in `connections` the connection kept under the key `id` stands;
/// the length of `connections` where there is none.
pub open spec fn index_of(connections: Seq<PeerView>, id: ConnectionID) -> int
    decreases connections.len(),
{
    if connections.len() == 0 {
        0
    } else if connections[0].key == id {
        0
    } else {
        1 + index_of(connections.skip(1), id)
    }
}

/// No two connections are kept under one key.
pub open spec fn distinct_keys(connections: Seq<PeerView>) -> bool {
    forall|i: int, j: int|
        0 <= i < j < connections.len() ==> (#[trigger] connections[i]).key != (
        #[trigger] connections[j]).key
}

/// The keys of `connections`.
pub open spec fn keys_of(connections: Seq<PeerView>) -> Seq<ConnectionID> {
    connections.map_values(|p: PeerView| p.key)
}

/// A peer with its connection replaced.
pub open spec fn with_connection(peer: PeerView, connection: ConnectionView) -> PeerView {
    PeerView { key: peer.key, connection }
}

/// The connections after the peer whose datagrams carry `id` was found to
/// send from `addr`: a peer that is not known gets a new connection, which
/// is kept under `id` and has `fresh` as its own identifier, and the
/// peer's connection takes `addr` as the peer's address.
pub open spec fn seated(
    connections: Seq<PeerView>,
    config: Config,
    local_addr: Address,
    addr: Address,
    id: ConnectionID,
    fresh: ConnectionID,
    now: u64,
) -> Seq<PeerView> {
    let at = index_of(connections, id);
    let base = if at < connections.len() {
        connections
    } else {
        connections.push(
            PeerView {
                key: id,
                connection: ConnectionView::initial(config, fresh, local_addr, addr, now),
            },
        )
    };
    base.update(
        at,
        with_connection(base[at], ConnectionView { peer_addr: addr, ..base[at].connection }),
    )
}

/// The connections after a datagram from `addr` was matched to its
/// connection: a datagram that is not of the protocol changes nothing, any
/// other seats the sender whom its header names.
pub open spec fn joined(
    connections: Seq<PeerView>,
    config: Config,
    local_addr: Address,
    addr: Address,
    packet: Seq<u8>,
    fresh: ConnectionID,
    now: u64,
) -> Seq<PeerView> {
    if !well_framed(packet, config.tag()) {
        connections
    } else {
        seated(connections, config, local_addr, addr, ConnectionID(id_field(packet)), fresh, now)
    }
}

/// The connections after a datagram from `addr` was handed to its
/// connection, where the application's transform turned the datagram's
/// body into `body`.
pub open spec fn routed(
    connections: Seq<PeerView>,
    config: Config,
    local_addr: Address,
    addr: Address,
    packet: Seq<u8>,
    fresh: ConnectionID,
    tick_delay: u32,
    now: u64,
    body: Seq<u8>,
) -> Seq<PeerView> {
    if !well_framed(packet, config.tag()) {
        connections
    } else {
        let at = index_of(connections, ConnectionID(id_field(packet)));
        let with_sender = joined(connections, config, local_addr, addr, packet, fresh, now);
        with_sender.update(
            at,
            with_connection(
                with_sender[at],
                with_sender[at].connection.after_receive(packet, tick_delay, now, body),
            ),
        )
    }
}

/// Whether a connection sends on tick number `tick`: always unless it is
/// congested, and then on one of `divider` ticks only.
pub open spec fn due(connection: ConnectionView, tick: u32, divider: u32) -> bool
    recommends
        divider > 0,
{
    !connection.congested || tick % divider == 0
}

/// A connection after tick number `tick` at `now`.
pub open spec fn stepped(
    connection: ConnectionView,
    now: u64,
    tick: u32,
    divider: u32,
) -> ConnectionView {
    if due(connection, tick, divider) {
        connection.after_send(now)
    } else {
        connection
    }
}

/// The connections after a tick: each has sent if it was due, and those
/// that are closed or lost afterwards are gone.
pub open spec fn survivors(
    connections: Seq<PeerView>,
    now: u64,
    tick: u32,
    divider: u32,
) -> Seq<PeerView>
    decreases connections.len(),
{
    if connections.len() == 0 {
        Seq::empty()
    } else {
        let last = stepped(connections.last().connection, now, tick, divider);
        survivors(connections.drop_last(), now, tick, divider) + if last.is_open() {
            seq![with_connection(connections.last(), last)]
        } else {
            Seq::empty()
        }
    }
}

/// A packet to send and the peer to send it to.
#[derive(Debug)]
pub struct Datagram {
    pub to: Address,
    pub data: Vec<u8>,
}

/// What a connection has to send on a tick, and to whom.
pub struct Dispatch {
    pub to: Address,
    pub departure: Departure,
}

/// Whether `departure` is a packet.
pub open spec fn is_packet(departure: Departure) -> bool {
    departure is Closure || departure is Data
}

/// What the connections have to send on a tick, in their order.
pub open spec fn dispatches(
    connections: Seq<PeerView>,
    now: u64,
    tick: u32,
    divider: u32,
) -> Seq<Dispatch>
    decreases connections.len(),
{
    if connections.len() == 0 {
        Seq::empty()
    } else {
        let last = connections.last().connection;
        dispatches(connections.drop_last(), now, tick, divider) + if due(last, tick, divider)
            && is_packet(last.departure(now)) {
            seq![Dispatch { to: last.peer_addr, departure: last.departure(now) }]
        } else {
            Seq::empty()
        }
    }
}

/// Whether the bytes `sent` are the packet that `departure` calls for: the
/// closure packet itself, or a packet of messages as it leaves the
/// application's transform.
pub open spec fn carries(sent: Seq<u8>, departure: Departure) -> bool {
    match departure {
        Departure::Closure(bytes) => sent == bytes,
        Departure::Data { header, body } => sent == sealed(header, body, sent),
        _ => false,
    }
}

/// Whether `datagrams` are what `dispatches` call for, one for one.
pub open spec fn fulfils(datagrams: Seq<Datagram>, dispatches: Seq<Dispatch>) -> bool {
    &&& datagrams.len() == dispatches.len()
    &&& forall|k: int|
        0 <= k < datagrams.len() ==> (#[trigger] datagrams[k]).to == dispatches[k].to && carries(
            datagrams[k].data@,
            dispatches[k].departure,
        )
}

/// The tick number after `tick` at `send_rate` ticks per second: ticks are
/// counted through one second.
pub open spec fn next_tick(tick: u32, send_rate: u32) -> u32 {
    if tick >= send_rate || tick + 1 == send_rate {
        0
    } else {
        (tick + 1) as u32
    }
}

/// `index_of` is the first place at which a connection with the identifier
/// stands.
pub proof fn lemma_index_first(connections: Seq<PeerView>, id: ConnectionID, at: int)
    requires
        0 <= at <= connections.len(),
        forall|j: int| 0 <= j < at ==> (#[trigger] connections[j]).key != id,
        at < connections.len() ==> connections[at].key == id,
    ensures
        index_of(connections, id) == at,
    decreases connections.len(),
{
    if connections.len() == 0 {
    } else if at == 0 {
    } else {
        assert(connections[0].key != id);
        let rest = connections.skip(1);
        assert forall|j: int| 0 <= j < at - 1 implies (#[trigger] rest[j]).key != id by {
            assert(rest[j] == connections[j + 1]);
        }
        lemma_index_first(rest, id, at - 1);
    }
}

/// `index_of` lies within the connections or at their end, names a
/// connection with the identifier if it lies within, and no connection
/// before it has that identifier.
pub proof fn lemma_index_of(connections: Seq<PeerView>, id: ConnectionID)
    ensures
        0 <= index_of(connections, id) <= connections.len(),
        index_of(connections, id) < connections.len() ==> connections[index_of(
            connections,
            id,
        )].key == id,
        forall|j: int| 0 <= j < index_of(connections, id) ==> (#[trigger] connections[j]).key != id,
    decreases connections.len(),
{
    if connections.len() == 0 {
    } else if connections[0].key == id {
    } else {
        let rest = connections.skip(1);
        lemma_index_of(rest, id);
        assert forall|j: int| 0 <= j < index_of(connections, id) implies (
        #[trigger] connections[j]).key != id by {
            if j > 0 {
                assert(rest[j - 1] == connections[j]);
            }
        }
    }
}

/// Every connection that a tick leaves is one of those before the tick,
/// and stands behind the ones left before it as it did before.
pub proof fn lemma_survivor_from(
    connections: Seq<PeerView>,
    now: u64,
    tick: u32,
    divider: u32,
    k: int,
) -> (origin: int)
    requires
        0 <= k < survivors(connections, now, tick, divider).len(),
    ensures
        0 <= origin < connections.len(),
        survivors(connections, now, tick, divider)[k] == with_connection(
            connections[origin],
            stepped(connections[origin].connection, now, tick, divider),
        ),
        survivors(connections, now, tick, divider)[k].connection.is_open(),
        k <= origin,
        survivors(connections.take(origin), now, tick, divider).len() == k,
    decreases connections.len(),
{
    let front = connections.drop_last();
    let left = survivors(front, now, tick, divider);
    if k < left.len() {
        let origin = lemma_survivor_from(front, now, tick, divider, k);
        assert(front.take(origin) =~= connections.take(origin));
        origin
    } else {
        assert(front =~= connections.take(connections.len() - 1));
        lemma_survivors_len(front, now, tick, divider);
        connections.len() - 1
    }
}

/// A tick leaves no more connections than there were.
pub proof fn lemma_survivors_len(connections: Seq<PeerView>, now: u64, tick: u32, divider: u32)
    ensures
        survivors(connections, now, tick, divider).len() <= connections.len(),
    decreases connections.len(),
{
    if connections.len() > 0 {
        lemma_survivors_len(connections.drop_last(), now, tick, divider);
    }
}

/// A tick leaves distinct keys distinct, and every connection that it
/// leaves is open.
pub proof fn lemma_survivors_distinct(
    connections: Seq<PeerView>,
    now: u64,
    tick: u32,
    divider: u32,
)
    requires
        distinct_keys(connections),
    ensures
        distinct_keys(survivors(connections, now, tick, divider)),
        forall|k: int|
            0 <= k < survivors(connections, now, tick, divider).len() ==> (#[trigger] survivors(
                connections,
                now,
                tick,
                divider,
            )[k]).connection.is_open(),
{
    let left = survivors(connections, now, tick, divider);
    assert forall|i: int, j: int| 0 <= i < j < left.len() implies (#[trigger] left[i]).key != (
    #[trigger] left[j]).key by {
        let oi = lemma_survivor_from(connections, now, tick, divider, i);
        let oj = lemma_survivor_from(connections, now, tick, divider, j);
        if oi < oj {
            assert(connections[oi].key != connections[oj].key);
        } else if oj < oi {
            assert(connections[oj].key != connections[oi].key);
        }
    }
    assert forall|k: int| 0 <= k < left.len() implies (#[trigger] left[k]).connection.is_open() by {
        let o = lemma_survivor_from(connections, now, tick, divider, k);
    }
}

/// A connection of the server with its key.
#[derive(Debug)]
struct Peer {
    key: ConnectionID,
    connection: Connection,
}

impl View for Peer {
    type V = PeerView;

    closed spec fn view(&self) -> PeerView {
        PeerView { key: self.key, connection: self.connection@ }
    }
}

/// The values of a sequence of peers.
spec fn peers(list: Seq<Peer>) -> Seq<PeerView> {
    list.map_values(|p: Peer| p@)
}

/// Whether the connection of every peer is well-formed.
spec fn sound(list: Seq<Peer>) -> bool {
    forall|i: int| 0 <= i < list.len() ==> (#[trigger] list[i]).connection.wf()
}

/// A map in which one connection changed is as well-formed as before: the
/// keys are what they were, and the other connections are untouched.
proof fn lemma_changed(before: Seq<Peer>, after: Seq<Peer>, at: int)
    requires
        sound(before),
        distinct_keys(peers(before)),
        0 <= at < before.len(),
        after.len() == before.len(),
        forall|i: int| 0 <= i < before.len() && i != at ==> #[trigger] after[i] == before[i],
        after[at].key == before[at].key,
        after[at].connection.wf(),
    ensures
        sound(after),
        distinct_keys(peers(after)),
        peers(after) == peers(before).update(
            at,
            with_connection(peers(before)[at], after[at].connection@),
        ),
{
    assert forall|i: int| 0 <= i < after.len() implies (#[trigger] after[i]).connection.wf() by {
        if i != at {
            assert(after[i] == before[i]);
        }
    }
    assert forall|i: int| 0 <= i < after.len() implies (#[trigger] peers(after)[i]).key == peers(
        before,
    )[i].key by {
        if i != at {
            assert(after[i] == before[i]);
        }
    }
    assert forall|i: int, j: int| 0 <= i < j < after.len() implies (#[trigger] peers(after)[i]).key
        != (#[trigger] peers(after)[j]).key by {
        assert(peers(before)[i].key != peers(before)[j].key);
    }
    assert(peers(after) =~= peers(before).update(
        at,
        with_connection(peers(before)[at], after[at].connection@),
    )) by {
        assert forall|i: int| 0 <= i < after.len() implies #[trigger] peers(after)[i] == peers(
            before,
        ).update(at, with_connection(peers(before)[at], after[at].connection@))[i] by {
            if i != at {
                assert(after[i] == before[i]);
            }
        }
    }
}

/// The connections of a server, each under the key that its peer's
/// datagrams carry. They stand in the order in which they were made, and
/// that is the order in which a tick lets them send.
#[derive(Debug)]
pub struct ConnectionMap {
    peers: Vec<Peer>,
}

impl View for ConnectionMap {
    type V = Seq<PeerView>;

    closed spec fn view(&self) -> Seq<PeerView> {
        peers(self.peers@)
    }
}

impl ConnectionMap {
    /// What holds of every map: its connections are well-formed and no two
    /// are kept under one key.
    pub closed spec fn wf(&self) -> bool {
        &&& sound(self.peers@)
        &&& distinct_keys(self@)
    }

    /// Proof that no two connections of a well-formed map are kept under
    /// one key.
    pub proof fn lemma_distinct(&self)
        requires
            self.wf(),
        ensures
            distinct_keys(self@),
    {
    }

    pub fn new() -> (map: ConnectionMap)
        ensures
            map.wf(),
            map@ == Seq::<PeerView>::empty(),
    {
        let map = ConnectionMap { peers: Vec::new() };
        assert(map@ =~= Seq::<PeerView>::empty());
        map
    }

    pub fn len(&self) -> (len: usize)
        ensures
            len == self@.len(),
    {
        self.peers.len()
    }

    /// Where the connection kept under `id` stands.
    fn find(&self, id: ConnectionID) -> (at: usize)
        ensures
            at == index_of(self@, id),
            at <= self@.len(),
            at < self@.len() ==> self@[at as int].key == id,
    {
        let ghost all = self@;
        let mut at: usize = 0;
        while at < self.peers.len()
            invariant
                all == self@,
                at <= self.peers@.len(),
                forall|j: int| 0 <= j < at ==> (#[trigger] all[j]).key != id,
            decreases self.peers@.len() - at,
        {
            assert(all[at as int] == self.peers@[at as int]@);
            if self.peers[at].key == id {
                proof {
                    lemma_index_first(all, id, at as int);
                }
                return at;
            }
            at += 1;
        }
        proof {
            lemma_index_first(all, id, at as int);
        }
        at
    }

    /// Whether a connection is kept under `id`.
    pub fn contains(&self, id: ConnectionID) -> (found: bool)
        ensures
            found == (index_of(self@, id) < self@.len()),
    {
        self.find(id) < self.peers.len()
    }

    /// The connection kept under `id`.
    pub fn get(&self, id: ConnectionID) -> (connection: Option<&Connection>)
        requires
            self.wf(),
        ensures
            match connection {
                Some(c) => index_of(self@, id) < self@.len() && c@ == self@[index_of(
                    self@,
                    id,
                )].connection && c.wf(),
                None => index_of(self@, id) >= self@.len(),
            },
    {
        let at: usize = self.find(id);
        if at < self.peers.len() {
            Some(&self.peers[at].connection)
        } else {
            None
        }
    }

    /// The keys of the connections, in the order in which the connections
    /// were made.
    pub fn ids(&self) -> (ids: Vec<ConnectionID>)
        ensures
            ids@ == keys_of(self@),
    {
        let mut ids: Vec<ConnectionID> = Vec::new();
        let mut i: usize = 0;
        while i < self.peers.len()
            invariant
                i <= self.peers@.len(),
                ids@ == keys_of(self@).take(i as int),
            decreases self.peers@.len() - i,
        {
            ids.push(self.peers[i].key);
            assert(ids@ =~= keys_of(self@).take(i + 1));
            i += 1;
        }
        assert(keys_of(self@).take(i as int) =~= keys_of(self@));
        ids
    }

    /// The address of the peer of the connection kept under `id`.
    pub fn address(&self, id: ConnectionID) -> (address: Option<Address>)
        ensures
            address == if index_of(self@, id) < self@.len() {
                Some(self@[index_of(self@, id)].connection.peer_addr)
            } else {
                None
            },
    {
        let at: usize = self.find(id);
        if at < self.peers.len() {
            Some(self.peers[at].connection.peer_addr())
        } else {
            None
        }
    }

    /// Takes a message to be sent as `kind` on the connection kept under
    /// `id`. Returns whether there is such a connection.
    pub fn send(&mut self, id: ConnectionID, kind: MessageKind, payload: Vec<u8>) -> (found: bool)
        requires
            old(self).wf(),
        ensures
            final(self).wf(),
            found == (index_of(old(self)@, id) < old(self)@.len()),
            final(self)@ == if found {
                old(self)@.update(
                    index_of(old(self)@, id),
                    with_connection(
                        old(self)@[index_of(old(self)@, id)],
                        ConnectionView {
                            queue: old(self)@[index_of(old(self)@, id)].connection.queue.sent(
                                kind,
                                0,
                                payload@,
                            ),
                            ..old(self)@[index_of(old(self)@, id)].connection
                        },
                    ),
                )
            } else {
                old(self)@
            },
    {
        let at: usize = self.find(id);
        if at < self.peers.len() {
            self.peers[at].connection.send(kind, payload);
            proof {
                lemma_changed(old(self).peers@, self.peers@, at as int);
            }
            true
        } else {
            false
        }
    }

    /// Takes a message to be sent in order on `channel` of the connection
    /// kept under `id`. Returns whether there is such a connection.
    pub fn send_ordered(&mut self, id: ConnectionID, channel: u8, payload: Vec<u8>) -> (found: bool)
        requires
            old(self).wf(),
        ensures
            final(self).wf(),
            found == (index_of(old(self)@, id) < old(self)@.len()),
            final(self)@ == if found {
                old(self)@.update(
                    index_of(old(self)@, id),
                    with_connection(
                        old(self)@[index_of(old(self)@, id)],
                        ConnectionView {
                            queue: old(self)@[index_of(old(self)@, id)].connection.queue.sent(
                                MessageKind::Ordered,
                                channel,
                                payload@,
                            ),
                            ..old(self)@[index_of(old(self)@, id)].connection
                        },
                    ),
                )
            } else {
                old(self)@
            },
    {
        let at: usize = self.find(id);
        if at < self.peers.len() {
            self.peers[at].connection.send_ordered(channel, payload);
            proof {
                lemma_changed(old(self).peers@, self.peers@, at as int);
            }
            true
        } else {
            false
        }
    }

    /// Hands out the payloads of the messages that the connection kept
    /// under `id` received; nothing where there is no such connection.
    pub fn received(&mut self, id: ConnectionID) -> (messages: Vec<Vec<u8>>)
        requires
            old(self).wf(),
        ensures
            final(self).wf(),
            index_of(old(self)@, id) < old(self)@.len() ==> contents(messages@) == payloads(
                old(self)@[index_of(old(self)@, id)].connection.queue.inbox,
            ) && final(self)@ == old(self)@.update(
                index_of(old(self)@, id),
                with_connection(
                    old(self)@[index_of(old(self)@, id)],
                    ConnectionView {
                        queue: old(self)@[index_of(old(self)@, id)].connection.queue.dismissed(),
                        ..old(self)@[index_of(old(self)@, id)].connection
                    },
                ),
            ),
            index_of(old(self)@, id) >= old(self)@.len() ==> messages@.len() == 0 && final(self)@
                == old(self)@,
    {
        let at: usize = self.find(id);
        if at < self.peers.len() {
            let messages = self.peers[at].connection.received();
            proof {
                lemma_changed(old(self).peers@, self.peers@, at as int);
            }
            messages
        } else {
            Vec::new()
        }
    }

    /// Closes the connection kept under `id` from this side. Returns
    /// whether there is such a connection.
    pub fn close(&mut self, id: ConnectionID, now: u64) -> (found: bool)
        requires
            old(self).wf(),
        ensures
            final(self).wf(),
            found == (index_of(old(self)@, id) < old(self)@.len()),
            final(self)@ == if found {
                old(self)@.update(
                    index_of(old(self)@, id),
                    with_connection(
                        old(self)@[index_of(old(self)@, id)],
                        old(self)@[index_of(old(self)@, id)].connection.after_close(now),
                    ),
                )
            } else {
                old(self)@
            },
    {
        let at: usize = self.find(id);
        if at < self.peers.len() {
            self.peers[at].connection.close(now);
            proof {
                lemma_changed(old(self).peers@, self.peers@, at as int);
            }
            true
        } else {
            false
        }
    }

    /// Finds the connection kept under `id`, makes one with the identifier
    /// `fresh` if there is none, and gives it `addr` as the peer's address.
    /// Returns where the connection stands.
    fn seat(
        &mut self,
        config: &Config,
        local_addr: Address,
        addr: Address,
        id: ConnectionID,
        fresh: ConnectionID,
        now: u64,
    ) -> (at: usize)
        requires
            old(self).wf(),
        ensures
            final(self).wf(),
            at == index_of(old(self)@, id),
            at < final(self)@.len(),
            final(self)@ == seated(old(self)@, *config, local_addr, addr, id, fresh, now),
    {
        let ghost before = self@;
        let at: usize = self.find(id);
        if at >= self.peers.len() {
            let connection = Connection::new(*config, local_addr, addr, fresh, now);
            let peer = Peer { key: id, connection };
            self.peers.push(peer);
            assert(self@ =~= before.push(peer@));
            proof {
                lemma_index_of(before, id);
                assert forall|i: int, j: int| 0 <= i < j < self@.len() implies (
                #[trigger] self@[i]).key != (#[trigger] self@[j]).key by {
                    assert(self@[i] == before[i]);
                    if j < before.len() {
                        assert(self@[j] == before[j]);
                    }
                }
            }
        }
        let ghost held = self.peers@;
        if addr != self.peers[at].connection.peer_addr() {
            self.peers[at].connection.set_peer_addr(addr);
        }
        proof {
            lemma_changed(held, self.peers@, at as int);
            assert(self@ =~= seated(before, *config, local_addr, addr, id, fresh, now));
        }
        at
    }

    /// Hands a packet to the connection that stands at `at`.
    fn hand<T, H: Handler<T>>(
        &mut self,
        at: usize,
        packet: Vec<u8>,
        tick_delay: u32,
        now: u64,
        owner: &mut T,
        handler: &mut H,
    ) -> (read: bool)
        requires
            old(self).wf(),
            at < old(self)@.len(),
        ensures
            final(self).wf(),
            read == old(self)@[at as int].connection.admits(packet@),
            exists|body: Seq<u8>|
                final(self)@ == old(self)@.update(
                    at as int,
                    with_connection(
                        old(self)@[at as int],
                        #[trigger] old(self)@[at as int].connection.after_receive(
                            packet@,
                            tick_delay,
                            now,
                            body,
                        ),
                    ),
                ),
    {
        let ghost before = self@;
        let ghost held = self.peers@;
        let ghost bytes = packet@;
        let read = self.peers[at].connection.receive_packet(
            packet,
            tick_delay,
            now,
            owner,
            handler,
        );
        proof {
            lemma_changed(held, self.peers@, at as int);
            let after = self.peers@[at as int].connection@;
            let body = choose|body: Seq<u8>|
                after == before[at as int].connection.after_receive(bytes, tick_delay, now, body);
            assert(self@ == before.update(
                at as int,
                with_connection(
                    before[at as int],
                    before[at as int].connection.after_receive(bytes, tick_delay, now, body),
                ),
            ));
        }
        read
    }

    /// Hands a datagram that came from `addr` at `now` to the connection
    /// that is kept under the identifier in its header. A datagram that is
    /// too short for a header or of another protocol is dropped. An
    /// identifier that is not known gets a new connection, whose own
    /// identifier is `fresh`; a connection whose peer now sends from
    /// another address takes the new address. Returns whether the
    /// connection read the datagram.
    pub fn route<T, H: Handler<T>>(
        &mut self,
        config: &Config,
        local_addr: Address,
        addr: Address,
        packet: Vec<u8>,
        fresh: ConnectionID,
        tick_delay: u32,
        now: u64,
        owner: &mut T,
        handler: &mut H,
    ) -> (read: bool)
        requires
            old(self).wf(),
        ensures
            final(self).wf(),
            exists|body: Seq<u8>|
                final(self)@ == routed(
                    old(self)@,
                    *config,
                    local_addr,
                    addr,
                    packet@,
                    fresh,
                    tick_delay,
                    now,
                    body,
                ),
            read == (well_framed(packet@, config.tag()) && joined(
                old(self)@,
                *config,
                local_addr,
                addr,
                packet@,
                fresh,
                now,
            )[index_of(old(self)@, ConnectionID(id_field(packet@)))].connection.admits(packet@)),
    {
        let ghost before = self@;
        let ghost bytes = packet@;
        match Connection::id_from_packet(config, packet.as_slice()) {
            None => {
                assert(self@ == routed(
                    before,
                    *config,
                    local_addr,
                    addr,
                    bytes,
                    fresh,
                    tick_delay,
                    now,
                    Seq::empty(),
                ));
                false
            },
            Some(id) => {
                let at: usize = self.seat(config, local_addr, addr, id, fresh, now);
                let ghost with_sender = self@;
                let read = self.hand(at, packet, tick_delay, now, owner, handler);
                proof {
                    let body = choose|body: Seq<u8>|
                        self@ == with_sender.update(
                            at as int,
                            with_connection(
                                with_sender[at as int],
                                #[trigger] with_sender[at as int].connection.after_receive(
                                    bytes,
                                    tick_delay,
                                    now,
                                    body,
                                ),
                            ),
                        );
                    assert(self@ == routed(
                        before,
                        *config,
                        local_addr,
                        addr,
                        bytes,
                        fresh,
                        tick_delay,
                        now,
                        body,
                    ));
                }
                read
            },
        }
    }

    /// Lets every connection send at `now` on tick number `tick`: a
    /// congested connection sends on one of `divider` ticks only. Returns
    /// the packets with the addresses that they go to, in the order of the
    /// connections. A connection that is closed or lost afterwards leaves
    /// the map.
    pub fn pump<T, H: Handler<T>>(
        &mut self,
        now: u64,
        tick: u32,
        divider: u32,
        owner: &mut T,
        handler: &mut H,
    ) -> (datagrams: Vec<Datagram>)
        requires
            old(self).wf(),
            divider > 0,
        ensures
            final(self).wf(),
            final(self)@ == survivors(old(self)@, now, tick, divider),
            fulfils(datagrams@, dispatches(old(self)@, now, tick, divider)),
    {
        let ghost all = self@;
        let mut list: Vec<Peer> = Vec::new();
        std::mem::swap(&mut list, &mut self.peers);
        let ghost held = list@;
        let mut kept: Vec<Peer> = Vec::new();
        let mut datagrams: Vec<Datagram> = Vec::new();
        proof {
            assert(all.take(0) =~= Seq::<PeerView>::empty());
            assert(peers(kept@) =~= survivors(all.take(0), now, tick, divider));
        }
        for peer in it: list
            invariant
                it.seq() == held,
                all == peers(held),
                sound(held),
                divider > 0,
                sound(kept@),
                peers(kept@) == survivors(all.take(it.index() as int), now, tick, divider),
                fulfils(datagrams@, dispatches(all.take(it.index() as int), now, tick, divider)),
        {
            let ghost done = it.index() as int;
            let ghost before = peer@.connection;
            let ghost left = peers(kept@);
            let ghost sent = datagrams@;
            let ghost wanted = dispatches(all.take(done), now, tick, divider);
            let Peer { key, connection } = peer;
            let mut connection = connection;
            proof {
                assert(peer == held[done]);
                assert(all[done] == (PeerView { key, connection: before }));
                assert(all.take(done + 1).drop_last() =~= all.take(done));
                assert(all.take(done + 1).last() == all[done]);
            }
            if !connection.congested() || tick % divider == 0 {
                match connection.send_packet(now, owner, handler) {
                    Some(data) => {
                        let to = connection.peer_addr();
                        datagrams.push(Datagram { to, data });
                        proof {
                            let more = dispatches(all.take(done + 1), now, tick, divider);
                            assert(more =~= wanted.push(
                                Dispatch { to: before.peer_addr, departure: before.departure(now) },
                            ));
                            assert(datagrams@ =~= sent.push(datagrams@.last()));
                            assert forall|k: int| 0 <= k < datagrams@.len() implies (
                            #[trigger] datagrams@[k]).to == more[k].to && carries(
                                datagrams@[k].data@,
                                more[k].departure,
                            ) by {
                                if k < sent.len() {
                                    assert(datagrams@[k] == sent[k]);
                                    assert(more[k] == wanted[k]);
                                }
                            }
                        }
                    },
                    None => {
                        assert(dispatches(all.take(done + 1), now, tick, divider) =~= wanted);
                    },
                }
            } else {
                assert(dispatches(all.take(done + 1), now, tick, divider) =~= wanted);
            }
            let ghost after = connection@;
            assert(after == stepped(before, now, tick, divider));
            if connection.open() {
                let survivor = Peer { key, connection };
                kept.push(survivor);
                assert(peers(kept@) =~= left.push(survivor@));
                assert(survivors(all.take(done + 1), now, tick, divider) =~= left.push(
                    with_connection(all[done], after),
                ));
            } else {
                connection.reset(now);
                assert(survivors(all.take(done + 1), now, tick, divider) =~= left);
            }
        }
        proof {
            assert(all.take(all.len() as int) =~= all);
            lemma_survivors_distinct(all, now, tick, divider);
        }
        self.peers = kept;
        datagrams
    }

    /// Makes every connection as new.
    pub fn reset_all(&mut self, now: u64)
        requires
            old(self).wf(),
        ensures
            final(self).wf(),
            final(self)@ == old(self)@.map_values(
                |p: PeerView| with_connection(p, p.connection.after_reset(now)),
            ),
    {
        let ghost all = self@;
        let mut i: usize = 0;
        while i < self.peers.len()
            invariant
                i <= self.peers@.len(),
                self@.len() == all.len(),
                self.wf(),
                forall|k: int|
                    0 <= k < i ==> (#[trigger] self@[k]) == with_connection(
                        all[k],
                        all[k].connection.after_reset(now),
                    ),
                forall|k: int| i <= k < all.len() ==> (#[trigger] self@[k]) == all[k],
            decreases self.peers@.len() - i,
        {
            let ghost held = self.peers@;
            let ghost before = self@;
            assert(self@[i as int] == all[i as int]);
            self.peers[i].connection.reset(now);
            proof {
                lemma_changed(held, self.peers@, i as int);
                assert forall|k: int| 0 <= k < i + 1 implies (#[trigger] self@[k])
                    == with_connection(all[k], all[k].connection.after_reset(now)) by {
                    if k != i {
                        assert(self@[k] == before[k]);
                    }
                }
                assert forall|k: int| i + 1 <= k < all.len() implies (#[trigger] self@[k])
                    == all[k] by {
                    assert(self@[k] == before[k]);
                }
            }
            i += 1;
        }
        assert(self@ =~= all.map_values(
            |p: PeerView| with_connection(p, p.connection.after_reset(now)),
        ));
    }
}

/// Why a server could not start.
#[derive(Clone, Copy, Debug, PartialEq, Eq, Structural)]
pub enum ServerError {
    /// The settings name a send rate or a congestion divider of zero, or a
    /// packet size that leaves no room for a header.
    InvalidConfig,
}

/// A server for many clients.
#[derive(Debug)]
pub struct Server {
    closed: bool,
    config: Config,
    address: Option<Address>,
    tick: u32,
}

impl Server {
    /// A bound server has settings that it can work with.
    #[verifier::type_invariant]
    spec fn bound_is_valid(self) -> bool {
        self.address is Some ==> self.config.valid()
    }

    /// Whether `shutdown` was called.
    pub closed spec fn is_closed(&self) -> bool {
        self.closed
    }

    /// The address that the server is bound to.
    pub closed spec fn bound_to(&self) -> Option<Address> {
        self.address
    }

    /// The settings that the server gives to its connections.
    pub closed spec fn settings(&self) -> Config {
        self.config
    }

    /// The number of the next tick within its second.
    pub closed spec fn tick_number(&self) -> u32 {
        self.tick
    }

    /// Creates a server whose connections use `config`.
    pub fn new(config: Config) -> (server: Server)
        ensures
            !server.is_closed(),
            server.bound_to() is None,
            server.settings() == config,
            server.tick_number() == 0,
    {
        Server { closed: false, config, address: None, tick: 0 }
    }

    /// The address that the server is bound to, if it is bound.
    pub fn local_addr(&self) -> (address: Option<Address>)
        ensures
            address == self.bound_to(),
    {
        self.address
    }

    pub fn config(&self) -> (config: Config)
        ensures
            config == self.settings(),
            self.bound_to() is Some ==> config.valid(),
    {
        proof {
            use_type_invariant(self);
        }
        self.config
    }

    /// Whether the server goes on working: it is bound and `shutdown` was
    /// not called.
    pub fn running(&self) -> (running: bool)
        ensures
            running == (self.bound_to() is Some && !self.is_closed()),
    {
        self.address.is_some() && !self.closed
    }

    /// Milliseconds to wait between two ticks; zero where the send rate is
    /// zero.
    pub fn tick_delay(&self) -> (delay: u32)
        ensures
            delay == if self.settings().send_rate > 0 {
                self.settings().tick_interval()
            } else {
                0
            },
    {
        if self.config.send_rate > 0 {
            self.config.tick_delay()
        } else {
            0
        }
    }

    /// Takes note that the server's socket is bound to `address`: the
    /// server holds the address from now on and counts its ticks from zero.
    /// Returns the map for the server's connections. Settings that the
    /// server cannot work with are an error, and nothing happens.
    pub fn open(&mut self, address: Address) -> (started: Result<ConnectionMap, ServerError>)
        ensures
            match started {
                Ok(connections) => old(self).settings().valid() && connections.wf() && connections@
                    == Seq::<PeerView>::empty() && final(self).bound_to() == Some(address)
                    && final(self).tick_number() == 0 && final(self).settings() == old(
                    self,
                ).settings() && final(self).is_closed() == old(self).is_closed(),
                Err(error) => !old(self).settings().valid() && error == ServerError::InvalidConfig
                    && *final(self) == *old(self),
            },
    {
        if !self.config.is_valid() {
            return Err(ServerError::InvalidConfig);
        }
        self.tick = 0;
        self.address = Some(address);
        Ok(ConnectionMap::new())
    }

    /// Opens the server at `address`, the address that its socket is bound
    /// to, and tells the handler, which finds the server bound to the
    /// address. Returns the map for the server's connections. Settings that
    /// the server cannot work with are an error: nothing happens, and the
    /// handler is not told.
    pub fn bind<H: Handler<Server>>(
        &mut self,
        handler: &mut H,
        address: Address,
    ) -> (started: Result<ConnectionMap, ServerError>)
        ensures
            match started {
                Ok(connections) => old(self).settings().valid() && connections.wf() && connections@
                    == Seq::<PeerView>::empty(),
                Err(error) => !old(self).settings().valid() && error == ServerError::InvalidConfig
                    && *final(self) == *old(self),
            },
    {
        match self.open(address) {
            Ok(connections) => {
                handler.bind(self);
                Ok(connections)
            },
            Err(error) => Err(error),
        }
    }

    /// Asks the server to stop.
    pub fn shutdown(&mut self)
        ensures
            final(self).is_closed(),
            final(self).bound_to() == old(self).bound_to(),
            final(self).settings() == old(self).settings(),
            final(self).tick_number() == old(self).tick_number(),
    {
        proof {
            use_type_invariant(&*self);
        }
        self.closed = true;
    }

    /// Takes in a datagram that came from `addr` at `now`. A server that
    /// is not bound drops it. Where the datagram is the first of its peer,
    /// the peer's new connection gets `fresh` as its own identifier.
    /// Returns whether a connection read the datagram.
    pub fn receive<H: Handler<Server>>(
        &mut self,
        connections: &mut ConnectionMap,
        handler: &mut H,
        addr: Address,
        packet: Vec<u8>,
        fresh: ConnectionID,
        now: u64,
    ) -> (read: bool)
        requires
            old(connections).wf(),
        ensures
            final(connections).wf(),
            old(self).bound_to() is None ==> !read && final(connections)@ == old(connections)@,
            old(self).bound_to() is Some ==> read == (well_framed(
                packet@,
                old(self).settings().tag(),
            ) && joined(
                old(connections)@,
                old(self).settings(),
                old(self).bound_to()->0,
                addr,
                packet@,
                fresh,
                now,
            )[index_of(old(connections)@, ConnectionID(id_field(packet@)))].connection.admits(
                packet@,
            )),
            old(self).bound_to() is Some ==> exists|body: Seq<u8>|
                final(connections)@ == #[trigger] routed(
                    old(connections)@,
                    old(self).settings(),
                    old(self).bound_to()->0,
                    addr,
                    packet@,
                    fresh,
                    old(self).settings().tick_interval() as u32,
                    now,
                    body,
                ),
    {
        proof {
            use_type_invariant(&*self);
        }
        match self.address {
            None => false,
            Some(local) => {
                let config = self.config;
                let tick_delay: u32 = config.tick_delay();
                let ghost bytes = packet@;
                let ghost before = connections@;
                let read = connections.route(
                    &config,
                    local,
                    addr,
                    packet,
                    fresh,
                    tick_delay,
                    now,
                    self,
                    handler,
                );
                proof {
                    let body = choose|body: Seq<u8>|
                        connections@ == routed(
                            before,
                            config,
                            local,
                            addr,
                            bytes,
                            fresh,
                            tick_delay,
                            now,
                            body,
                        );
                    assert(connections@ == routed(
                        old(connections)@,
                        old(self).settings(),
                        old(self).bound_to()->0,
                        addr,
                        bytes,
                        fresh,
                        old(self).settings().tick_interval() as u32,
                        now,
                        body,
                    ));
                }
                read
            },
        }
    }

    /// One tick at `now`: the handler gets its turn with the connections,
    /// then every connection that is due by the tick number at the start
    /// sends, and connections that are closed or lost afterwards leave the
    /// map. Returns the packets to send. An unbound server does nothing.
    pub fn tick<H: Handler<Server>>(
        &mut self,
        connections: &mut ConnectionMap,
        handler: &mut H,
        now: u64,
    ) -> (datagrams: Vec<Datagram>)
        requires
            old(connections).wf(),
        ensures
            final(connections).wf(),
            old(self).bound_to() is None ==> datagrams@.len() == 0 && final(connections)@ == old(
                connections,
            )@ && *final(self) == *old(self),
            old(self).bound_to() is Some ==> exists|turned: Seq<PeerView>|
                final(connections)@ == #[trigger] survivors(
                    turned,
                    now,
                    old(self).tick_number(),
                    old(self).settings().congestion_divider,
                ) && fulfils(
                    datagrams@,
                    dispatches(
                        turned,
                        now,
                        old(self).tick_number(),
                        old(self).settings().congestion_divider,
                    ),
                ),
            old(self).bound_to() is Some ==> forall|i: int|
                0 <= i < final(connections)@.len() ==> (
                #[trigger] final(connections)@[i]).connection.is_open(),
            old(self).bound_to() is Some ==> final(self).tick_number() == next_tick(
                old(self).tick_number(),
                old(self).settings().send_rate,
            ),
    {
        if self.address.is_none() {
            return Vec::new();
        }
        proof {
            use_type_invariant(&*self);
        }
        let tick: u32 = self.tick;
        let divider: u32 = self.config.congestion_divider;
        let following: u32 = following_tick(tick, self.config.send_rate);
        handler.tick_connections(self, connections, now);
        let ghost turned = connections@;
        let datagrams = connections.pump(now, tick, divider, self, handler);
        proof {
            lemma_survivors_distinct(turned, now, tick, divider);
            assert(connections@ == survivors(
                turned,
                now,
                old(self).tick_number(),
                old(self).settings().congestion_divider,
            ));
            use_type_invariant(&*self);
        }
        self.tick = following;
        datagrams
    }

    /// Ends the work of a server: tells the handler, forgets the address
    /// and makes every connection as new.
    pub fn finish<H: Handler<Server>>(
        &mut self,
        connections: &mut ConnectionMap,
        handler: &mut H,
        now: u64,
    )
        requires
            old(connections).wf(),
        ensures
            final(connections).wf(),
            final(connections)@ == old(connections)@.map_values(
                |p: PeerView| with_connection(p, p.connection.after_reset(now)),
            ),
            final(self).bound_to() is None,
    {
        handler.shutdown(self);
        self.address = None;
        connections.reset_all(now);
    }
}

/// The number of the tick that follows tick number `tick` at `send_rate`
/// ticks per second.
fn following_tick(tick: u32, send_rate: u32) -> (following: u32)
    ensures
        following == next_tick(tick, send_rate),
{
    if tick >= send_rate || tick + 1 == send_rate {
        0
    } else {
        tick + 1
    }
}

} // verus!
