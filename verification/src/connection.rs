//! One peer's connection: the state machine that turns messages into
//! packets and packets into messages, keeps track of what was acknowledged
//! and what was lost, and notices when the peer closes or falls silent.

use crate::address::Address;
use crate::config::Config;
use crate::estimator::{
    congestion, elapsed, loss_percent, micros, millis_ceil, recorded_many, rtt_sample, smoothed,
    smoothed_all, time_since, LossEstimator, RttEstimator, LOSS_WINDOW, MAX_RTT_MICROS,
};
use crate::handler::Handler;
use crate::ledger::{
    blocks_of, fate, ledger_wf, lemma_with_fate_all, messages_of, recorded, samples_of, with_fate,
    Fate, Ledger, Receipt, SentPacket, SentPacketView, Settlement,
};
use crate::message::{copy_range, encoded_all, parsed, payloads, MessageKind, MessageView};
use crate::queue::{
    contents, lemma_accepted_keeps_outgoing, lemma_packed_read_back, lemma_retained_come_back,
    of_kind, MessageQueue, QueueView,
};
use crate::sequence::{
    ack_bitfield, acknowledges, advanced, before, bit, bitfield_for, lemma_bitfield_for,
    distance, lemma_arrivals_recorded, lemma_noted_holds, lemma_successor_steps, newest_after,
    newest_of, note_received, noted, record_of, record_wf, reported, seq_successor, successor,
};
use crate::wire::{
    ack_field, announces_closure, bitfield_field, body, closure_bytes, header_bytes, id_field,
    is_closure, is_well_framed, lemma_header_fields, read_be32, sequence_field, well_framed,
    write_header,
    CLOSURE_ACK, CLOSURE_BITFIELD, CLOSURE_SEQUENCE, PACKET_HEADER_SIZE,
};
use std::collections::VecDeque;
use vstd::prelude::*;

verus! {

/// The number by which the server tells connections apart.
#[derive(Clone, Copy, Debug, PartialEq, Eq, Hash, Structural)]
pub struct ConnectionID(pub u32);

/// Where a connection stands.
#[derive(Clone, Copy, Debug, PartialEq, Eq, Structural)]
pub enum ConnectionState {
    /// No packet of the peer has arrived yet.
    Connecting,
    /// Packets of the peer arrive.
    Connected,
    /// Closed from this side; the peer is being told.
    Closing,
    /// Closed, by the peer or from this side.
    Closed,
    /// The peer was silent for too long.
    Lost,
}

/// What a received packet was taken for.
#[derive(Clone, Copy, Debug, PartialEq, Eq, Structural)]
pub enum Admission {
    /// Dropped: too short, of another protocol, or not expected in the
    /// state of the connection.
    Ignored,
    /// The first packet of the peer, which establishes the connection; it
    /// is read like any other.
    Connected,
    /// A packet of an established connection.
    Accepted,
    /// The peer's word that the connection is closed.
    Closed,
}

/// What `send_packet` has to send or to report.
#[derive(Debug)]
pub enum Outgoing {
    /// Nothing: the connection is closed or lost.
    Nothing,
    /// Nothing: the time for telling the peer of the closure has run out
    /// and the connection is now closed.
    Closed,
    /// Nothing: the peer was silent for too long and the connection is now
    /// lost.
    Lost,
    /// The packet that announces the closure.
    Closure(Vec<u8>),
    /// A packet of messages, as its header and its body.
    Data { header: Vec<u8>, body: Vec<u8> },
}

/// The mathematical value of an [`Outgoing`].
pub enum Departure {
    Nothing,
    Closed,
    Lost,
    Closure(Seq<u8>),
    Data { header: Seq<u8>, body: Seq<u8> },
}

impl View for Outgoing {
    type V = Departure;

    open spec fn view(&self) -> Departure {
        match self {
            Outgoing::Nothing => Departure::Nothing,
            Outgoing::Closed => Departure::Closed,
            Outgoing::Lost => Departure::Lost,
            Outgoing::Closure(packet) => Departure::Closure(packet@),
            Outgoing::Data { header, body } => Departure::Data { header: header@, body: body@ },
        }
    }
}

impl Departure {
    /// The packet that goes out where no transform is applied; `None` where
    /// nothing is sent.
    pub open spec fn packet(self) -> Option<Seq<u8>> {
        match self {
            Departure::Closure(bytes) => Some(bytes),
            Departure::Data { header, body } => Some(header + body),
            _ => None,
        }
    }
}

impl Outgoing {
    /// The packet to send where no transform is applied: the closure
    /// packet as it is, a packet of messages as header and body.
    pub fn into_packet(self) -> (packet: Option<Vec<u8>>)
        ensures
            match packet {
                Some(bytes) => self@.packet() == Some(bytes@),
                None => self@.packet() is None,
            },
    {
        match self {
            Outgoing::Closure(packet) => Some(packet),
            Outgoing::Data { header, body } => {
                let mut packet = header;
                let mut rest = body;
                packet.append(&mut rest);
                Some(packet)
            },
            _ => None,
        }
    }
}

/// The packet that goes out when the application's transform returned
/// `compressed` for a packet of `header` and `body`: the transform's result
/// if it starts with the header, else header and body as they are.
pub open spec fn sealed(header: Seq<u8>, body: Seq<u8>, compressed: Seq<u8>) -> Seq<u8> {
    if compressed.len() >= header.len() && compressed.take(header.len() as int) == header {
        compressed
    } else {
        header + body
    }
}

/// A count after one more was counted; it stays at the largest number once
/// it has reached it.
pub open spec fn counted(count: u64) -> u64 {
    if count == u64::MAX {
        count
    } else {
        (count + 1) as u64
    }
}

/// The mathematical value of a [`Connection`].
#[verifier::ext_equal]
pub struct ConnectionView {
    pub config: Config,
    pub id: ConnectionID,
    pub state: ConnectionState,
    pub local_addr: Address,
    pub peer_addr: Address,
    /// When the last packet of the peer was taken in; before the first one,
    /// when the connection was made or reset.
    pub last_receive_time: u64,
    /// When the connection was closed from this side.
    pub closing_since: u64,
    /// The sequence number of the next packet to send.
    pub local_seq: u8,
    /// Whether any packet of the peer was read yet.
    pub heard: bool,
    /// The newest sequence number received, which the next packet
    /// acknowledges; zero before anything was received.
    pub remote_seq: u8,
    /// The sequence numbers received among the 32 before `remote_seq`,
    /// each once.
    pub received: Seq<u8>,
    /// The packets that were sent and whose fate is open.
    pub ledger: Seq<SentPacketView>,
    pub queue: QueueView,
    /// The smoothed round-trip time in microseconds.
    pub rtt: int,
    /// The fates of the packets settled lately; `true` is a lost one.
    pub loss: Seq<bool>,
    pub congested: bool,
    /// How many received packets were dropped unread.
    pub dropped: u64,
}

impl ConnectionView {
    pub open spec fn wf(self) -> bool {
        &&& self.queue.wf()
        &&& ledger_wf(self.ledger)
        &&& record_wf(self.received, self.remote_seq)
        &&& 0 <= self.rtt <= MAX_RTT_MICROS
        &&& self.loss.len() <= LOSS_WINDOW
    }

    /// A connection that was just made.
    pub open spec fn initial(
        config: Config,
        id: ConnectionID,
        local_addr: Address,
        peer_addr: Address,
        now: u64,
    ) -> ConnectionView {
        ConnectionView {
            config,
            id,
            state: ConnectionState::Connecting,
            local_addr,
            peer_addr,
            last_receive_time: now,
            closing_since: now,
            local_seq: 0,
            heard: false,
            remote_seq: 0,
            received: Seq::empty(),
            ledger: Seq::empty(),
            queue: QueueView::initial(),
            rtt: 0,
            loss: Seq::empty(),
            congested: false,
            dropped: 0,
        }
    }

    /// Whether the connection is neither closed nor lost.
    pub open spec fn is_open(self) -> bool {
        self.state == ConnectionState::Connecting || self.state == ConnectionState::Connected
            || self.state == ConnectionState::Closing
    }

    /// Whether nothing waits in the queues and the ledger.
    pub open spec fn is_clear(self) -> bool {
        self.queue.is_empty() && self.ledger.len() == 0 && self.received.len() == 0
    }

    /// The connection after `close`: one that is connecting or connected
    /// starts closing; any other stays as it is.
    pub open spec fn after_close(self, now: u64) -> ConnectionView {
        if self.state == ConnectionState::Connecting || self.state == ConnectionState::Connected {
            ConnectionView { state: ConnectionState::Closing, closing_since: now, ..self }
        } else {
            self
        }
    }

    /// The connection after `reset`: as just made, with its identifier,
    /// settings and addresses.
    pub open spec fn after_reset(self, now: u64) -> ConnectionView {
        ConnectionView::initial(self.config, self.id, self.local_addr, self.peer_addr, now)
    }

    /// The header of the next packet of messages.
    pub open spec fn data_header(self) -> Seq<u8> {
        header_bytes(
            self.config.tag(),
            self.id.0,
            self.local_seq,
            self.remote_seq,
            bitfield_for(self.received, self.remote_seq),
        )
    }

    /// The body of the next packet of messages: the records of the waiting
    /// messages that fit.
    pub open spec fn data_body(self) -> Seq<u8> {
        encoded_all(self.queue.packed(self.config.room() as int))
    }

    /// What `send_packet` at `now` sends or reports.
    pub open spec fn departure(self, now: u64) -> Departure {
        match self.state {
            ConnectionState::Closed => Departure::Nothing,
            ConnectionState::Lost => Departure::Nothing,
            ConnectionState::Closing => if elapsed(now, self.closing_since)
                >= self.config.connection_closing_threshold {
                Departure::Closed
            } else {
                Departure::Closure(closure_bytes(self.config.tag(), self.id.0))
            },
            _ => if elapsed(now, self.last_receive_time) > self.config.connection_drop_threshold {
                Departure::Lost
            } else {
                Departure::Data { header: self.data_header(), body: self.data_body() }
            },
        }
    }

    /// The connection after `send_packet` at `now`.
    pub open spec fn after_send(self, now: u64) -> ConnectionView {
        match self.departure(now) {
            Departure::Nothing => ConnectionView { queue: self.queue.dismissed(), ..self },
            Departure::Closed => ConnectionView {
                state: ConnectionState::Closed,
                queue: self.queue.dismissed(),
                ..self
            },
            Departure::Lost => ConnectionView {
                state: ConnectionState::Lost,
                queue: self.queue.dismissed(),
                ..self
            },
            Departure::Closure(_) => ConnectionView { queue: self.queue.dismissed(), ..self },
            Departure::Data { header, body } => ConnectionView {
                local_seq: successor(self.local_seq),
                ledger: recorded(
                    self.ledger,
                    SentPacketView {
                        seq: self.local_seq,
                        time: now,
                        messages: self.queue.retained(self.config.room() as int),
                        block: body,
                    },
                ),
                queue: self.queue.after_packing(self.config.room() as int).dismissed(),
                ..self
            },
        }
    }

    /// What a received packet is taken for.
    pub open spec fn admission(self, packet: Seq<u8>) -> Admission {
        if !well_framed(packet, self.config.tag()) {
            Admission::Ignored
        } else {
            match self.state {
                ConnectionState::Connecting => Admission::Connected,
                ConnectionState::Connected => if announces_closure(packet) {
                    Admission::Closed
                } else {
                    Admission::Accepted
                },
                ConnectionState::Closing => if announces_closure(packet) {
                    Admission::Closed
                } else {
                    Admission::Ignored
                },
                _ => Admission::Ignored,
            }
        }
    }

    /// Whether a received packet is read for acknowledgments and messages.
    pub open spec fn admits(self, packet: Seq<u8>) -> bool {
        self.admission(packet) == Admission::Connected || self.admission(packet)
            == Admission::Accepted
    }

    /// The connection after a received packet was taken for what it is.
    pub open spec fn after_admission(self, packet: Seq<u8>) -> ConnectionView {
        match self.admission(packet) {
            Admission::Ignored => ConnectionView { dropped: counted(self.dropped), ..self },
            Admission::Accepted => self,
            Admission::Connected => ConnectionView {
                state: ConnectionState::Connected,
                loss: Seq::empty(),
                ..self
            },
            Admission::Closed => ConnectionView { state: ConnectionState::Closed, ..self },
        }
    }

    /// The acknowledgment that a packet received at `now` carries.
    pub open spec fn receipt(self, packet: Seq<u8>, now: u64) -> Receipt {
        Receipt {
            ack: ack_field(packet),
            bitfield: bitfield_field(packet),
            now,
            drop_threshold: self.config.packet_drop_threshold,
        }
    }

    /// The records of the packets that a packet received at `now` shows to
    /// be lost.
    pub open spec fn lost_blocks(self, packet: Seq<u8>, now: u64) -> Seq<Seq<u8>> {
        blocks_of(with_fate(self.ledger, self.receipt(packet, now), Fate::Lost))
    }

    /// The connection after the header of an admitted packet was read at
    /// `now`. Acknowledged packets leave the ledger and their round-trip
    /// times enter the estimate; packets older than the drop threshold
    /// leave as lost, and their reliable and ordered messages return to the
    /// front of their queues.
    pub open spec fn after_acknowledgment(
        self,
        packet: Seq<u8>,
        tick_delay: u32,
        now: u64,
    ) -> ConnectionView {
        let receipt = self.receipt(packet, now);
        let acknowledged = with_fate(self.ledger, receipt, Fate::Acknowledged);
        let lost = with_fate(self.ledger, receipt, Fate::Lost);
        let rtt = smoothed_all(self.rtt, samples_of(acknowledged, now, tick_delay));
        ConnectionView {
            last_receive_time: now,
            heard: true,
            remote_seq: newest_after(self.heard, self.remote_seq, sequence_field(packet)),
            received: noted(self.heard, self.received, self.remote_seq, sequence_field(packet)),
            ledger: with_fate(self.ledger, receipt, Fate::Waiting),
            queue: self.queue.requeued(messages_of(lost)),
            rtt,
            loss: recorded_many(
                recorded_many(self.loss, false, acknowledged.len()),
                true,
                lost.len(),
            ),
            congested: congestion(self.congested, rtt, self.config.congestion_rtt_threshold),
            ..self
        }
    }

    /// The connection after the messages of a packet's body were taken in.
    pub open spec fn after_delivery(self, body: Seq<u8>) -> ConnectionView {
        ConnectionView { queue: self.queue.received(body), ..self }
    }

    /// The connection after a packet was received at `now` whose body the
    /// application's transform turned into `body`.
    pub open spec fn after_receive(
        self,
        packet: Seq<u8>,
        tick_delay: u32,
        now: u64,
        body: Seq<u8>,
    ) -> ConnectionView {
        if self.admits(packet) {
            self.after_admission(packet).after_acknowledgment(packet, tick_delay, now).after_delivery(
                body,
            )
        } else {
            self.after_admission(packet)
        }
    }
}

impl ConnectionView {
    /// The connection after a packet was received at `now` and its body
    /// was read as it came.
    pub open spec fn after_plain_receive(
        self,
        packet: Seq<u8>,
        tick_delay: u32,
        now: u64,
    ) -> ConnectionView {
        self.after_receive(packet, tick_delay, now, body(packet))
    }
}

/// One peer's connection.
#[derive(Debug)]
pub struct Connection {
    config: Config,
    id: ConnectionID,
    state: ConnectionState,
    local_address: Address,
    peer_address: Address,
    last_receive_time: u64,
    closing_since: u64,
    local_seq: u8,
    heard: bool,
    remote_seq: u8,
    received: VecDeque<u8>,
    ledger: Ledger,
    queue: MessageQueue,
    rtt: RttEstimator,
    loss: LossEstimator,
    congested: bool,
    dropped: u64,
}

impl View for Connection {
    type V = ConnectionView;

    closed spec fn view(&self) -> ConnectionView {
        ConnectionView {
            config: self.config,
            id: self.id,
            state: self.state,
            local_addr: self.local_address,
            peer_addr: self.peer_address,
            last_receive_time: self.last_receive_time,
            closing_since: self.closing_since,
            local_seq: self.local_seq,
            heard: self.heard,
            remote_seq: self.remote_seq,
            received: self.received@,
            ledger: self.ledger@,
            queue: self.queue@,
            rtt: self.rtt@,
            loss: self.loss@,
            congested: self.congested,
            dropped: self.dropped,
        }
    }
}

/// The packet to send for `header` and `body` when the application's
/// transform returned `compressed`.
pub fn seal_packet(header: Vec<u8>, body: Vec<u8>, compressed: Vec<u8>) -> (packet: Vec<u8>)
    ensures
        packet@ == sealed(header@, body@, compressed@),
{
    let mut same: bool = compressed.len() >= header.len();
    let mut i: usize = 0;
    while same && i < header.len()
        invariant
            i <= header@.len(),
            same ==> compressed@.len() >= header@.len(),
            same ==> compressed@.take(i as int) == header@.take(i as int),
            !same ==> !(compressed@.len() >= header@.len() && compressed@.take(
                header@.len() as int,
            ) == header@),
        decreases header@.len() - i + if same {
            1int
        } else {
            0int
        },
    {
        if compressed[i] != header[i] {
            same = false;
            assert(compressed@.take(header@.len() as int)[i as int] != header@[i as int]);
        } else {
            assert(compressed@.take(i + 1) =~= compressed@.take(i as int).push(
                compressed@[i as int],
            ));
            assert(header@.take(i + 1) =~= header@.take(i as int).push(header@[i as int]));
            i += 1;
        }
    }
    if same {
        assert(header@.take(header@.len() as int) =~= header@);
        compressed
    } else {
        let mut packet = header;
        let mut rest = body;
        packet.append(&mut rest);
        packet
    }
}

impl Connection {
    /// What holds of every connection: its queues, its ledger and its
    /// estimates are in order.
    pub closed spec fn wf(&self) -> bool {
        &&& self.queue.wf()
        &&& self.ledger.wf()
        &&& self.rtt.wf()
        &&& self.loss.wf()
        &&& record_wf(self.received@, self.remote_seq)
    }

    /// Proof that the value of a well-formed connection is well-formed.
    pub proof fn lemma_view_wf(&self)
        requires
            self.wf(),
        ensures
            self@.wf(),
    {
        self.rtt.lemma_bounds();
        self.loss.lemma_bounds();
    }

    /// Makes the connection to `peer_addr`, identified by `id`, at time
    /// `now` in milliseconds.
    pub fn new(
        config: Config,
        local_addr: Address,
        peer_addr: Address,
        id: ConnectionID,
        now: u64,
    ) -> (connection: Connection)
        ensures
            connection.wf(),
            connection@ == ConnectionView::initial(config, id, local_addr, peer_addr, now),
    {
        let connection = Connection {
            config,
            id,
            state: ConnectionState::Connecting,
            local_address: local_addr,
            peer_address: peer_addr,
            last_receive_time: now,
            closing_since: now,
            local_seq: 0,
            heard: false,
            remote_seq: 0,
            received: VecDeque::new(),
            ledger: Ledger::new(),
            queue: MessageQueue::new(),
            rtt: RttEstimator::new(),
            loss: LossEstimator::new(),
            congested: false,
            dropped: 0,
        };
        assert(connection@ =~= ConnectionView::initial(config, id, local_addr, peer_addr, now));
        connection
    }

    /// The identifier in the header of a packet of this protocol; `None`
    /// for a packet that is too short for a header or starts with other
    /// bytes than the protocol header.
    pub fn id_from_packet(config: &Config, packet: &[u8]) -> (id: Option<ConnectionID>)
        ensures
            id == if well_framed(packet@, config.tag()) {
                Some(ConnectionID(id_field(packet@)))
            } else {
                None
            },
    {
        if is_well_framed(packet, &config.protocol_header) {
            Some(ConnectionID(read_be32(packet[4], packet[5], packet[6], packet[7])))
        } else {
            None
        }
    }

    pub fn id(&self) -> (id: ConnectionID)
        ensures
            id == self@.id,
    {
        self.id
    }

    /// Whether the connection is neither closed nor lost.
    pub fn open(&self) -> (open: bool)
        ensures
            open == self@.is_open(),
    {
        match self.state {
            ConnectionState::Connecting => true,
            ConnectionState::Connected => true,
            ConnectionState::Closing => true,
            _ => false,
        }
    }

    /// Whether the round-trip time is above the congestion threshold.
    pub fn congested(&self) -> (congested: bool)
        ensures
            congested == self@.congested,
    {
        self.congested
    }

    pub fn state(&self) -> (state: ConnectionState)
        ensures
            state == self@.state,
    {
        self.state
    }

    /// The smoothed round-trip time in milliseconds, rounded up.
    pub fn rtt(&self) -> (ms: u32)
        requires
            self.wf(),
        ensures
            ms == millis_ceil(self@.rtt),
    {
        self.rtt.millis()
    }

    /// The share of lost packets among those settled lately, in percent and
    /// rounded down.
    pub fn packet_loss(&self) -> (percent: u32)
        requires
            self.wf(),
        ensures
            percent == loss_percent(self@.loss),
            percent <= 100,
    {
        self.loss.percent()
    }

    /// How many packets were lost and how many were settled lately.
    pub fn packet_counts(&self) -> (counts: (usize, usize))
        requires
            self.wf(),
        ensures
            counts.0 == crate::estimator::count_lost(self@.loss),
            counts.1 == self@.loss.len(),
    {
        (self.loss.lost(), self.loss.observed())
    }

    /// Number of received packets that were dropped unread: too short, of
    /// another protocol, or not expected in the state of the connection.
    pub fn dropped_packets(&self) -> (count: u64)
        ensures
            count == self@.dropped,
    {
        self.dropped
    }

    /// Number of packets that were sent and are neither acknowledged nor
    /// given up.
    pub fn in_flight(&self) -> (count: usize)
        ensures
            count == self@.ledger.len(),
    {
        self.ledger.len()
    }

    /// Number of messages that wait to be sent, at most what `usize` holds.
    pub fn queued(&self) -> (count: usize)
        ensures
            count as nat == if self@.queue.outgoing().len() > usize::MAX {
                usize::MAX as nat
            } else {
                self@.queue.outgoing().len()
            },
    {
        self.queue.outgoing_len()
    }

    /// Number of received messages that wait to be fetched.
    pub fn unfetched(&self) -> (count: usize)
        ensures
            count == self@.queue.inbox.len(),
    {
        self.queue.inbox_len()
    }

    pub fn local_addr(&self) -> (address: Address)
        ensures
            address == self@.local_addr,
    {
        self.local_address
    }

    pub fn peer_addr(&self) -> (address: Address)
        ensures
            address == self@.peer_addr,
    {
        self.peer_address
    }

    pub fn set_peer_addr(&mut self, peer_addr: Address)
        requires
            old(self).wf(),
        ensures
            final(self).wf(),
            final(self)@ == (ConnectionView { peer_addr, ..old(self)@ }),
    {
        self.peer_address = peer_addr;
    }

    pub fn config(&self) -> (config: Config)
        ensures
            config == self@.config,
    {
        self.config
    }

    /// Replaces the settings. The connection starts over with them, as
    /// `reset` would have it.
    pub fn set_config(&mut self, config: Config, now: u64)
        ensures
            final(self).wf(),
            final(self)@ == ConnectionView::initial(
                config,
                old(self)@.id,
                old(self)@.local_addr,
                old(self)@.peer_addr,
                now,
            ),
    {
        self.config = config;
        self.reset(now);
    }

    /// Takes a message to be sent as `kind`; an ordered one goes out on
    /// channel 0. A payload of more than 255 bytes is dropped.
    pub fn send(&mut self, kind: MessageKind, payload: Vec<u8>)
        requires
            old(self).wf(),
        ensures
            final(self).wf(),
            final(self)@ == (ConnectionView {
                queue: old(self)@.queue.sent(kind, 0, payload@),
                ..old(self)@
            }),
    {
        self.queue.send(kind, 0, payload);
    }

    /// Takes a message to be sent in order on `channel`. A payload of more
    /// than 255 bytes is dropped.
    pub fn send_ordered(&mut self, channel: u8, payload: Vec<u8>)
        requires
            old(self).wf(),
        ensures
            final(self).wf(),
            final(self)@ == (ConnectionView {
                queue: old(self)@.queue.sent(MessageKind::Ordered, channel, payload@),
                ..old(self)@
            }),
    {
        self.queue.send(MessageKind::Ordered, channel, payload);
    }

    /// Hands out the payloads of the messages received since the last
    /// packet was sent, in the order in which they entered the inbox, each
    /// once.
    pub fn received(&mut self) -> (messages: Vec<Vec<u8>>)
        requires
            old(self).wf(),
        ensures
            final(self).wf(),
            contents(messages@) == payloads(old(self)@.queue.inbox),
            final(self)@ == (ConnectionView {
                queue: old(self)@.queue.dismissed(),
                ..old(self)@
            }),
    {
        self.queue.received()
    }

    /// Closes the connection from this side: the peer is told so with every
    /// packet until the closing threshold has elapsed, counted from `now`.
    pub fn close(&mut self, now: u64)
        requires
            old(self).wf(),
        ensures
            final(self).wf(),
            final(self)@ == old(self)@.after_close(now),
    {
        match self.state {
            ConnectionState::Connecting => {
                self.state = ConnectionState::Closing;
                self.closing_since = now;
            },
            ConnectionState::Connected => {
                self.state = ConnectionState::Closing;
                self.closing_since = now;
            },
            _ => {},
        }
    }

    /// Makes the connection as new: connecting, nothing queued, nothing
    /// sent, nothing received. Identifier, settings and addresses stay.
    pub fn reset(&mut self, now: u64)
        ensures
            final(self).wf(),
            final(self)@ == old(self)@.after_reset(now),
    {
        self.state = ConnectionState::Connecting;
        self.last_receive_time = now;
        self.closing_since = now;
        self.local_seq = 0;
        self.heard = false;
        self.remote_seq = 0;
        self.received.clear();
        self.ledger.clear();
        self.queue.reset();
        self.rtt.reset();
        self.loss.reset();
        self.congested = false;
        self.dropped = 0;
        assert(self@ =~= old(self)@.after_reset(now));
    }
}

impl Connection {
    /// Decides what to send at `now` and brings the connection into the
    /// state after sending: a connection that was silent for longer than
    /// the drop threshold becomes lost, a closing one sends the closure
    /// packet while less than the closing threshold has passed since it
    /// was closed and is closed once the threshold has elapsed,
    /// and any other open one fills a packet with the waiting messages that
    /// fit, enters it in the ledger and advances its sequence number.
    /// Received messages that were not fetched are thrown away in every
    /// case.
    pub fn prepare(&mut self, now: u64) -> (outgoing: Outgoing)
        requires
            old(self).wf(),
        ensures
            final(self).wf(),
            outgoing@ == old(self)@.departure(now),
            final(self)@ == old(self)@.after_send(now),
    {
        match self.state {
            ConnectionState::Closed => {
                self.queue.dismiss();
                assert(self@ =~= old(self)@.after_send(now));
                Outgoing::Nothing
            },
            ConnectionState::Lost => {
                self.queue.dismiss();
                assert(self@ =~= old(self)@.after_send(now));
                Outgoing::Nothing
            },
            ConnectionState::Closing => {
                if time_since(now, self.closing_since)
                    >= self.config.connection_closing_threshold as u64 {
                    self.state = ConnectionState::Closed;
                    self.queue.dismiss();
                    assert(self@ =~= old(self)@.after_send(now));
                    Outgoing::Closed
                } else {
                    let packet = write_header(
                        &self.config.protocol_header,
                        self.id.0,
                        CLOSURE_SEQUENCE,
                        CLOSURE_ACK,
                        CLOSURE_BITFIELD,
                    );
                    self.queue.dismiss();
                    assert(self@ =~= old(self)@.after_send(now));
                    Outgoing::Closure(packet)
                }
            },
            _ => {
                if time_since(now, self.last_receive_time)
                    > self.config.connection_drop_threshold as u64 {
                    self.state = ConnectionState::Lost;
                    self.queue.dismiss();
                    assert(self@ =~= old(self)@.after_send(now));
                    Outgoing::Lost
                } else {
                    let bitfield: u32 = ack_bitfield(&self.received, self.remote_seq);
                    let header = write_header(
                        &self.config.protocol_header,
                        self.id.0,
                        self.local_seq,
                        self.remote_seq,
                        bitfield,
                    );
                    let mut body: Vec<u8> = Vec::new();
                    let room: usize = self.config.message_room();
                    let messages = self.queue.write_packet(&mut body, room);
                    assert(body@ =~= old(self)@.data_body());
                    let block = copy_range(body.as_slice(), 0, body.len());
                    assert(block@ =~= body@);
                    self.ledger.record(
                        SentPacket { seq: self.local_seq, time: now, messages, block },
                    );
                    self.local_seq = seq_successor(self.local_seq);
                    self.queue.dismiss();
                    assert(self@ =~= old(self)@.after_send(now));
                    Outgoing::Data { header, body }
                }
            },
        }
    }

    /// Takes a received packet for what it is, and changes the state where
    /// the packet calls for it: the first packet of the peer establishes
    /// the connection, the peer's closure packet closes it.
    pub fn screen(&mut self, packet: &[u8]) -> (admission: Admission)
        requires
            old(self).wf(),
        ensures
            final(self).wf(),
            admission == old(self)@.admission(packet@),
            final(self)@ == old(self)@.after_admission(packet@),
    {
        if !is_well_framed(packet, &self.config.protocol_header) {
            self.count_dropped();
            return Admission::Ignored;
        }
        match self.state {
            ConnectionState::Connecting => {
                self.state = ConnectionState::Connected;
                self.loss.reset();
                assert(self@ =~= old(self)@.after_admission(packet@));
                Admission::Connected
            },
            ConnectionState::Connected => {
                if is_closure(packet) {
                    self.state = ConnectionState::Closed;
                    Admission::Closed
                } else {
                    Admission::Accepted
                }
            },
            ConnectionState::Closing => {
                if is_closure(packet) {
                    self.state = ConnectionState::Closed;
                    Admission::Closed
                } else {
                    self.count_dropped();
                    Admission::Ignored
                }
            },
            _ => {
                self.count_dropped();
                Admission::Ignored
            },
        }
    }

    /// Counts one more packet that was dropped unread.
    fn count_dropped(&mut self)
        requires
            old(self).wf(),
        ensures
            final(self).wf(),
            final(self)@ == (ConnectionView { dropped: counted(old(self)@.dropped), ..old(self)@ }),
    {
        if self.dropped < u64::MAX {
            self.dropped = self.dropped + 1;
        }
    }

    /// Reads the header of an admitted packet at `now`: notes the packet's
    /// sequence number among those received, settles the ledger with its acknowledgment, takes
    /// the round-trip times of acknowledged packets, less `tick_delay`,
    /// into the estimate, and puts the messages of lost packets back in
    /// front of their queues. Returns the records of the lost packets.
    pub fn acknowledge(&mut self, packet: &[u8], tick_delay: u32, now: u64) -> (lost: Vec<Vec<u8>>)
        requires
            old(self).wf(),
            packet@.len() >= PACKET_HEADER_SIZE,
        ensures
            final(self).wf(),
            final(self)@ == old(self)@.after_acknowledgment(packet@, tick_delay, now),
            contents(lost@) == old(self)@.lost_blocks(packet@, now),
    {
        let ghost before = self@;
        let ghost receipt = before.receipt(packet@, now);
        self.last_receive_time = now;
        self.remote_seq = note_received(&mut self.received, self.heard, self.remote_seq, packet[8]);
        self.heard = true;
        let ack: u8 = packet[9];
        let bitfield: u32 = read_be32(packet[10], packet[11], packet[12], packet[13]);
        let settled = self.ledger.settle(
            ack,
            bitfield,
            now,
            tick_delay,
            self.config.packet_drop_threshold,
        );
        let Settlement { samples, lost_messages, lost_blocks } = settled;
        proof {
            let acknowledged = with_fate(before.ledger, receipt, Fate::Acknowledged);
            let lost = with_fate(before.ledger, receipt, Fate::Lost);
            assert(micros(samples@).len() == samples@.len());
            assert(samples_of(acknowledged, now, tick_delay).len() == acknowledged.len());
            assert(contents(lost_blocks@).len() == lost_blocks@.len());
            assert(blocks_of(lost).len() == lost.len());
        }
        self.rtt.update_all(&samples);
        self.loss.record_many(false, samples.len());
        self.loss.record_many(true, lost_blocks.len());
        self.congested = self.rtt.congested(self.congested, self.config.congestion_rtt_threshold);
        self.queue.requeue(lost_messages);
        assert(self@ =~= before.after_acknowledgment(packet@, tick_delay, now));
        lost_blocks
    }

    /// Takes in the messages of a packet's body: instant and reliable ones
    /// go to the inbox, ordered ones go there in the order of their
    /// channel.
    pub fn deliver(&mut self, body: &[u8])
        requires
            old(self).wf(),
        ensures
            final(self).wf(),
            final(self)@ == old(self)@.after_delivery(body@),
    {
        self.queue.receive(body);
    }

    /// Takes in a packet that arrived at `now`, with no handler: the body
    /// is read as it came. `tick_delay` is the time in milliseconds that
    /// the caller slept in its tick, which is taken off the round-trip
    /// times. Returns what the packet was taken for, and the records of the
    /// packets that it showed to be lost.
    pub fn receive_plain(
        &mut self,
        packet: &[u8],
        tick_delay: u32,
        now: u64,
    ) -> (taken: (Admission, Vec<Vec<u8>>))
        requires
            old(self).wf(),
        ensures
            final(self).wf(),
            taken.0 == old(self)@.admission(packet@),
            final(self)@ == old(self)@.after_plain_receive(packet@, tick_delay, now),
            contents(taken.1@) == if old(self)@.admits(packet@) {
                old(self)@.after_admission(packet@).lost_blocks(packet@, now)
            } else {
                Seq::<Seq<u8>>::empty()
            },
    {
        let admission = self.screen(packet);
        match admission {
            Admission::Ignored => {
                let none: Vec<Vec<u8>> = Vec::new();
                assert(contents(none@) =~= Seq::<Seq<u8>>::empty());
                (admission, none)
            },
            Admission::Closed => {
                let none: Vec<Vec<u8>> = Vec::new();
                assert(contents(none@) =~= Seq::<Seq<u8>>::empty());
                (admission, none)
            },
            _ => {
                let lost = self.acknowledge(packet, tick_delay, now);
                let raw = vstd::slice::slice_subrange(packet, PACKET_HEADER_SIZE, packet.len());
                assert(raw@ =~= body(packet@));
                self.deliver(raw);
                (admission, lost)
            },
        }
    }

    /// Takes in a packet that arrived at `now`. `tick_delay` is the time in
    /// milliseconds that the caller slept in its tick, which is taken off
    /// the round-trip times. The handler learns of a connection that is
    /// established or closed by the packet and of every packet that it
    /// shows to be lost, and transforms the body before the messages are
    /// read. Returns whether the packet was read.
    pub fn receive_packet<T, H: Handler<T>>(
        &mut self,
        packet: Vec<u8>,
        tick_delay: u32,
        now: u64,
        owner: &mut T,
        handler: &mut H,
    ) -> (read: bool)
        requires
            old(self).wf(),
        ensures
            final(self).wf(),
            read == old(self)@.admits(packet@),
            exists|body: Seq<u8>|
                final(self)@ == old(self)@.after_receive(packet@, tick_delay, now, body),
    {
        let ghost before = self@;
        let admission = self.screen(packet.as_slice());
        match admission {
            Admission::Ignored => {
                assert(self@ == before.after_receive(packet@, tick_delay, now, Seq::empty()));
                return false;
            },
            Admission::Closed => {
                handler.connection_closed(owner, &*self, true);
                assert(self@ == before.after_receive(packet@, tick_delay, now, Seq::empty()));
                return false;
            },
            Admission::Connected => {
                handler.connection(owner, &*self);
            },
            Admission::Accepted => {},
        }
        let lost = self.acknowledge(packet.as_slice(), tick_delay, now);
        let mut i: usize = 0;
        while i < lost.len()
            invariant
                i <= lost@.len(),
                self.wf(),
            decreases lost@.len() - i,
        {
            handler.connection_packet_lost(owner, &*self, lost[i].as_slice());
            i += 1;
        }
        let raw = vstd::slice::slice_subrange(packet.as_slice(), PACKET_HEADER_SIZE, packet.len());
        let body = handler.connection_packet_decompress(owner, &*self, raw);
        self.deliver(body.as_slice());
        assert(self@ == before.after_receive(packet@, tick_delay, now, body@));
        true
    }

    /// Sends at `now`: returns the packet to hand to the socket, if there
    /// is one. The handler learns of a connection that is lost or has
    /// finished closing, and transforms a packet of messages before it goes
    /// out; what it returns goes out if it starts with the packet's header,
    /// else the packet goes out untransformed.
    pub fn send_packet<T, H: Handler<T>>(
        &mut self,
        now: u64,
        owner: &mut T,
        handler: &mut H,
    ) -> (packet: Option<Vec<u8>>)
        requires
            old(self).wf(),
        ensures
            final(self).wf(),
            final(self)@ == old(self)@.after_send(now),
            match old(self)@.departure(now) {
                Departure::Nothing => packet is None,
                Departure::Closed => packet is None,
                Departure::Lost => packet is None,
                Departure::Closure(bytes) => packet matches Some(sent) && sent@ == bytes,
                Departure::Data { header, body } => packet matches Some(sent) && sent@ == sealed(
                    header,
                    body,
                    sent@,
                ),
            },
    {
        match self.prepare(now) {
            Outgoing::Nothing => None,
            Outgoing::Closed => {
                handler.connection_closed(owner, &*self, false);
                None
            },
            Outgoing::Lost => {
                handler.connection_lost(owner, &*self);
                None
            },
            Outgoing::Closure(packet) => Some(packet),
            Outgoing::Data { header, body } => {
                let handed = copy_range(header.as_slice(), 0, header.len());
                assert(handed@ =~= header@);
                let compressed = handler.connection_packet_compress(
                    owner,
                    &*self,
                    handed,
                    body.as_slice(),
                );
                let ghost h = header@;
                let ghost b = body@;
                let sent = seal_packet(header, body, compressed);
                proof {
                    lemma_sealed_fixed(h, b, compressed@);
                }
                Some(sent)
            },
        }
    }
}

/// A packet that went out is what sealing gives for itself: it starts with
/// the header, whatever the application's transform returned.
pub proof fn lemma_sealed_fixed(header: Seq<u8>, body: Seq<u8>, compressed: Seq<u8>)
    ensures
        sealed(header, body, sealed(header, body, compressed)) == sealed(header, body, compressed),
        sealed(header, body, compressed).len() >= header.len(),
        sealed(header, body, compressed).take(header.len() as int) == header,
{
    assert((header + body).take(header.len() as int) =~= header);
}

/// Leaving a packet as it is leaves the wire bytes unchanged: a transform
/// that returns header and body gets header and body sent.
pub proof fn lemma_sealed_identity(header: Seq<u8>, body: Seq<u8>)
    ensures
        sealed(header, body, header + body) == header + body,
{
}

/// A transform may make a packet longer: what starts with the header goes
/// out as it is, and is longer than the header alone if the transform
/// added anything behind it.
pub proof fn lemma_sealed_inflated(header: Seq<u8>, body: Seq<u8>, added: Seq<u8>)
    ensures
        sealed(header, body, header + added) == header + added,
        added.len() > 0 ==> sealed(header, body, header + added).len() > header.len(),
{
    assert((header + added).take(header.len() as int) =~= header);
}

/// The connection after `send_packet` at each of `times` in turn.
pub open spec fn after_sends(v: ConnectionView, times: Seq<u64>) -> ConnectionView
    decreases times.len(),
{
    if times.len() == 0 {
        v
    } else {
        after_sends(v, times.drop_last()).after_send(times.last())
    }
}

/// One packet of messages: a connection that is connecting or connected
/// and has heard its peer within the drop threshold sends a packet with its
/// sequence number, and has the next sequence number afterwards.
pub proof fn lemma_send_step(v: ConnectionView, now: u64)
    requires
        v.state == ConnectionState::Connecting || v.state == ConnectionState::Connected,
        elapsed(now, v.last_receive_time) <= v.config.connection_drop_threshold,
    ensures
        v.departure(now) matches Departure::Data { header, .. } && sequence_field(header)
            == v.local_seq,
        v.after_send(now).local_seq == successor(v.local_seq),
        v.after_send(now).state == v.state,
        v.after_send(now).id == v.id,
        v.after_send(now).config == v.config,
        v.after_send(now).last_receive_time == v.last_receive_time,
{
    lemma_header_fields(
        v.config.tag(),
        v.id.0,
        v.local_seq,
        v.remote_seq,
        bitfield_for(v.received, v.remote_seq),
    );
}

/// Sending packets of messages changes neither the state nor the identity
/// of a connection, and advances its sequence number by one for each: a
/// connection that is connecting or connected and sends at `times`, all
/// within the drop threshold of the last packet received, has afterwards
/// the sequence number that lies as many steps behind its own as there
/// were sends, modulo 256.
pub proof fn lemma_after_sends(v: ConnectionView, times: Seq<u64>)
    requires
        v.state == ConnectionState::Connecting || v.state == ConnectionState::Connected,
        forall|i: int|
            0 <= i < times.len() ==> elapsed(#[trigger] times[i], v.last_receive_time)
                <= v.config.connection_drop_threshold,
    ensures
        after_sends(v, times).local_seq == advanced(v.local_seq, times.len()),
        after_sends(v, times).state == v.state,
        after_sends(v, times).id == v.id,
        after_sends(v, times).config == v.config,
        after_sends(v, times).last_receive_time == v.last_receive_time,
    decreases times.len(),
{
    if times.len() > 0 {
        let front = times.drop_last();
        assert forall|i: int| 0 <= i < front.len() implies elapsed(
            #[trigger] front[i],
            v.last_receive_time,
        ) <= v.config.connection_drop_threshold by {
            assert(front[i] == times[i]);
        }
        lemma_after_sends(v, front);
        let w = after_sends(v, front);
        let now = times[times.len() - 1];
        assert(times.last() == now);
        assert(after_sends(v, times) == w.after_send(now));
        lemma_send_step(w, now);
        lemma_successor_steps(v.local_seq, front.len());
    }
}

/// Sequence numbers count up by one with every packet and wrap at 256: the
/// packet that a connection sends after it has sent `times.len()` packets
/// carries the sequence number that lies that many steps behind the
/// sequence number of the first of them, modulo 256. A new connection
/// starts at 0, so its packets carry 0, 1, 2 and so on, and 0 again after
/// 255.
pub proof fn lemma_sequence_numbers(v: ConnectionView, times: Seq<u64>, now: u64)
    requires
        v.state == ConnectionState::Connecting || v.state == ConnectionState::Connected,
        forall|i: int|
            0 <= i < times.len() ==> elapsed(#[trigger] times[i], v.last_receive_time)
                <= v.config.connection_drop_threshold,
        elapsed(now, v.last_receive_time) <= v.config.connection_drop_threshold,
    ensures
        after_sends(v, times).departure(now) matches Departure::Data { header, .. }
            && sequence_field(header) == advanced(v.local_seq, times.len()),
{
    lemma_after_sends(v, times);
    lemma_send_step(after_sends(v, times), now);
}

/// What a connection acknowledges: after a packet was received, the next
/// packet of messages names the newest sequence number received, which is
/// the packet's own number if nothing was received before or if it is ahead
/// of the newest so far. Bit `i` of its bitfield is set exactly if the
/// number `i + 1` steps before the acknowledged one was received: if it is
/// the number of the packet just received, the number acknowledged until
/// then, or a number recorded as received before.
pub proof fn lemma_acknowledgment(
    v: ConnectionView,
    packet: Seq<u8>,
    tick_delay: u32,
    now: u64,
    body: Seq<u8>,
    later: u64,
)
    requires
        v.wf(),
        v.admits(packet),
        v.after_receive(packet, tick_delay, now, body).departure(later) is Data,
    ensures
        v.after_receive(packet, tick_delay, now, body).heard,
        v.after_receive(packet, tick_delay, now, body).remote_seq == newest_after(
            v.heard,
            v.remote_seq,
            sequence_field(packet),
        ),
        v.after_receive(packet, tick_delay, now, body).received == noted(
            v.heard,
            v.received,
            v.remote_seq,
            sequence_field(packet),
        ),
        ack_field(v.after_receive(packet, tick_delay, now, body).departure(later)->header)
            == newest_after(v.heard, v.remote_seq, sequence_field(packet)),
        forall|i: u32|
            i < 32 ==> (#[trigger] bit(
                bitfield_field(
                    v.after_receive(packet, tick_delay, now, body).departure(later)->header,
                ),
                i,
            ) <==> was_received(
                v,
                sequence_field(packet),
                before(newest_after(v.heard, v.remote_seq, sequence_field(packet)), i + 1),
            )),
{
    let w = v.after_receive(packet, tick_delay, now, body);
    let seq = sequence_field(packet);
    let bits = bitfield_for(w.received, w.remote_seq);
    lemma_header_fields(w.config.tag(), w.id.0, w.local_seq, w.remote_seq, bits);
    lemma_bitfield_for(w.received, w.remote_seq);
    assert(w.received == noted(v.heard, v.received, v.remote_seq, seq));
    assert forall|i: u32| i < 32 implies (#[trigger] bit(
        bitfield_field(w.departure(later)->header),
        i,
    ) <==> was_received(v, seq, before(newest_after(v.heard, v.remote_seq, seq), i + 1))) by {
        let number = before(w.remote_seq, i + 1);
        assert(bit(bits, i) <==> w.received.contains(number));
        lemma_noted_holds(v.heard, v.received, v.remote_seq, seq, number);
        assert(reported(number, w.remote_seq));
    }
}

/// Whether what a connection holds of the numbers received is what the
/// arrival of `arrivals`, one after another, leaves at a connection that
/// had received nothing. A new connection holds what no arrivals leave.
pub open spec fn tracks(v: ConnectionView, arrivals: Seq<u8>) -> bool {
    &&& v.heard == (arrivals.len() > 0)
    &&& v.remote_seq == newest_of(arrivals)
    &&& v.received == record_of(arrivals)
}

/// A connection acknowledges what arrived, in whatever order and however
/// often: where the numbers `arrivals` have arrived and a packet with one
/// more number is received, the next packet of messages names the newest
/// of all these numbers, and bit `i` of its bitfield is set exactly if the
/// number `i + 1` steps before the newest is one of them. This holds of
/// numbers of which none is further than 127 steps ahead of the first;
/// beyond that, a number cannot tell an old packet from a new one.
pub proof fn lemma_acknowledges_what_arrived(
    v: ConnectionView,
    arrivals: Seq<u8>,
    packet: Seq<u8>,
    tick_delay: u32,
    now: u64,
    body: Seq<u8>,
    later: u64,
)
    requires
        v.wf(),
        tracks(v, arrivals),
        v.admits(packet),
        v.after_receive(packet, tick_delay, now, body).departure(later) is Data,
        forall|j: int|
            0 <= j < arrivals.len() + 1 ==> distance(
                arrivals.push(sequence_field(packet))[0],
                #[trigger] arrivals.push(sequence_field(packet))[j],
            ) <= 127,
    ensures
        tracks(
            v.after_receive(packet, tick_delay, now, body),
            arrivals.push(sequence_field(packet)),
        ),
        arrivals.push(sequence_field(packet)).contains(
            ack_field(v.after_receive(packet, tick_delay, now, body).departure(later)->header),
        ),
        forall|j: int|
            0 <= j < arrivals.len() + 1 ==> distance(
                arrivals.push(sequence_field(packet))[0],
                #[trigger] arrivals.push(sequence_field(packet))[j],
            ) <= distance(
                arrivals.push(sequence_field(packet))[0],
                ack_field(v.after_receive(packet, tick_delay, now, body).departure(later)->header),
            ),
        forall|i: u32|
            i < 32 ==> (#[trigger] bit(
                bitfield_field(
                    v.after_receive(packet, tick_delay, now, body).departure(later)->header,
                ),
                i,
            ) <==> arrivals.push(sequence_field(packet)).contains(
                before(
                    ack_field(
                        v.after_receive(packet, tick_delay, now, body).departure(later)->header,
                    ),
                    i + 1,
                ),
            )),
{
    let w = v.after_receive(packet, tick_delay, now, body);
    let all = arrivals.push(sequence_field(packet));
    assert(all.drop_last() =~= arrivals);
    assert(all.last() == sequence_field(packet));
    assert(w.remote_seq == newest_of(all));
    assert(w.received == record_of(all));
    lemma_arrivals_recorded(all);
    lemma_header_fields(
        w.config.tag(),
        w.id.0,
        w.local_seq,
        w.remote_seq,
        bitfield_for(w.received, w.remote_seq),
    );
}

/// Whether the number `value` counts as received by a connection `v` that
/// now receives the number `seq`: it is `seq`, or the connection has
/// received packets before and `value` is the number that it acknowledged
/// or one that it has recorded.
pub open spec fn was_received(v: ConnectionView, seq: u8, value: u8) -> bool {
    value == seq || (v.heard && (value == v.remote_seq || v.received.contains(value)))
}

/// A packet of messages that goes out as it is reads as it was written:
/// it is framed for the protocol, its header names the connection, its
/// sequence number and what it acknowledges, and behind the header stands
/// the body.
pub proof fn lemma_packet_framed(v: ConnectionView)
    ensures
        well_framed(v.data_header() + v.data_body(), v.config.tag()),
        id_field(v.data_header() + v.data_body()) == v.id.0,
        sequence_field(v.data_header() + v.data_body()) == v.local_seq,
        ack_field(v.data_header() + v.data_body()) == v.remote_seq,
        bitfield_field(v.data_header() + v.data_body()) == bitfield_for(v.received, v.remote_seq),
        body(v.data_header() + v.data_body()) == v.data_body(),
        !announces_closure(v.data_header() + v.data_body()) || (v.local_seq == 0 && v.remote_seq
            == 128),
{
    let header = v.data_header();
    let packet = header + v.data_body();
    lemma_header_fields(
        v.config.tag(),
        v.id.0,
        v.local_seq,
        v.remote_seq,
        bitfield_for(v.received, v.remote_seq),
    );
    assert(packet.take(4) =~= header.take(4));
    assert(packet.skip(PACKET_HEADER_SIZE as int) =~= v.data_body());
    assert forall|i: int| 0 <= i < 14 implies packet[i] == header[i] by {}
    if announces_closure(packet) {
        assert(packet.subrange(8, 14)[0] == 0u8);
        assert(packet.subrange(8, 14)[1] == 128u8);
    }
}

/// What one connection sends, another reads: the body of a packet holds
/// the messages that the packet took, so a connection that is handed the
/// body takes in exactly those messages, in their order.
pub proof fn lemma_body_read_back(sender: ConnectionView, receiver: ConnectionView)
    requires
        sender.wf(),
    ensures
        receiver.after_delivery(sender.data_body()).queue == receiver.queue.accepted_all(
            sender.queue.packed(sender.config.room() as int),
        ),
{
    lemma_packed_read_back(sender.queue, sender.config.room() as int);
}

/// Received messages that were not fetched before `send_packet` are gone
/// after it, whatever it sends.
pub proof fn lemma_inbox_discarded(v: ConnectionView, now: u64)
    ensures
        v.after_send(now).queue.inbox.len() == 0,
{
}

/// Closing and resetting leaves a connection as new under its old
/// identity: it is connecting and open, nothing waits in its queues or in
/// its ledger, and identifier, settings and addresses are what they were.
pub proof fn lemma_reset_after_close(v: ConnectionView, closed_at: u64, reset_at: u64)
    ensures
        v.after_close(closed_at).after_reset(reset_at).state == ConnectionState::Connecting,
        v.after_close(closed_at).after_reset(reset_at).is_open(),
        v.after_close(closed_at).after_reset(reset_at).is_clear(),
        v.after_close(closed_at).after_reset(reset_at).id == v.id,
        v.after_close(closed_at).after_reset(reset_at).config == v.config,
        v.after_close(closed_at).after_reset(reset_at).local_addr == v.local_addr,
        v.after_close(closed_at).after_reset(reset_at).peer_addr == v.peer_addr,
        v.after_close(closed_at).after_reset(reset_at).wf(),
{
}

/// A packet that is sent and lost leaves the reliable and the ordered
/// messages waiting as before it was sent, so that the next packet takes
/// them again; the instant messages that it took are gone. This holds of a
/// connection whose ledger is empty when it sends at `sent_at`, and that
/// receives at `now`, later than the drop threshold allows, a packet that
/// does not acknowledge what it sent.
pub proof fn lemma_lost_packet_restores(
    v: ConnectionView,
    sent_at: u64,
    packet: Seq<u8>,
    tick_delay: u32,
    now: u64,
    body: Seq<u8>,
)
    requires
        v.wf(),
        v.ledger.len() == 0,
        v.departure(sent_at) is Data,
        v.after_send(sent_at).admits(packet),
        !acknowledges(v.local_seq, ack_field(packet), bitfield_field(packet)),
        elapsed(now, sent_at) > v.config.packet_drop_threshold,
    ensures
        v.after_send(sent_at).after_receive(packet, tick_delay, now, body).queue.reliable
            == v.queue.reliable,
        v.after_send(sent_at).after_receive(packet, tick_delay, now, body).queue.ordered
            == v.queue.ordered,
        v.after_send(sent_at).after_receive(packet, tick_delay, now, body).queue.instant
            == v.queue.instant.skip(v.queue.packed_instant(v.config.room() as int)),
        v.after_send(sent_at).after_receive(packet, tick_delay, now, body).ledger.len() == 0,
        v.after_send(sent_at).after_receive(packet, tick_delay, now, body).rtt == v.rtt,
{
    let room = v.config.room() as int;
    let sent = v.after_send(sent_at);
    let entry = SentPacketView {
        seq: v.local_seq,
        time: sent_at,
        messages: v.queue.retained(room),
        block: v.data_body(),
    };
    assert(sent.ledger =~= seq![entry]);
    let heard = sent.after_admission(packet);
    let receipt = heard.receipt(packet, now);
    assert(fate(entry, receipt) == Fate::Lost);
    let ledger = seq![entry];
    lemma_with_fate_all(ledger, receipt, Fate::Lost, Fate::Lost);
    lemma_with_fate_all(ledger, receipt, Fate::Lost, Fate::Waiting);
    lemma_with_fate_all(ledger, receipt, Fate::Lost, Fate::Acknowledged);
    assert(ledger.drop_last() =~= Seq::<SentPacketView>::empty());
    assert(messages_of(ledger.drop_last()) =~= Seq::<MessageView>::empty());
    assert(messages_of(ledger) =~= entry.messages);
    assert(samples_of(Seq::<SentPacketView>::empty(), now, tick_delay) =~= Seq::<int>::empty());
    lemma_retained_come_back(v.queue, room);
    let settled = heard.after_acknowledgment(packet, tick_delay, now);
    assert(settled.queue.reliable == v.queue.reliable);
    assert(settled.queue.ordered == v.queue.ordered);
    lemma_accepted_keeps_outgoing(settled.queue, parsed(body));
}

/// A packet that is sent and acknowledged is settled for good: it leaves
/// the ledger, its messages are not sent again, and the time that it took,
/// less the tick delay, moves the round-trip estimate a tenth of the way
/// towards itself. From an estimate of zero, a round trip of `T`
/// milliseconds gives an estimate of a tenth of `T`. This holds of a
/// connection whose ledger is empty when it sends at `sent_at`, and that
/// receives at `now` a packet that names the sequence number of what it
/// sent.
pub proof fn lemma_acknowledged_packet_settles(
    v: ConnectionView,
    sent_at: u64,
    packet: Seq<u8>,
    tick_delay: u32,
    now: u64,
    body: Seq<u8>,
)
    requires
        v.wf(),
        v.ledger.len() == 0,
        v.departure(sent_at) is Data,
        v.after_send(sent_at).admits(packet),
        ack_field(packet) == v.local_seq,
    ensures
        v.after_send(sent_at).after_receive(packet, tick_delay, now, body).ledger.len() == 0,
        v.after_send(sent_at).after_receive(packet, tick_delay, now, body).rtt == smoothed(
            v.rtt,
            rtt_sample(now, sent_at, tick_delay) * 1000,
        ),
        v.rtt == 0 ==> v.after_send(sent_at).after_receive(packet, tick_delay, now, body).rtt
            == 100 * rtt_sample(now, sent_at, tick_delay),
        v.after_send(sent_at).after_receive(packet, tick_delay, now, body).queue.reliable
            == v.queue.after_packing(v.config.room() as int).reliable,
        v.after_send(sent_at).after_receive(packet, tick_delay, now, body).queue.ordered
            == v.queue.after_packing(v.config.room() as int).ordered,
{
    let room = v.config.room() as int;
    let sent = v.after_send(sent_at);
    let entry = SentPacketView {
        seq: v.local_seq,
        time: sent_at,
        messages: v.queue.retained(room),
        block: v.data_body(),
    };
    assert(sent.ledger =~= seq![entry]);
    let heard = sent.after_admission(packet);
    let receipt = heard.receipt(packet, now);
    assert(fate(entry, receipt) == Fate::Acknowledged);
    let ledger = seq![entry];
    lemma_with_fate_all(ledger, receipt, Fate::Acknowledged, Fate::Lost);
    lemma_with_fate_all(ledger, receipt, Fate::Acknowledged, Fate::Waiting);
    lemma_with_fate_all(ledger, receipt, Fate::Acknowledged, Fate::Acknowledged);
    let sample = rtt_sample(now, sent_at, tick_delay) * 1000;
    let samples = samples_of(ledger, now, tick_delay);
    assert(samples =~= seq![sample]);
    assert(samples.drop_last() =~= Seq::<int>::empty());
    assert(smoothed_all(v.rtt, samples.drop_last()) == v.rtt);
    assert(smoothed_all(v.rtt, samples) == smoothed(v.rtt, sample));
    assert(messages_of(Seq::<SentPacketView>::empty()) =~= Seq::<MessageView>::empty());
    assert(of_kind(Seq::<MessageView>::empty(), MessageKind::Reliable) =~= Seq::<
        MessageView,
    >::empty());
    assert(of_kind(Seq::<MessageView>::empty(), MessageKind::Ordered) =~= Seq::<
        MessageView,
    >::empty());
    let settled = heard.after_acknowledgment(packet, tick_delay, now);
    assert(settled.queue.reliable =~= v.queue.after_packing(room).reliable);
    assert(settled.queue.ordered =~= v.queue.after_packing(room).ordered);
    lemma_accepted_keeps_outgoing(settled.queue, parsed(body));
}

/// A packet that is lost gives back its reliable and its ordered messages,
/// and nothing else: the packet was entered in the ledger with the
/// reliable and ordered messages that it took, and when an acknowledgment
/// shows it to be lost these stand in front of their queues again.
pub proof fn lemma_lost_messages_return(
    v: ConnectionView,
    packet: Seq<u8>,
    tick_delay: u32,
    now: u64,
)
    ensures
        v.after_acknowledgment(packet, tick_delay, now).queue.instant == v.queue.instant,
        v.after_acknowledgment(packet, tick_delay, now).queue.reliable == of_kind(
            messages_of(with_fate(v.ledger, v.receipt(packet, now), Fate::Lost)),
            MessageKind::Reliable,
        ) + v.queue.reliable,
        v.after_acknowledgment(packet, tick_delay, now).queue.ordered == of_kind(
            messages_of(with_fate(v.ledger, v.receipt(packet, now), Fate::Lost)),
            MessageKind::Ordered,
        ) + v.queue.ordered,
{
}

} // verus!
