//! The settings that a connection and the server work with.

use crate::wire::PACKET_HEADER_SIZE;
use vstd::prelude::*;

verus! {

/// Settings of a connection. Both peers must use the same protocol header.
#[derive(Clone, Copy, Debug)]
pub struct Config {
    /// Number of packets sent per second.
    pub send_rate: u32,
    /// The four bytes in front of every packet of this protocol.
    pub protocol_header: [u8; 4],
    /// Largest number of bytes in one packet, header included.
    pub packet_max_size: usize,
    /// Milliseconds after which a packet without acknowledgment counts as
    /// lost.
    pub packet_drop_threshold: u32,
    /// Milliseconds without any packet from the peer after which the
    /// connection counts as lost.
    pub connection_drop_threshold: u32,
    /// Milliseconds during which a connection that was closed locally keeps
    /// telling the peer so; once they have elapsed it is closed.
    pub connection_closing_threshold: u32,
    /// Round-trip time in milliseconds above which the connection counts as
    /// congested.
    pub congestion_rtt_threshold: u32,
    /// While congested, a packet is sent on one of this many ticks only.
    pub congestion_divider: u32,
}

impl Config {
    /// Whether the settings can drive a server: a send rate and a congestion
    /// divider that one can divide by, and room for a packet header.
    pub open spec fn valid(&self) -> bool {
        &&& self.send_rate > 0
        &&& self.congestion_divider > 0
        &&& self.packet_max_size >= PACKET_HEADER_SIZE
    }

    pub fn is_valid(&self) -> (ok: bool)
        ensures
            ok == self.valid(),
    {
        self.send_rate > 0 && self.congestion_divider > 0 && self.packet_max_size
            >= PACKET_HEADER_SIZE
    }

    /// The protocol header as a sequence of bytes.
    pub open spec fn tag(&self) -> Seq<u8> {
        self.protocol_header@
    }

    /// Number of bytes that the messages of one packet may take.
    pub open spec fn room(&self) -> nat {
        if self.packet_max_size >= PACKET_HEADER_SIZE {
            (self.packet_max_size - PACKET_HEADER_SIZE) as nat
        } else {
            0
        }
    }

    pub fn message_room(&self) -> (room: usize)
        ensures
            room == self.room(),
    {
        if self.packet_max_size >= PACKET_HEADER_SIZE {
            self.packet_max_size - PACKET_HEADER_SIZE
        } else {
            0
        }
    }

    /// Milliseconds between two ticks at the configured send rate.
    pub open spec fn tick_interval(&self) -> int
        recommends
            self.send_rate > 0,
    {
        1000int / (self.send_rate as int)
    }

    pub fn tick_delay(&self) -> (delay: u32)
        requires
            self.send_rate > 0,
        ensures
            delay == self.tick_interval(),
    {
        1000 / self.send_rate
    }
}

impl Default for Config {
    fn default() -> (config: Config)
        ensures
            config.send_rate == 30,
            config.tag() == seq![1u8, 2u8, 3u8, 4u8],
            config.packet_max_size == 1400,
            config.packet_drop_threshold == 1000,
            config.connection_drop_threshold == 1000,
            config.connection_closing_threshold == 100,
            config.congestion_rtt_threshold == 250,
            config.congestion_divider == 2,
            config.valid(),
    {
        let config = Config {
            send_rate: 30,
            protocol_header: [1, 2, 3, 4],
            packet_max_size: 1400,
            packet_drop_threshold: 1000,
            connection_drop_threshold: 1000,
            connection_closing_threshold: 100,
            congestion_rtt_threshold: 250,
            congestion_divider: 2,
        };
        assert(config.protocol_header@ =~= seq![1u8, 2u8, 3u8, 4u8]);
        config
    }
}

} // verus!
