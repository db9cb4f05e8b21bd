//! The events that a connection and the server report, and the two places
//! at which an application can transform packets.

use crate::connection::Connection;
use crate::server::ConnectionMap;
use crate::message::copy_range;
use vstd::prelude::*;

verus! {

/// What an application implements to learn of events. `T` is the owner of
/// the connections, such as the server. Every method has a default that
/// does nothing, or that leaves a packet as it is.
pub trait Handler<T> {
    /// The owner is bound to its address and starts to work.
    fn bind(&mut self, owner: &mut T) {
    }

    /// The owner stops working.
    fn shutdown(&mut self, owner: &mut T) {
    }

    /// A tick has begun at `now`, in milliseconds: the turn of the
    /// application to send messages on the connections, to fetch what they
    /// received and to close them.
    fn tick_connections(&mut self, owner: &mut T, connections: &mut ConnectionMap, now: u64)
        requires
            old(connections).wf(),
        ensures
            final(connections).wf(),
    {
    }

    /// The first packet of the peer has arrived: the connection is
    /// established.
    fn connection(&mut self, owner: &mut T, connection: &Connection)
        requires
            connection.wf(),
    {
    }

    /// The peer was silent for longer than the drop threshold.
    fn connection_lost(&mut self, owner: &mut T, connection: &Connection)
        requires
            connection.wf(),
    {
    }

    /// The connection was closed, by the peer or from this side.
    fn connection_closed(&mut self, owner: &mut T, connection: &Connection, by_remote: bool)
        requires
            connection.wf(),
    {
    }

    /// A packet was given up as lost; `block` holds the records of its
    /// messages.
    fn connection_packet_lost(&mut self, owner: &mut T, connection: &Connection, block: &[u8])
        requires
            connection.wf(),
    {
    }

    /// Transforms a packet before it is sent. `header` is the packet's
    /// header and `body` the records of its messages. What is returned must
    /// start with the header unchanged; a result that does not is set aside
    /// and the packet goes out as header and body.
    fn connection_packet_compress(
        &mut self,
        owner: &mut T,
        connection: &Connection,
        header: Vec<u8>,
        body: &[u8],
    ) -> (packet: Vec<u8>)
        requires
            connection.wf(),
        default_ensures
            packet@ == header@ + body@,
    {
        let mut packet = header;
        let mut copy = copy_range(body, 0, body.len());
        assert(body@.subrange(0, body@.len() as int) =~= body@);
        packet.append(&mut copy);
        packet
    }

    /// Transforms the body of a received packet before its messages are
    /// read.
    fn connection_packet_decompress(
        &mut self,
        owner: &mut T,
        connection: &Connection,
        body: &[u8],
    ) -> (messages: Vec<u8>)
        requires
            connection.wf(),
        default_ensures
            messages@ == body@,
    {
        let copy = copy_range(body, 0, body.len());
        assert(body@.subrange(0, body@.len() as int) =~= body@);
        copy
    }
}

/// The handler that takes no notice of any event and leaves packets as they
/// are.
#[derive(Clone, Copy, Debug)]
pub struct Quiet;

impl<T> Handler<T> for Quiet {

}

} // verus!
