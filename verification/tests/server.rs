use rudp::{
    Address, Config, Connection, ConnectionID, ConnectionMap, ConnectionState, Datagram, Handler,
    MessageKind, Quiet, Server, ServerError,
};

fn local() -> Address {
    Address::v4(127, 0, 0, 1, 7000)
}

fn client(n: u8) -> Address {
    Address::v4(10, 0, 0, n, 4000)
}

fn datagram(id: u8, seq: u8, ack: u8, body: &[u8]) -> Vec<u8> {
    let mut packet: Vec<u8> = vec![1, 2, 3, 4, 0, 0, 0, id, seq, ack, 0, 0, 0, 0];
    packet.extend_from_slice(body);
    packet
}

/// The identifier that the server gives to the connection of client `id`.
fn own(id: u8) -> ConnectionID {
    ConnectionID(0x5000 + u32::from(id))
}

fn bound(config: Config) -> (Server, ConnectionMap) {
    let mut server = Server::new(config);
    let connections = server.bind(&mut Quiet, local()).unwrap();
    (server, connections)
}

fn sent(datagrams: Vec<Datagram>) -> Vec<(Address, Vec<u8>)> {
    datagrams.into_iter().map(|d| (d.to, d.data)).collect()
}

#[derive(Default)]
struct Recorder {
    binds: u32,
    shutdowns: u32,
    ticks: u32,
    connected: Vec<ConnectionID>,
    lost: Vec<ConnectionID>,
    closed: Vec<(ConnectionID, bool)>,
    greet: bool,
    stop_after: Option<u32>,
    inbox: Vec<(ConnectionID, Vec<u8>)>,
    times: Vec<u64>,
    close: Option<ConnectionID>,
}

impl Handler<Server> for Recorder {
    fn bind(&mut self, server: &mut Server) {
        assert_eq!(server.local_addr(), Some(local()));
        self.binds += 1;
    }

    fn shutdown(&mut self, _: &mut Server) {
        self.shutdowns += 1;
    }

    fn tick_connections(&mut self, server: &mut Server, connections: &mut ConnectionMap, now: u64) {
        self.ticks += 1;
        self.times.push(now);
        if let Some(id) = self.close {
            connections.close(id, now);
        }
        for id in connections.ids() {
            for message in connections.received(id) {
                self.inbox.push((id, message));
            }
            if self.greet {
                assert!(connections.send(id, MessageKind::Instant, b"hi".to_vec()));
            }
        }
        if self.stop_after == Some(self.ticks) {
            server.shutdown();
        }
    }

    fn connection(&mut self, _: &mut Server, connection: &Connection) {
        self.connected.push(connection.id());
    }

    fn connection_lost(&mut self, _: &mut Server, connection: &Connection) {
        self.lost.push(connection.id());
    }

    fn connection_closed(&mut self, _: &mut Server, connection: &Connection, by_remote: bool) {
        self.closed.push((connection.id(), by_remote));
    }
}

#[test]
fn a_new_server_is_not_bound() {
    let server = Server::new(Config::default());
    assert_eq!(server.local_addr(), None);
    assert!(!server.running());
    assert_eq!(server.tick_delay(), 33);
    assert_eq!(server.config().send_rate, 30);
}

#[test]
fn tick_delay_follows_the_send_rate() {
    assert_eq!(Server::new(Config { send_rate: 10, ..Config::default() }).tick_delay(), 100);
    assert_eq!(Server::new(Config { send_rate: 1000, ..Config::default() }).tick_delay(), 1);
    assert_eq!(Server::new(Config { send_rate: 3000, ..Config::default() }).tick_delay(), 0);
    assert_eq!(Server::new(Config { send_rate: 0, ..Config::default() }).tick_delay(), 0);
}

#[test]
fn bind_refuses_settings_that_cannot_work() {
    let bad: [Config; 3] = [
        Config { send_rate: 0, ..Config::default() },
        Config { congestion_divider: 0, ..Config::default() },
        Config { packet_max_size: 13, ..Config::default() },
    ];
    for config in bad {
        assert!(!config.is_valid());
        let mut server = Server::new(config);
        let mut handler = Recorder::default();
        assert_eq!(server.bind(&mut handler, local()).err(), Some(ServerError::InvalidConfig));
        assert_eq!(server.local_addr(), None);
        assert_eq!(handler.binds, 0);
    }
    assert!(Config { packet_max_size: 14, ..Config::default() }.is_valid());
}

#[test]
fn bind_takes_the_address_and_tells_the_handler() {
    let mut server = Server::new(Config::default());
    let mut handler = Recorder::default();
    let connections = server.bind(&mut handler, local()).unwrap();
    assert_eq!(connections.len(), 0);
    assert_eq!(server.local_addr(), Some(local()));
    assert!(server.running());
    assert_eq!(handler.binds, 1);
}

#[test]
fn an_unknown_identifier_gets_a_connection() {
    let (mut server, mut connections) = bound(Config::default());
    let mut handler = Recorder::default();
    assert!(server.receive(&mut connections, &mut handler, client(1), datagram(7, 0, 0, &[]), own(7), 5));
    assert_eq!(connections.len(), 1);
    assert!(connections.contains(ConnectionID(7)));
    assert!(!connections.contains(ConnectionID(8)));
    assert_eq!(connections.address(ConnectionID(7)), Some(client(1)));
    assert_eq!(connections.address(ConnectionID(8)), None);
    let connection = connections.get(ConnectionID(7)).unwrap();
    assert!(connection.state() == ConnectionState::Connected);
    assert_eq!(connection.id(), own(7));
    assert_eq!(connection.local_addr(), local());
    assert_eq!(connection.peer_addr(), client(1));
    assert_eq!(handler.connected, vec![own(7)]);
    assert!(connections.get(ConnectionID(8)).is_none());
}

#[test]
fn datagrams_of_one_identifier_reach_one_connection() {
    let (mut server, mut connections) = bound(Config::default());
    let mut handler = Recorder::default();
    server.receive(&mut connections, &mut handler, client(1), datagram(7, 0, 0, &[0, 0, 0, 1, 97]), own(7), 0);
    server.receive(&mut connections, &mut handler, client(2), datagram(8, 0, 0, &[0, 0, 0, 1, 98]), own(8), 0);
    server.receive(&mut connections, &mut handler, client(1), datagram(7, 1, 0, &[0, 0, 0, 1, 99]), own(7), 0);
    assert_eq!(connections.ids(), vec![ConnectionID(7), ConnectionID(8)]);
    assert_eq!(connections.received(ConnectionID(7)), vec![b"a".to_vec(), b"c".to_vec()]);
    assert_eq!(connections.received(ConnectionID(8)), vec![b"b".to_vec()]);
    assert_eq!(connections.received(ConnectionID(9)), Vec::<Vec<u8>>::new());
    assert_eq!(handler.connected, vec![own(7), own(8)]);
}

#[test]
fn malformed_datagrams_make_no_connection() {
    let (mut server, mut connections) = bound(Config::default());
    assert!(!server.receive(&mut connections, &mut Quiet, client(1), vec![], own(7), 0));
    assert!(!server.receive(&mut connections, &mut Quiet, client(1), vec![1, 2, 3, 4, 0, 0, 0, 7], own(7), 0));
    let mut other = datagram(7, 0, 0, &[]);
    other[0] = 9;
    assert!(!server.receive(&mut connections, &mut Quiet, client(1), other, own(7), 0));
    assert_eq!(connections.len(), 0);
}

#[test]
fn a_peer_that_moves_keeps_its_connection() {
    let (mut server, mut connections) = bound(Config::default());
    server.receive(&mut connections, &mut Quiet, client(1), datagram(7, 0, 0, &[]), own(7), 0);
    server.receive(&mut connections, &mut Quiet, client(9), datagram(7, 1, 0, &[]), own(7), 0);
    assert_eq!(connections.len(), 1);
    assert_eq!(connections.address(ConnectionID(7)), Some(client(9)));
    assert_eq!(connections.get(ConnectionID(7)).unwrap().peer_addr(), client(9));
    let out = sent(server.tick(&mut connections, &mut Quiet, 0));
    assert_eq!(out, vec![(client(9), vec![1, 2, 3, 4, 0, 0, 80, 7, 0, 1, 0, 0, 0, 1])]);
}

#[test]
fn a_tick_lets_every_connection_send() {
    let (mut server, mut connections) = bound(Config::default());
    let mut handler = Recorder { greet: true, ..Recorder::default() };
    server.receive(&mut connections, &mut handler, client(1), datagram(7, 3, 0, &[]), own(7), 0);
    server.receive(&mut connections, &mut handler, client(2), datagram(8, 5, 0, &[]), own(8), 0);
    let out = sent(server.tick(&mut connections, &mut handler, 10));
    assert_eq!(handler.ticks, 1);
    assert_eq!(
        out,
        vec![
            (client(1), vec![1, 2, 3, 4, 0, 0, 80, 7, 0, 3, 0, 0, 0, 0, 0, 0, 0, 2, 104, 105]),
            (client(2), vec![1, 2, 3, 4, 0, 0, 80, 8, 0, 5, 0, 0, 0, 0, 0, 0, 0, 2, 104, 105]),
        ]
    );
}

#[test]
fn the_handler_fetches_messages_at_the_tick() {
    let (mut server, mut connections) = bound(Config::default());
    let mut handler = Recorder::default();
    server.receive(&mut connections, &mut handler, client(1), datagram(7, 0, 0, &[1, 0, 0, 1, 97]), own(7), 0);
    server.tick(&mut connections, &mut handler, 0);
    assert_eq!(handler.inbox, vec![(ConnectionID(7), b"a".to_vec())]);
}

#[test]
fn connections_that_fall_silent_leave_the_map() {
    let (mut server, mut connections) = bound(Config::default());
    let mut handler = Recorder::default();
    server.receive(&mut connections, &mut handler, client(1), datagram(7, 0, 0, &[]), own(7), 0);
    server.receive(&mut connections, &mut handler, client(2), datagram(8, 0, 0, &[]), own(8), 600);
    assert_eq!(sent(server.tick(&mut connections, &mut handler, 1000)).len(), 2);
    let out = sent(server.tick(&mut connections, &mut handler, 1001));
    assert_eq!(out.len(), 1);
    assert_eq!(out[0].0, client(2));
    assert_eq!(connections.ids(), vec![ConnectionID(8)]);
    assert_eq!(handler.lost, vec![own(7)]);
    // the identifier can come back
    server.receive(&mut connections, &mut handler, client(1), datagram(7, 0, 0, &[]), own(7), 1002);
    assert_eq!(connections.ids(), vec![ConnectionID(8), ConnectionID(7)]);
}

#[test]
fn connections_that_the_peer_closes_leave_the_map() {
    let (mut server, mut connections) = bound(Config::default());
    let mut handler = Recorder::default();
    server.receive(&mut connections, &mut handler, client(1), datagram(7, 0, 0, &[]), own(7), 0);
    let closure: Vec<u8> = vec![1, 2, 3, 4, 0, 0, 0, 7, 0, 128, 85, 85, 85, 85];
    assert!(!server.receive(&mut connections, &mut handler, client(1), closure, own(7), 0));
    assert_eq!(handler.closed, vec![(own(7), true)]);
    assert_eq!(connections.len(), 1);
    assert_eq!(sent(server.tick(&mut connections, &mut handler, 0)), vec![]);
    assert_eq!(connections.len(), 0);
}

#[test]
fn connections_closed_from_this_side_tell_the_peer_and_leave() {
    let (mut server, mut connections) = bound(Config::default());
    let mut handler = Recorder::default();
    server.receive(&mut connections, &mut handler, client(1), datagram(7, 0, 0, &[]), own(7), 0);
    assert!(connections.close(ConnectionID(7), 0));
    assert!(!connections.close(ConnectionID(8), 0));
    let out = sent(server.tick(&mut connections, &mut handler, 50));
    assert_eq!(out, vec![(client(1), vec![1, 2, 3, 4, 0, 0, 80, 7, 0, 128, 85, 85, 85, 85])]);
    assert_eq!(connections.len(), 1);
    assert_eq!(sent(server.tick(&mut connections, &mut handler, 99)).len(), 1);
    assert_eq!(sent(server.tick(&mut connections, &mut handler, 100)), vec![]);
    assert_eq!(connections.len(), 0);
    assert_eq!(handler.closed, vec![(own(7), false)]);
}

#[test]
fn the_handler_is_told_the_time_of_the_tick() {
    let (mut server, mut connections) = bound(Config::default());
    let mut handler = Recorder { close: Some(ConnectionID(7)), ..Recorder::default() };
    server.receive(&mut connections, &mut handler, client(1), datagram(7, 0, 0, &[]), own(7), 0);
    // the handler closes the connection at the time of the first tick
    let out = sent(server.tick(&mut connections, &mut handler, 40));
    assert_eq!(out, vec![(client(1), vec![1, 2, 3, 4, 0, 0, 80, 7, 0, 128, 85, 85, 85, 85])]);
    assert_eq!(sent(server.tick(&mut connections, &mut handler, 139)).len(), 1);
    assert_eq!(sent(server.tick(&mut connections, &mut handler, 140)), vec![]);
    assert_eq!(handler.times, vec![40, 139, 140]);
    assert_eq!(handler.closed, vec![(own(7), false)]);
}

#[test]
fn open_binds_the_server_without_a_handler() {
    let mut server = Server::new(Config::default());
    let connections = server.open(local()).unwrap();
    assert_eq!(connections.len(), 0);
    assert_eq!(server.local_addr(), Some(local()));
    assert!(server.running());
    let mut bad = Server::new(Config { send_rate: 0, ..Config::default() });
    assert_eq!(bad.open(local()).err(), Some(ServerError::InvalidConfig));
    assert_eq!(bad.local_addr(), None);
}

#[test]
fn a_congested_connection_sends_on_every_second_tick() {
    let config = Config {
        congestion_rtt_threshold: 5,
        connection_drop_threshold: 100_000,
        ..Config::default()
    };
    let (mut server, mut connections) = bound(config);
    server.receive(&mut connections, &mut Quiet, client(1), datagram(7, 0, 0, &[]), own(7), 0);
    // tick 0 sends sequence number 0
    assert_eq!(sent(server.tick(&mut connections, &mut Quiet, 0)).len(), 1);
    // the acknowledgment takes a second: 1000 ms less the tick delay of 33 ms
    server.receive(&mut connections, &mut Quiet, client(1), datagram(7, 1, 0, &[]), own(7), 1000);
    let connection = connections.get(ConnectionID(7)).unwrap();
    assert_eq!(connection.rtt(), 97);
    assert!(connection.congested());
    let mut sequences: Vec<Option<u8>> = Vec::new();
    for _ in 1..8 {
        let out = sent(server.tick(&mut connections, &mut Quiet, 1000));
        sequences.push(out.first().map(|d| d.1[8]));
    }
    assert_eq!(sequences, vec![None, Some(1), None, Some(2), None, Some(3), None]);
}

#[test]
fn ticks_are_counted_through_one_second() {
    let config = Config {
        send_rate: 3,
        congestion_rtt_threshold: 5,
        connection_drop_threshold: 100_000,
        ..Config::default()
    };
    let (mut server, mut connections) = bound(config);
    server.receive(&mut connections, &mut Quiet, client(1), datagram(7, 0, 0, &[]), own(7), 0);
    assert_eq!(sent(server.tick(&mut connections, &mut Quiet, 0)).len(), 1);
    server.receive(&mut connections, &mut Quiet, client(1), datagram(7, 1, 0, &[]), own(7), 2000);
    assert!(connections.get(ConnectionID(7)).unwrap().congested());
    // the ticks are numbered 1, 2, 0, 1, 2, 0, and only the even ones send
    let mut sends: Vec<bool> = Vec::new();
    for _ in 0..6 {
        sends.push(!server.tick(&mut connections, &mut Quiet, 2000).is_empty());
    }
    assert_eq!(sends, vec![false, true, true, false, true, true]);
}

#[test]
fn a_server_that_is_not_bound_does_nothing() {
    let mut server = Server::new(Config::default());
    let mut connections = ConnectionMap::new();
    let mut handler = Recorder::default();
    assert!(!server.receive(&mut connections, &mut handler, client(1), datagram(7, 0, 0, &[]), own(7), 0));
    assert_eq!(connections.len(), 0);
    assert_eq!(sent(server.tick(&mut connections, &mut handler, 0)), vec![]);
    assert_eq!(handler.ticks, 0);
}

#[test]
fn shutdown_stops_the_server() {
    let (mut server, mut connections) = bound(Config::default());
    let mut handler = Recorder { stop_after: Some(2), ..Recorder::default() };
    server.receive(&mut connections, &mut handler, client(1), datagram(7, 0, 0, &[0, 0, 0, 1, 97]), own(7), 0);
    let mut ticks: u32 = 0;
    while server.running() {
        server.tick(&mut connections, &mut handler, 0);
        ticks += 1;
    }
    assert_eq!(ticks, 2);
    server.finish(&mut connections, &mut handler, 9);
    assert_eq!(handler.shutdowns, 1);
    assert_eq!(server.local_addr(), None);
    assert!(!server.running());
    let connection = connections.get(ConnectionID(7)).unwrap();
    assert!(connection.state() == ConnectionState::Connecting);
    assert_eq!(connection.in_flight(), 0);
}

#[test]
fn shutdown_before_bind_is_remembered() {
    let mut server = Server::new(Config::default());
    server.shutdown();
    let _connections = server.bind(&mut Quiet, local()).unwrap();
    assert!(!server.running());
    assert_eq!(server.local_addr(), Some(local()));
}

#[test]
fn the_map_sends_on_the_connection_that_is_named() {
    let (mut server, mut connections) = bound(Config::default());
    server.receive(&mut connections, &mut Quiet, client(1), datagram(7, 0, 0, &[]), own(7), 0);
    server.receive(&mut connections, &mut Quiet, client(2), datagram(8, 0, 0, &[]), own(8), 0);
    assert!(connections.send(ConnectionID(8), MessageKind::Reliable, b"r".to_vec()));
    assert!(!connections.send(ConnectionID(9), MessageKind::Reliable, b"r".to_vec()));
    assert!(connections.send_ordered(ConnectionID(7), 4, b"o".to_vec()));
    assert!(!connections.send_ordered(ConnectionID(9), 4, b"o".to_vec()));
    let out = sent(server.tick(&mut connections, &mut Quiet, 0));
    assert_eq!(&out[0].1[14..], &[2, 0, 4, 1, 111]);
    assert_eq!(&out[1].1[14..], &[1, 0, 0, 1, 114]);
}

#[test]
fn a_connection_is_kept_under_the_identifier_of_its_peer() {
    let (mut server, mut connections) = bound(Config::default());
    let mut handler = Recorder::default();
    server.receive(&mut connections, &mut handler, client(1), datagram(7, 0, 0, &[]), own(1), 0);
    // the connection has its own identifier, and keeps it
    server.receive(&mut connections, &mut handler, client(1), datagram(7, 1, 0, &[]), own(2), 0);
    assert_eq!(connections.ids(), vec![ConnectionID(7)]);
    assert!(!connections.contains(own(1)));
    assert_eq!(connections.get(ConnectionID(7)).unwrap().id(), own(1));
    assert_eq!(handler.connected, vec![own(1)]);
    let out = sent(server.tick(&mut connections, &mut handler, 0));
    assert_eq!(out, vec![(client(1), vec![1, 2, 3, 4, 0, 0, 80, 1, 0, 1, 0, 0, 0, 1])]);
    // two peers may be given the same identifier; their keys tell them apart
    server.receive(&mut connections, &mut handler, client(2), datagram(9, 4, 0, &[]), own(1), 0);
    assert_eq!(connections.ids(), vec![ConnectionID(7), ConnectionID(9)]);
    assert_eq!(connections.get(ConnectionID(9)).unwrap().id(), own(1));
    assert_eq!(connections.address(ConnectionID(9)), Some(client(2)));
}
