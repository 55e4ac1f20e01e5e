use asnet::codec::encode_frame;
use asnet::{Address, EventKind, Host, IoErrorKind};

fn addr(port: u16) -> Address {
    Address {
        octets: [127, 0, 0, 1, 0, 0, 0, 0, 0, 0, 0, 0, 0, 0, 0, 0],
        is_ipv6: false,
        port,
    }
}

/// Moves everything the source peer's write automaton has to send into the
/// destination peer's read automaton, `write_chunk` bytes per write, the way
/// a transport would between two reactors.
fn transfer(src: &mut Host<()>, si: usize, dst: &mut Host<()>, di: usize, write_chunk: usize, now: u64) {
    loop {
        let p = src.peer_mut(si);
        if !p.prepare_write() {
            break;
        }
        let off = p.write_offset();
        let end = (off + write_chunk).min(p.write_buf().len());
        let bytes: Vec<u8> = p.write_buf()[off..end].to_vec();
        p.write_advance(bytes.len(), now);
        dst.peer_mut(di).on_read(&bytes, now).unwrap();
    }
    dst.deliver_incoming(di);
}

#[test]
fn test_packet_order() {
    const PACKETS: &[&[u8]] = &[b"\x01first", b"\x02second", b"\x03third", b"\x04fourth"];

    let mut server: Host<()> = Host::builder().server();
    let mut client: Host<()> = Host::builder().client();

    let idx = client.register_outgoing(addr(8000), true, (), 0);
    let sidx = server.register_incoming(addr(49152), (), 0);

    let event = client.pop_event().unwrap();
    assert_eq!(event.kind, EventKind::Connect);
    assert_eq!(event.peer, idx);

    for packet in PACKETS {
        client.peer_mut(idx).send(packet.to_vec());
    }

    let event = server.pop_event().unwrap();
    assert_eq!(event.kind, EventKind::Connect);
    assert_eq!(event.peer, sidx);

    transfer(&mut client, idx, &mut server, sidx, 3, 1);

    for packet in PACKETS {
        let event = server.pop_event().unwrap();
        assert_eq!(event.kind, EventKind::Receive(packet.to_vec()));
        assert_eq!(event.peer, sidx);
    }
    assert!(server.pop_event().is_none());

    // the client goes quiet; the server evicts the silent peer on timeout
    let _ = server.scan_timeouts(6000);
    let event = server.pop_event().unwrap();
    assert_eq!(event.kind, EventKind::Disconnect);
    assert_eq!(event.peer, sidx);

    // the client observes Connect followed by Disconnect, nothing else
    assert!(client.pop_event().is_none());
    let _ = client.scan_timeouts(6000);
    let event = client.pop_event().unwrap();
    assert_eq!(event.kind, EventKind::Disconnect);
    assert_eq!(event.peer, idx);
    assert!(client.pop_event().is_none());
}

#[test]
fn test_failed_connect_yields_connect_then_disconnect() {
    let mut client: Host<()> = Host::builder().client();
    let idx = client.register_outgoing(addr(9), false, (), 0);

    let event = client.pop_event().unwrap();
    assert_eq!(event.kind, EventKind::Connect);
    assert_eq!(event.peer, idx);

    let event = client.pop_event().unwrap();
    assert_eq!(event.kind, EventKind::Disconnect);
    assert_eq!(event.peer, idx);

    assert!(!client.peer(idx).unwrap().connected());
    assert!(client.pop_event().is_none());
}

#[test]
fn test_slot_not_reused_before_disconnect_delivered() {
    let mut h: Host<()> = Host::builder().client();
    let a = h.register_outgoing(addr(1), true, (), 0);
    assert_eq!(h.pop_event().unwrap().kind, EventKind::Connect);

    assert!(!h.peer_failed(a, IoErrorKind::ConnectionReset));
    let b = h.register_outgoing(addr(2), true, (), 0);
    assert_ne!(a, b);

    let event = h.pop_event().unwrap();
    assert_eq!(event.kind, EventKind::Disconnect);
    assert_eq!(event.peer, a);
    // the slot stays valid while the Disconnect is being handled
    assert!(h.has_peer(a));

    let event = h.pop_event().unwrap();
    assert_eq!(event.kind, EventKind::Connect);
    assert_eq!(event.peer, b);
    // the deferred removal has run; only now may the slot be reused
    assert!(!h.has_peer(a));
    let c = h.register_outgoing(addr(3), true, (), 0);
    assert_eq!(c, a);
}

#[test]
fn test_timeout_eviction() {
    let mut h: Host<()> = Host::builder().timeout(100).client();
    let a = h.register_outgoing(addr(1), true, (), 0);
    assert_eq!(h.pop_event().unwrap().kind, EventKind::Connect);

    let io = h.scan_timeouts(99);
    assert_eq!(io, vec![a]);
    assert!(h.pop_event().is_none());

    let io = h.scan_timeouts(100);
    assert!(io.is_empty());
    let event = h.pop_event().unwrap();
    assert_eq!(event.kind, EventKind::Disconnect);
    assert_eq!(event.peer, a);
}

#[test]
fn test_zero_length_frame_disconnects_only_that_peer() {
    let mut server: Host<()> = Host::builder().server();
    let a = server.register_incoming(addr(1), (), 0);
    let b = server.register_incoming(addr(2), (), 0);
    assert_eq!(server.pop_event().unwrap().kind, EventKind::Connect);
    assert_eq!(server.pop_event().unwrap().kind, EventKind::Connect);

    let err = server.peer_mut(a).on_read(&[0, 0, 0, 0], 1).unwrap_err();
    assert_eq!(err, IoErrorKind::InvalidData);
    assert!(!server.peer_failed(a, err));

    let event = server.pop_event().unwrap();
    assert_eq!(event.kind, EventKind::Disconnect);
    assert_eq!(event.peer, a);

    // the other peer is unaffected and still receives normally
    server.peer_mut(b).on_read(&encode_frame(&vec![7u8]), 2).unwrap();
    server.deliver_incoming(b);
    let event = server.pop_event().unwrap();
    assert_eq!(event.kind, EventKind::Receive(vec![7]));
    assert_eq!(event.peer, b);
}

#[test]
fn test_broadcast_copies_to_all_connected() {
    let mut server: Host<()> = Host::builder().server();
    let a = server.register_incoming(addr(1), (), 0);
    let b = server.register_incoming(addr(2), (), 0);
    let c = server.register_incoming(addr(3), (), 0);
    server.peer_mut(c).disconnect();

    server.broadcast(b"hello".to_vec());

    assert_eq!(server.peers(), vec![a, b]);
    assert_eq!(server.peer(a).unwrap().outgoing.len(), 1);
    assert_eq!(server.peer(a).unwrap().outgoing[0], b"hello".to_vec());
    assert_eq!(server.peer(b).unwrap().outgoing.len(), 1);
    assert_eq!(server.peer(b).unwrap().outgoing[0], b"hello".to_vec());
    assert_eq!(server.peer(c).unwrap().outgoing.len(), 0);
}

#[test]
fn test_send_after_disconnect_is_noop() {
    let mut h: Host<()> = Host::builder().client();
    let a = h.register_outgoing(addr(1), true, (), 0);
    h.peer_mut(a).disconnect();
    assert!(!h.peer(a).unwrap().connected());
    h.peer_mut(a).send(vec![1, 2, 3]);
    assert_eq!(h.peer(a).unwrap().outgoing.len(), 0);
}

#[test]
fn test_update_ready_merges_until_would_block() {
    let mut h: Host<()> = Host::builder().client();
    let a = h.register_outgoing(addr(1), true, (), 0);

    h.update_ready(a, true, false);
    h.update_ready(a, false, true);
    h.update_ready(a, false, false);
    assert!(h.peer(a).unwrap().readable_ready());
    assert!(h.peer(a).unwrap().writable_ready());

    h.peer_mut(a).read_would_block();
    assert!(!h.peer(a).unwrap().readable_ready());
    assert!(h.peer(a).unwrap().writable_ready());
    h.peer_mut(a).write_would_block();
    assert!(!h.peer(a).unwrap().writable_ready());

    // a report for a slot that holds no peer is ignored
    h.update_ready(77, true, true);
    assert!(!h.has_peer(77));
}

#[test]
fn test_fatal_error_changes_nothing() {
    assert!(asnet::error::recoverable(IoErrorKind::InvalidData));
    assert!(asnet::error::recoverable(IoErrorKind::ConnectionRefused));
    assert!(asnet::error::recoverable(IoErrorKind::ConnectionReset));
    assert!(asnet::error::recoverable(IoErrorKind::ConnectionAborted));
    assert!(asnet::error::recoverable(IoErrorKind::BrokenPipe));
    assert!(!asnet::error::recoverable(IoErrorKind::WouldBlock));
    assert!(!asnet::error::recoverable(IoErrorKind::NotFound));
    assert!(!asnet::error::recoverable(IoErrorKind::Other));

    let mut h: Host<()> = Host::builder().client();
    let a = h.register_outgoing(addr(1), true, (), 0);
    assert_eq!(h.pop_event().unwrap().kind, EventKind::Connect);
    assert!(h.peer_failed(a, IoErrorKind::Other));
    assert!(h.pop_event().is_none());
    assert!(h.peer(a).unwrap().connected());
}

#[test]
fn test_builder_defaults_and_setters() {
    let b = Host::<()>::builder();
    assert_eq!(b.timeout_ms, 5000);
    assert_eq!(b.events_capacity, 256);

    let h: Host<()> = Host::builder().timeout(100).events_capacity(8).client();
    assert_eq!(h.timeout_ms, 100);
    assert_eq!(h.events_capacity, 8);
    assert!(!h.is_server);

    let h2: Host<()> = Host::builder().server();
    assert!(h2.is_server);
}

#[test]
fn test_peer_accessors() {
    let mut h: Host<u32> = Host::builder().client();
    let a = h.register_outgoing(addr(7), true, 5u32, 3);

    let p = h.peer(a).unwrap();
    assert_eq!(p.idx(), a);
    assert_eq!(p.addr().port, 7);
    assert!(!p.addr().is_ipv6);
    assert_eq!(*p.data(), 5);
    assert_eq!(p.last_activity(), 3);

    *h.peer_mut(a).data_mut() = 9;
    assert_eq!(*h.peer(a).unwrap().data(), 9);

    assert!(h.peer(99).is_none());
    assert!(h.has_peer(a));
}

#[test]
fn test_incoming_packets_drains_in_arrival_order() {
    let mut h: Host<()> = Host::builder().client();
    let a = h.register_outgoing(addr(1), true, (), 0);

    let mut bytes = encode_frame(&vec![1u8]);
    bytes.extend_from_slice(&encode_frame(&vec![2u8, 2]));
    h.peer_mut(a).on_read(&bytes, 1).unwrap();

    let got = h.peer_mut(a).incoming_packets();
    assert_eq!(got, vec![vec![1u8], vec![2, 2]]);
    assert!(h.peer_mut(a).incoming_packets().is_empty());
}

#[test]
fn test_write_automaton_one_byte_writes() {
    let mut src: Host<()> = Host::builder().client();
    let mut dst: Host<()> = Host::builder().client();
    let si = src.register_outgoing(addr(1), true, (), 0);
    let di = dst.register_outgoing(addr(2), true, (), 0);
    let _ = src.pop_event();
    let _ = dst.pop_event();

    let payload: Vec<u8> = (0..513).map(|i| (i % 7) as u8).collect();
    src.peer_mut(si).send(payload.clone());
    transfer(&mut src, si, &mut dst, di, 1, 5);

    let event = dst.pop_event().unwrap();
    assert_eq!(event.kind, EventKind::Receive(payload));
    // the nonzero transfers refreshed both activity clocks
    assert_eq!(src.peer(si).unwrap().last_activity(), 5);
    assert_eq!(dst.peer(di).unwrap().last_activity(), 5);
}
