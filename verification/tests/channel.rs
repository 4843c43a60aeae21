use netchannel::channel::{DatagramReceiver, DatagramSender, NetChannel, RecvError};
use netchannel::header::{FramingError, PacketHeader};

fn build_netchannel() -> NetChannel {
    NetChannel::new_from_channels(DatagramReceiver::new(), DatagramSender::new())
}

#[test]
fn smoke_netchannel() {
    let mut chan1 = build_netchannel();
    let mut chan2 = build_netchannel();

    chan1.transmit(b"Candygram!", 0);
    let sent = chan1.outgoing_datagrams.take();
    chan2.incoming_datagrams.push(sent[0].clone());

    assert_eq!(chan2.recv(0).unwrap()[0], b"Candygram!".to_vec());
}

#[test]
fn end_to_end() {
    let mut chan_a = build_netchannel();
    let mut chan_b = build_netchannel();

    let first_seq = chan_a.transmit(b"Candygram!", 0);
    let sent_a = chan_a.outgoing_datagrams.take();
    assert_eq!(sent_a.len(), 1);
    chan_b.incoming_datagrams.push(sent_a[0].clone());

    let received_b = chan_b.recv(1).unwrap();
    assert_eq!(received_b, vec![b"Candygram!".to_vec()]);

    chan_b.transmit(b"Mongo only pawn in game of life", 2);
    let sent_b = chan_b.outgoing_datagrams.take();
    chan_a.incoming_datagrams.push(sent_b[0].clone());

    let received_a = chan_a.recv(3).unwrap();
    assert_eq!(received_a, vec![b"Mongo only pawn in game of life".to_vec()]);
    assert!(chan_a.is_acknowledged(first_seq));
}

#[test]
fn header_round_trip() {
    let h = PacketHeader { seq: 250, ack: 3 };
    let mut buf: Vec<u8> = Vec::new();
    h.write_to(&mut buf);
    assert_eq!(buf, vec![250, 3]);
    assert_eq!(PacketHeader::read_from(&buf), Ok(h));
}

#[test]
fn read_from_rejects_short_input() {
    assert_eq!(PacketHeader::read_from(&[]), Err(FramingError::Truncated));
    assert_eq!(PacketHeader::read_from(&[9]), Err(FramingError::Truncated));
}

#[test]
fn transmit_emits_header_then_payload() {
    let mut chan = build_netchannel();
    chan.transmit(&[1, 2, 3], 0);
    let sent = chan.outgoing_datagrams.take();
    // seq 0 for the first packet, ack 255 while no inbound packet was seen
    assert_eq!(sent, vec![vec![0, 255, 1, 2, 3]]);
    assert!(chan.outgoing_datagrams.take().is_empty());
}

#[test]
fn outgoing_seq_wraps_around() {
    let mut chan = build_netchannel();
    for expected in 0u8..=255 {
        assert_eq!(chan.transmit(&[], 0), expected);
    }
    assert_eq!(chan.transmit(&[], 0), 0);
}

#[test]
fn monotonic_acceptance() {
    let mut chan = build_netchannel();
    for seq in 0u8..3 {
        chan.incoming_datagrams.push(vec![seq, 255, seq + 10]);
        let msgs = chan.recv(0).unwrap();
        assert_eq!(msgs, vec![vec![seq + 10]]);
    }
    // re-feeding a previously accepted sequence number yields nothing
    chan.incoming_datagrams.push(vec![1, 255, 99]);
    assert_eq!(chan.recv(0).unwrap().len(), 0);
}

#[test]
fn recv_drains_everything_buffered() {
    let mut chan = build_netchannel();
    chan.incoming_datagrams.push(vec![0, 255, 10]);
    chan.incoming_datagrams.push(vec![1, 255, 11]);
    chan.incoming_datagrams.push(vec![2, 255, 12]);
    let msgs = chan.recv(0).unwrap();
    assert_eq!(msgs, vec![vec![10], vec![11], vec![12]]);
    assert!(chan.recv(0).unwrap().is_empty());
}

#[test]
fn truncated_datagram_is_discarded() {
    let mut chan = build_netchannel();
    chan.incoming_datagrams.push(vec![5]);
    chan.incoming_datagrams.push(vec![]);
    assert!(chan.recv(0).unwrap().is_empty());
}

#[test]
fn future_ack_is_rejected() {
    let mut chan = build_netchannel();
    // the peer cannot acknowledge sequence 5 when nothing has been sent
    chan.incoming_datagrams.push(vec![0, 5, 1]);
    assert!(chan.recv(0).unwrap().is_empty());
    // the channel did not accept the header either
    assert!(!chan.is_acknowledged(0));
}

#[test]
fn ack_driven_retirement() {
    let mut chan = build_netchannel();
    assert_eq!(chan.transmit(b"one", 0), 0);
    assert_eq!(chan.transmit(b"two", 0), 1);
    assert_eq!(chan.transmit(b"three", 0), 2);

    // inbound datagram whose header acks sequence 1
    chan.incoming_datagrams.push(vec![0, 1]);
    chan.recv(5).unwrap();

    assert!(chan.is_acknowledged(0));
    assert!(chan.is_acknowledged(1));
    assert!(!chan.is_acknowledged(2));
    assert_eq!(chan.dropped_packets, 2);
    assert_eq!(chan.inflight.len(), 1);
}

#[test]
fn latency_is_measured_from_last_retired_packet() {
    let mut chan = build_netchannel();
    chan.transmit(b"ping", 100);
    assert_eq!(chan.latency, None);

    chan.incoming_datagrams.push(vec![0, 0]);
    chan.recv(250).unwrap();
    assert_eq!(chan.latency, Some(150));
}

#[test]
fn closed_inbound_is_terminal() {
    let mut chan = build_netchannel();
    chan.incoming_datagrams.close();
    assert!(matches!(chan.recv(0), Err(RecvError::TaskDied)));
}

#[test]
fn closed_inbound_still_processes_buffered_datagrams() {
    let mut chan = build_netchannel();
    chan.incoming_datagrams.push(vec![0, 255, 7]);
    chan.incoming_datagrams.close();
    assert!(matches!(chan.recv(0), Err(RecvError::TaskDied)));
    // the buffered header was still validated and recorded
    assert_eq!(chan.incoming_seq, 0);
}

#[test]
fn fresh_channel_has_nothing_acknowledged() {
    let chan = build_netchannel();
    assert!(!chan.is_acknowledged(0));
    assert!(!chan.is_acknowledged(1));
}
