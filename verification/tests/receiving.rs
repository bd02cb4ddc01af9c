use bytes::{Bytes, BytesMut};
use deshred::receive::{datagrams, Action, Event, Intake, Ticker, BATCH};
use deshred::shred::MAX_PACKET_SIZE;

#[test]
fn a_batch_is_cut_into_its_datagrams() {
    let mut buffer = BytesMut::zeroed(BATCH * MAX_PACKET_SIZE);
    for (i, byte) in buffer.iter_mut().enumerate() {
        *byte = (i / MAX_PACKET_SIZE) as u8;
    }
    buffer[MAX_PACKET_SIZE] = 99;
    let mut out = vec![Bytes::from_static(b"before")];
    assert_eq!(datagrams(buffer, &[1203, 0, 5000], &mut out), 3);
    assert_eq!(out.len(), 4);
    assert_eq!(&out[0][..], b"before");
    assert_eq!(&out[1][..], &[0u8; 1203][..]);
    assert!(out[2].is_empty());
    assert_eq!(&out[3][..], &[2u8; 1232][..]);
}

#[test]
fn a_batch_is_no_larger_than_its_buffer() {
    let mut out = Vec::new();
    let mut buffer = BytesMut::zeroed(2 * MAX_PACKET_SIZE + 100);
    buffer[MAX_PACKET_SIZE] = 7;
    assert_eq!(datagrams(buffer, &[3, 2, 1], &mut out), 2);
    assert_eq!(&out[0][..], &[0, 0, 0]);
    assert_eq!(&out[1][..], &[7, 0]);
    assert_eq!(datagrams(BytesMut::new(), &[3], &mut out), 0);
    assert_eq!(out.len(), 2);
}

#[test]
fn every_datagram_of_a_batch_is_delivered_or_counted() {
    let mut intake = Intake::new();
    assert_eq!(intake.next(Event::Polled { stop: false }), Action::Receive);
    assert_eq!(intake.next(Event::Received { datagrams: 3 }), Action::Send);
    assert_eq!(intake.next(Event::Delivered), Action::Send);
    assert_eq!(intake.next(Event::Full), Action::Send);
    assert_eq!(intake.next(Event::Full), Action::Poll);
    assert_eq!(intake.dropped, 2);
    assert_eq!(intake.pending, 0);
    assert_eq!(intake.next(Event::Polled { stop: true }), Action::Stop);
}

#[test]
fn quiet_ports_and_failures_go_back_to_polling() {
    let mut intake = Intake::new();
    assert_eq!(intake.next(Event::Received { datagrams: 0 }), Action::Poll);
    assert_eq!(intake.next(Event::Failed), Action::Poll);
    assert_eq!(intake, Intake::new());
}

#[test]
fn a_worker_that_is_gone_ends_a_batch() {
    let mut intake = Intake::new();
    assert_eq!(intake.next(Event::Received { datagrams: 5 }), Action::Send);
    assert_eq!(intake.next(Event::Disconnected), Action::Stop);
    assert_eq!(intake.dropped, 0);
}

#[test]
fn stats_lines_are_due_every_so_many_seconds() {
    let mut ticker = Ticker::new();
    for _ in 0..3 {
        for _ in 0..9 {
            assert!(!ticker.tick(2));
        }
        assert!(ticker.tick(2));
        assert_eq!(ticker, Ticker::new());
    }
    let mut never = Ticker::new();
    for _ in 0..1000 {
        assert!(!never.tick(0));
    }
    assert_eq!(never.elapsed_ms, 200_000);
    assert!(never.tick(1));
}
