use nf_feed::protocol::moldudp64::{encode_request, Parsed, REQUEST_LEN};
use nf_feed::protocol::packet::validate_frame;
use nf_feed::recovery::channel::CmdPayload;
use nf_feed::recovery::client::{RecoveryClient, FEED_R};
use nf_feed::recovery::retry::{RetryDecision, RetryTracker};
use nf_feed::recovery::types::{ClientState, RecoveryCounters, STATUS_CONNECTED};
use nf_feed::arbitrator::types::RecoveryIntent;
use nf_feed::testkit::fakeserver::{
    pack_response_packets, request_fits_exec, serve_request, FaultMode, SessionTruth,
};

/// `n` messages of type 'S' (12 bytes) whose bytes after the type encode their index.
fn gt_of(n: usize) -> Vec<u8> {
    let mut gt = Vec::new();
    for i in 0..n {
        gt.extend_from_slice(&12u16.to_be_bytes());
        let mut m = [0u8; 12];
        m[0] = b'S';
        m[1..9].copy_from_slice(&(i as u64).to_be_bytes());
        gt.extend_from_slice(&m);
    }
    gt
}

fn truth() -> SessionTruth {
    SessionTruth { session_id: *b"FAKESESS01", first_seq: 1, first_msg_index: 0, total_msgs: 500 }
}

fn request(session: &[u8; 10], from: u64, count: u16) -> [u8; REQUEST_LEN] {
    let mut r = [0u8; REQUEST_LEN];
    encode_request(session, from, count, &mut r);
    r
}

fn msg_index(data: &[u8]) -> u64 {
    u64::from_be_bytes(data[1..9].try_into().unwrap())
}

#[test]
fn packs_requested_range_within_mtu() {
    let gt = gt_of(500);
    let t = truth();
    let pkts = pack_response_packets(&gt, &t.session_id, &t, 11, 200);
    // 14-byte blocks: (1400 - 20) / 14 = 98 per packet.
    assert_eq!(pkts.len(), 3);
    let mut next = 11u64;
    for p in &pkts {
        assert!(p.len() <= 1400);
        match validate_frame(p).unwrap() {
            Parsed::Data { header, mut blocks } => {
                assert_eq!(header.session, *b"FAKESESS01");
                assert_eq!(header.seq, next);
                while let Some(b) = blocks.next() {
                    assert_eq!(msg_index(b.data), next - 1);
                    next += 1;
                }
            }
            _ => panic!("data expected"),
        }
    }
    assert_eq!(next, 211);
    assert!(pack_response_packets(&gt, &t.session_id, &t, 11, 0).is_empty());
    // Past the end of the ground truth nothing is served.
    assert!(pack_response_packets(&gt, &t.session_id, &t, 600, 5).is_empty());
    // A range that runs off the end is cut short.
    let tail = pack_response_packets(&gt, &t.session_id, &t, 498, 10);
    assert_eq!(tail.len(), 1);
    assert_eq!(u16::from_be_bytes([tail[0][18], tail[0][19]]), 3);
}

#[test]
fn serves_each_fault_mode() {
    let gt = gt_of(500);
    let sessions = vec![truth()];
    let sess = *b"FAKESESS01";
    let req = request(&sess, 10, 5);
    assert!(request_fits_exec(&sessions, &req));

    let ok = serve_request(&gt, &sessions, FaultMode::NoFault, 1, &req);
    assert_eq!(ok.packets.len(), 1);
    assert_eq!(ok.faults, 0);

    let dropped = serve_request(&gt, &sessions, FaultMode::DropRequest(1), 1, &req);
    assert!(dropped.packets.is_empty());
    assert_eq!(dropped.faults, 1);
    let kept = serve_request(&gt, &sessions, FaultMode::DropRequest(1), 2, &req);
    assert_eq!(kept.packets.len(), 1);

    let unknown = serve_request(&gt, &sessions, FaultMode::NoFault, 1, &request(b"OTHERSESS1", 10, 5));
    assert!(unknown.packets.is_empty());
    assert_eq!(unknown.faults, 1);

    let truncated = serve_request(&gt, &sessions, FaultMode::TruncateAfter(2), 1, &req);
    assert_eq!(u16::from_be_bytes([truncated.packets[0][18], truncated.packets[0][19]]), 2);
    assert_eq!(truncated.faults, 1);

    let wrong = serve_request(&gt, &sessions, FaultMode::WrongSession, 1, &req);
    assert_eq!(&wrong.packets[0][0..10], b"WRONGSESS1");
    assert_eq!(wrong.faults, 1);

    let dup = serve_request(&gt, &sessions, FaultMode::DuplicateFirst, 1, &req);
    assert_eq!(dup.packets.len(), 2);
    assert_eq!(dup.packets[0], dup.packets[1]);
    assert_eq!(dup.faults, 1);

    let big = request(&sess, 1, 300);
    let all = serve_request(&gt, &sessions, FaultMode::NoFault, 1, &big);
    let lost = serve_request(&gt, &sessions, FaultMode::DropResponse(2), 1, &big);
    assert_eq!(all.packets.len(), 4);
    assert_eq!(lost.packets.len(), 3);
    assert_eq!(lost.packets[0], all.packets[0]);
    assert_eq!(lost.packets[1], all.packets[2]);
    assert_eq!(lost.faults, 1);

    let unbound = serve_request(&gt, &sessions, FaultMode::Unbound, 1, &req);
    assert_eq!(unbound.packets, ok.packets);
    let delayed = serve_request(&gt, &sessions, FaultMode::DelayMs(5), 1, &req);
    assert_eq!(delayed.packets, ok.packets);
}

#[test]
fn oversized_request_ranges_are_detected() {
    let sessions = vec![truth()];
    assert!(!request_fits_exec(&sessions, &request(b"FAKESESS01", u64::MAX - 2, 5)));
    assert!(request_fits_exec(&sessions, &request(b"OTHERSESS1", u64::MAX - 2, 5)));
}

#[test]
fn client_records_sends_and_receives() {
    let mut c = RecoveryClient::with_socket([127, 0, 0, 1], 9000, Some(7));
    assert_eq!(c.state(), ClientState::Connected);
    assert_eq!(c.port(), 9000);
    let req = c.request_frame(b"NFTESTSESS", 990, 20).unwrap();
    assert_eq!(&req[0..10], b"NFTESTSESS");
    assert_eq!(u64::from_be_bytes(req[10..18].try_into().unwrap()), 990);
    c.record_send(20);
    c.record_send(-1);
    assert_eq!(c.record_recv(100), Some(100));
    assert_eq!(c.record_recv(0), None);
    assert_eq!(c.counters().requests_sent, 1);
    assert_eq!(c.counters().socket_errors, 1);
    assert_eq!(c.counters().packets_received, 1);
    c.poll();
    assert_eq!(c.disconnect(), Some(7));
    assert_eq!(c.state(), ClientState::Disconnected);
    assert!(c.request_frame(b"NFTESTSESS", 1, 1).is_none());

    let none = RecoveryClient::with_socket([127, 0, 0, 1], 9000, None);
    assert_eq!(none.state(), ClientState::Disconnected);
    assert_eq!(FEED_R, 2);
    assert_eq!(STATUS_CONNECTED, 2);
    assert_eq!(RecoveryCounters::default().socket_errors, 0);
}

#[test]
fn command_payloads() {
    let p = CmdPayload::publish(RecoveryIntent { from: 5, to_excl: 9 }, *b"NFTESTSESS");
    assert!(p.valid);
    let c = CmdPayload::cleared(*b"NEWSESS002");
    assert!(!c.valid);
    assert_eq!(c.intent, RecoveryIntent { from: 0, to_excl: 0 });
    assert_eq!(CmdPayload::default().session, [0u8; 10]);
}

#[test]
fn retries_of_one_range_are_exhausted_on_the_fourth() {
    let mut t = RetryTracker::new();
    let a = RecoveryIntent { from: 5, to_excl: 9 };
    assert_eq!(t.on_intent(a), RetryDecision::Publish);
    assert_eq!(t.on_intent(a), RetryDecision::Publish);
    assert_eq!(t.on_intent(a), RetryDecision::Publish);
    assert_eq!(t.on_intent(a), RetryDecision::Publish);
    assert_eq!(t.on_intent(a), RetryDecision::Exhausted);
    let mut t = RetryTracker::default();
    assert_eq!(t.on_intent(a), RetryDecision::Publish);
    assert_eq!(t.on_intent(RecoveryIntent { from: 5, to_excl: 12 }), RetryDecision::Publish);
    assert_eq!(t.retry_count, 0);
}
