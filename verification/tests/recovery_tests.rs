use nf_feed::arbitrator::types::RecoveryIntent;
use nf_feed::arbitrator::Sequencer;
use nf_feed::protocol::moldudp64::{encode_request, REQUEST_LEN};
use nf_feed::testkit::sink::ConformanceSink;

#[test]
fn test_r4_request_encode_from_intent() {
    let sess = *b"NFTESTSESS";
    let intent = RecoveryIntent { from: 990, to_excl: 1010 }; // count 20
    let count = std::cmp::min(intent.to_excl - intent.from, 65535) as u16;

    let mut req = [0u8; REQUEST_LEN];
    encode_request(&sess, intent.from, count, &mut req);

    let tv4_golden: [u8; 20] = [
        0x4E, 0x46, 0x54, 0x45, 0x53, 0x54, 0x53, 0x45, 0x53, 0x53,
        0x00, 0x00, 0x00, 0x00, 0x00, 0x00, 0x03, 0xDE,
        0x00, 0x14,
    ];
    assert_eq!(req, tv4_golden);
}

#[test]
fn test_r10_session_boundary_during_recovery() {
    let mut seq = Sequencer::new();
    let mut sink = ConformanceSink::new();
    let sess1 = *b"OLDSESS001";
    let sess2 = *b"NEWSESS002";

    // Stage a gap in sess1
    let mut f0 = Vec::new();
    f0.extend_from_slice(&sess1);
    f0.extend_from_slice(&1u64.to_be_bytes());
    f0.extend_from_slice(&1u16.to_be_bytes());
    f0.extend_from_slice(&12u16.to_be_bytes());
    f0.extend_from_slice(&[b'S', 0, 0, 0, 0, 0, 0, 0, 0, 0, 0, b'O']);
    seq.ingest(&f0, 0, 1000, &mut sink);

    let mut f1 = Vec::new();
    f1.extend_from_slice(&sess1);
    f1.extend_from_slice(&10u64.to_be_bytes());
    f1.extend_from_slice(&1u16.to_be_bytes());
    f1.extend_from_slice(&12u16.to_be_bytes());
    f1.extend_from_slice(&[b'S', 0, 0, 0, 0, 0, 0, 0, 0, 0, 0, b'O']);
    seq.ingest(&f1, 0, 2000, &mut sink);

    assert!(seq.recovery_intent(10_000_000).is_some());

    // Switch to sess2
    let mut f2 = Vec::new();
    f2.extend_from_slice(&sess2);
    f2.extend_from_slice(&1u64.to_be_bytes());
    f2.extend_from_slice(&1u16.to_be_bytes());
    f2.extend_from_slice(&12u16.to_be_bytes());
    f2.extend_from_slice(&[b'S', 0, 0, 0, 0, 0, 0, 0, 0, 0, 0, b'O']);
    seq.ingest(&f2, 0, 3000, &mut sink);

    // Old intent cleared
    assert_eq!(seq.session(), sess2);
    assert_eq!(seq.staged_count(), 0);
}

#[test]
fn test_r12_vt_grace_stepping() {
    let mut seq = Sequencer::new();
    let mut sink = ConformanceSink::new();
    let sess = *b"GRACESESS1";

    let mut f0 = Vec::new();
    f0.extend_from_slice(&sess);
    f0.extend_from_slice(&1u64.to_be_bytes());
    f0.extend_from_slice(&1u16.to_be_bytes());
    f0.extend_from_slice(&12u16.to_be_bytes());
    f0.extend_from_slice(&[b'S', 0, 0, 0, 0, 0, 0, 0, 0, 0, 0, b'O']);
    seq.ingest(&f0, 0, 1000, &mut sink);

    let mut f1 = Vec::new();
    f1.extend_from_slice(&sess);
    f1.extend_from_slice(&20u64.to_be_bytes());
    f1.extend_from_slice(&1u16.to_be_bytes());
    f1.extend_from_slice(&12u16.to_be_bytes());
    f1.extend_from_slice(&[b'S', 0, 0, 0, 0, 0, 0, 0, 0, 0, 0, b'O']);
    seq.ingest(&f1, 0, 2000, &mut sink);

    let grace_ns = 10_000_000u64;
    let mut vt = 1_000_000;
    let mut step_count = 0;

    for _ in 0..4 {
        if let Some(_intent) = seq.recovery_intent(vt) {
            step_count += 1;
        }
        vt += grace_ns;
    }

    assert_eq!(step_count, 4, "Exactly 4 grace steps before retry trip");
}

#[test]
fn test_r13_retry_counting_determinism() {
    let counts: Vec<u64> = (0..3)
        .map(|_| {
            let mut seq = Sequencer::new();
            let mut sink = ConformanceSink::new();
            let sess = *b"RETRYSESS1";

            let mut f0 = Vec::new();
            f0.extend_from_slice(&sess);
            f0.extend_from_slice(&1u64.to_be_bytes());
            f0.extend_from_slice(&1u16.to_be_bytes());
            f0.extend_from_slice(&12u16.to_be_bytes());
            f0.extend_from_slice(&[b'S', 0, 0, 0, 0, 0, 0, 0, 0, 0, 0, b'O']);
            seq.ingest(&f0, 0, 1000, &mut sink);

            let mut f1 = Vec::new();
            f1.extend_from_slice(&sess);
            f1.extend_from_slice(&10u64.to_be_bytes());
            f1.extend_from_slice(&1u16.to_be_bytes());
            f1.extend_from_slice(&12u16.to_be_bytes());
            f1.extend_from_slice(&[b'S', 0, 0, 0, 0, 0, 0, 0, 0, 0, 0, b'O']);
            seq.ingest(&f1, 0, 2000, &mut sink);

            let mut vt = 10_000_000;
            for _ in 0..4 {
                let _ = seq.recovery_intent(vt);
                vt += 10_000_000;
            }
            seq.counters().intents_issued
        })
        .collect();

    assert_eq!(counts[0], counts[1]);
    assert_eq!(counts[1], counts[2]);
}
