use nf_feed::testkit::oracle::{differential_verdict, Divergence};
use nf_feed::testkit::reference::ReferenceArbitrator;

#[test]
fn verdict_passes_an_agreeing_run() {
    assert_eq!(differential_verdict(11, 11, 10, 10, 0xAB, 0xAB, 10, 0xAB), Ok((11, 11, 10, 0xAB)));
    // An incomplete run is not held to the golden hash.
    assert_eq!(differential_verdict(6, 6, 5, 5, 0xAB, 0xAB, 10, 0xCD), Ok((6, 6, 5, 0xAB)));
}

#[test]
fn verdict_names_the_first_divergence() {
    assert_eq!(
        differential_verdict(11, 12, 10, 9, 1, 2, 10, 3),
        Err(Divergence::Watermark { seq: 11, reference: 12 })
    );
    assert_eq!(differential_verdict(11, 11, 10, 9, 1, 2, 10, 3), Err(Divergence::Count { seq: 10, reference: 9 }));
    assert_eq!(differential_verdict(11, 11, 10, 10, 1, 2, 10, 3), Err(Divergence::Hash { seq: 1, reference: 2 }));
    assert_eq!(
        differential_verdict(11, 11, 10, 10, 1, 1, 10, 3),
        Err(Divergence::GoldenHash { seq: 1, golden: 3 })
    );
}

fn frame(session: &[u8; 10], first: u64, count: u16) -> Vec<u8> {
    let mut f = session.to_vec();
    f.extend_from_slice(&first.to_be_bytes());
    f.extend_from_slice(&count.to_be_bytes());
    for s in 0..count as u64 {
        let mut msg = vec![b'S', 0, 0, 0, 0, 0, 0, 0, 0, 0, 0, b'O'];
        msg[1..9].copy_from_slice(&(first + s).to_be_bytes());
        f.extend_from_slice(&(msg.len() as u16).to_be_bytes());
        f.extend_from_slice(&msg);
    }
    f
}

#[test]
fn runs_fit_unless_a_run_reaches_the_last_number() {
    let mut arb = ReferenceArbitrator::new();
    arb.ingest_packet(&frame(b"FITSESSION", 1, 5));
    assert!(arb.runs_fit());
    let (_, wm, _, emitted) = arb.evaluate_all_sessions();
    assert_eq!(wm, 6);
    assert_eq!(emitted.len(), 5);

    let mut arb = ReferenceArbitrator::new();
    arb.ingest_packet(&frame(b"TOPSESSION", u64::MAX - 2, 3));
    assert!(!arb.runs_fit());

    let mut arb = ReferenceArbitrator::new();
    arb.ingest_packet(&frame(b"TOPSESSION", u64::MAX - 2, 2));
    assert!(arb.runs_fit());
}
