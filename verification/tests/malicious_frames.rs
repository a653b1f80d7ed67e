use nf_feed::arbitrator::Sequencer;
use nf_feed::testkit::sink::ConformanceSink;

#[test]
fn test_x6_malicious_frames() {
    let mut seq = Sequencer::new();
    let mut sink = ConformanceSink::new();

    // Oversize packet header length
    let mut corrupt_frame = vec![0u8; 100];
    corrupt_frame[0..10].copy_from_slice(b"MALICIOUS1");
    corrupt_frame[10..18].copy_from_slice(&1u64.to_be_bytes());
    corrupt_frame[18..20].copy_from_slice(&5u16.to_be_bytes()); // 5 messages
    corrupt_frame[20..22].copy_from_slice(&1500u16.to_be_bytes()); // msg length 1500 > buffer

    seq.ingest(&corrupt_frame, 0, 1000, &mut sink);
    assert!(seq.counters().total_violations > 0);
}
