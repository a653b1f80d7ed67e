use nf_feed::arbitrator::Sequencer;
use nf_feed::testkit::sink::ConformanceSink;

fn msg(seq: u64) -> Vec<u8> {
    let mut data = vec![b'S', 0, 0, 0, 0, 0, 0, 0, 0, 0, 0, b'O'];
    data[1..9].copy_from_slice(&seq.to_be_bytes());
    data
}

fn data_frame(session: &[u8; 10], first: u64, count: u16) -> Vec<u8> {
    let mut frame = Vec::new();
    frame.extend_from_slice(session);
    frame.extend_from_slice(&first.to_be_bytes());
    frame.extend_from_slice(&count.to_be_bytes());
    for s in first..first + count as u64 {
        let m = msg(s);
        frame.extend_from_slice(&(m.len() as u16).to_be_bytes());
        frame.extend_from_slice(&m);
    }
    frame
}

#[test]
fn stream_stays_conforming_at_high_sequence_numbers() {
    let base = 0xFFFF_FFF0_0000_0000u64;
    let mut seq = Sequencer::new();
    let mut sink = ConformanceSink::new();
    let sess = b"HIGHSEQSES";
    // Anchor, then frames arriving pairwise swapped.
    seq.ingest(&data_frame(sess, base, 5), 0, 0, &mut sink);
    for k in 0..40u64 {
        let j = if k % 2 == 0 { k + 1 } else { k - 1 };
        seq.ingest(&data_frame(sess, base + 5 + 5 * j, 5), (k % 2) as u8, 10 * k, &mut sink);
    }
    assert_eq!(seq.watermark(), base + 5 + 5 * 40);
    assert_eq!(sink.count(), 5 + 5 * 40);
    assert_eq!(sink.violations, 0);
}

#[test]
fn gap_frame_with_trailing_bytes_keeps_the_stream_conforming() {
    let mut seq = Sequencer::new();
    let mut sink = ConformanceSink::new();
    let sess = b"DIRTYGAPSS";
    seq.ingest(&data_frame(sess, 1, 3), 0, 0, &mut sink);
    let mut dirty = data_frame(sess, 10, 3);
    dirty.extend_from_slice(&[0xAB, 0xCD]);
    seq.ingest(&dirty, 1, 10, &mut sink);
    assert_eq!(seq.counters().violations.trailing_bytes, 1);
    seq.ingest(&data_frame(sess, 4, 6), 0, 20, &mut sink);
    assert_eq!(seq.watermark(), 13);
    assert_eq!(sink.count(), 12);
    assert_eq!(sink.violations, 0);
}

#[test]
fn zero_length_block_is_a_zero_length_framing_error() {
    let mut seq = Sequencer::new();
    let mut sink = ConformanceSink::new();
    let sess = b"ZEROLENSES";
    seq.ingest(&data_frame(sess, 1, 2), 0, 0, &mut sink);
    let mut frame = Vec::new();
    frame.extend_from_slice(sess);
    frame.extend_from_slice(&3u64.to_be_bytes());
    frame.extend_from_slice(&1u16.to_be_bytes());
    frame.extend_from_slice(&0u16.to_be_bytes());
    seq.ingest(&frame, 0, 10, &mut sink);
    assert_eq!(seq.counters().violations.zero_length_message, 1);
    assert_eq!(seq.counters().violations.payload_invalid, 0);
    assert_eq!(seq.watermark(), 3);
}

#[derive(Default)]
struct GenSink {
    gens: Vec<u64>,
}

impl nf_feed::arbitrator::Sink for GenSink {
    fn on_msg(&mut self, proof: &nf_feed::arbitrator::LiveFeedProof, _seq: u64, _msg: &[u8]) {
        self.gens.push(proof.gen());
    }

    fn on_event(&mut self, _ev: &nf_feed::arbitrator::Event) {}
}

#[test]
fn every_message_carries_the_generation_after_its_frame() {
    let mut seq = Sequencer::new();
    let sess = b"GENLAWSESS";
    let frames = [(1u64, 3u16), (10, 2), (4, 6), (20, 1), (12, 8), (21, 4)];
    let mut last = 0u64;
    for (first, count) in frames {
        let mut sink = GenSink::default();
        seq.ingest(&data_frame(sess, first, count), 0, 0, &mut sink);
        for g in &sink.gens {
            assert_eq!(*g, seq.gen());
            assert!(*g >= last);
        }
        last = seq.gen();
    }
    assert!(seq.gen() >= 2);
    assert_eq!(seq.watermark(), 25);
}

#[test]
fn drain_near_the_top_of_the_sequence_range() {
    let top = u64::MAX - 2000;
    let mut seq = Sequencer::new();
    let mut sink = ConformanceSink::new();
    let sess = b"TOPRANGESS";
    seq.ingest(&data_frame(sess, top - 5, 2), 0, 0, &mut sink);
    assert_eq!(seq.watermark(), top - 3);
    seq.ingest(&data_frame(sess, top - 1, 1), 1, 10, &mut sink);
    assert_eq!(seq.staged_count(), 1);
    seq.ingest(&data_frame(sess, top - 3, 2), 0, 20, &mut sink);
    assert_eq!(seq.watermark(), top);
    assert_eq!(seq.staged_count(), 0);
    assert_eq!(sink.count(), 5);
}
