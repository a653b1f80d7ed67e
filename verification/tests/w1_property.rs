use nf_feed::arbitrator::Sequencer;
use nf_feed::testkit::sched::SplitMix64;
use nf_feed::testkit::sink::HashSink;

#[test]
fn test_u5_w1_property_1m_ops() {
    let mut prng = SplitMix64::new(0x1234_5678_9ABC_DEF0);
    let mut seq = Sequencer::new();
    let mut sink = HashSink::new();
    let session = b"PROPSESS01";

    // Anchor at seq 1
    let mut anchor_frame = Vec::new();
    anchor_frame.extend_from_slice(session);
    anchor_frame.extend_from_slice(&1u64.to_be_bytes());
    anchor_frame.extend_from_slice(&1u16.to_be_bytes());
    let msg = [b'S', 0, 0, 0, 0, 0, 0, 0, 0, 0, 0, b'O'];
    anchor_frame.extend_from_slice(&(msg.len() as u16).to_be_bytes());
    anchor_frame.extend_from_slice(&msg);
    seq.ingest(&anchor_frame, 0, 1000, &mut sink);

    for step in 0..1_000_000 {
        let op_type = prng.next_u64() % 3;
        let current_w = seq.watermark();

        let (target_seq, count) = match op_type {
            // In-order / near-W advance
            0 => {
                let count = ((prng.next_u64() % 10) + 1) as u16;
                (current_w, count)
            }
            // Partial overlap
            1 => {
                let offset = prng.next_u64() % 5;
                let first = current_w.saturating_sub(offset).max(1);
                let count = ((prng.next_u64() % 15) + 1) as u16;
                (first, count)
            }
            // Ahead of W (gap) within window
            _ => {
                let ahead = (prng.next_u64() % 500) + 1;
                let first = current_w + ahead;
                let count = ((prng.next_u64() % 20) + 1) as u16;
                (first, count)
            }
        };

        let mut frame = Vec::new();
        frame.extend_from_slice(session);
        frame.extend_from_slice(&target_seq.to_be_bytes());
        frame.extend_from_slice(&count.to_be_bytes());
        for _ in 0..count {
            frame.extend_from_slice(&(msg.len() as u16).to_be_bytes());
            frame.extend_from_slice(&msg);
        }

        let feed = (prng.next_u64() % 2) as u8;
        seq.ingest(&frame, feed, 1000 + step, &mut sink);

        // Invariant verification at quiescent point
        let nonzero_lens = seq.lens().iter().filter(|&&l| l != 0).count() as u32;
        assert_eq!(
            seq.staged_count(),
            nonzero_lens,
            "W1 violation at step {}: staged_count {} != nonzero lens {}",
            step,
            seq.staged_count(),
            nonzero_lens
        );
    }
}
