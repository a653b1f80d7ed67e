use nf_feed::arbitrator::{Event, LiveFeedProof, Sequencer, SequencerMutation, Sink};

#[derive(Default)]
struct RecordingSink {
    msgs: Vec<(u64, Vec<u8>)>,
    boundaries: usize,
}

impl Sink for RecordingSink {
    fn on_msg(&mut self, _proof: &LiveFeedProof, seq: u64, msg: &[u8]) {
        self.msgs.push((seq, msg.to_vec()));
    }

    fn on_event(&mut self, ev: &Event) {
        if let Event::SessionBoundary { .. } = ev {
            self.boundaries += 1;
        }
    }
}

/// The true payload of message `seq` of a session tagged `tag`: a 12-byte system event
/// that spells out both.
fn truth(tag: u8, seq: u64) -> Vec<u8> {
    let mut data = vec![b'S', 0, 0, 0, 0, 0, 0, 0, 0, 0, tag, b'O'];
    data[1..9].copy_from_slice(&seq.to_be_bytes());
    data
}

fn data_frame(session: &[u8; 10], tag: u8, first: u64, count: u16) -> Vec<u8> {
    let mut frame = Vec::new();
    frame.extend_from_slice(session);
    frame.extend_from_slice(&first.to_be_bytes());
    frame.extend_from_slice(&count.to_be_bytes());
    for s in first..first + count as u64 {
        let msg = truth(tag, s);
        frame.extend_from_slice(&(msg.len() as u16).to_be_bytes());
        frame.extend_from_slice(&msg);
    }
    frame
}

/// A deterministic shuffle of `0..n` by a linear congruential walk.
fn shuffled(n: usize, mut state: u64) -> Vec<usize> {
    let mut order: Vec<usize> = (0..n).collect();
    for i in (1..n).rev() {
        state = state.wrapping_mul(6364136223846793005).wrapping_add(1442695040888963407);
        let j = (state >> 33) as usize % (i + 1);
        order.swap(i, j);
    }
    order
}

#[test]
fn test_fidelity_under_reorder_loss_and_duplication() {
    let sess = b"TRUTHSESS1";
    let mut frames = Vec::new();
    let mut first = 1u64;
    let mut k = 0u16;
    while first <= 3000 {
        let count = 1 + (k % 7);
        let count = if first + count as u64 - 1 > 3000 { (3001 - first) as u16 } else { count };
        frames.push(data_frame(sess, 7, first, count));
        first += count as u64;
        k += 1;
    }

    let mut seq = Sequencer::new();
    let mut sink = RecordingSink::default();
    // The first frame anchors the session; the rest arrive shuffled within blocks of 40
    // frames; feed A loses every fifth frame, feed B every seventh one that A carried, and
    // every other frame comes twice.
    seq.ingest(&frames[0], 0, 1, &mut sink);
    let mut now = 2u64;
    for chunk_start in (1..frames.len()).step_by(40) {
        let chunk_end = (chunk_start + 40).min(frames.len());
        let order = shuffled(chunk_end - chunk_start, chunk_start as u64);
        for &i in order.iter() {
            let idx = chunk_start + i;
            if idx % 5 != 0 {
                seq.ingest(&frames[idx], 0, now, &mut sink);
            }
            now += 1;
            if idx % 7 != 0 || idx % 5 == 0 {
                seq.ingest(&frames[idx], 1, now, &mut sink);
            }
            now += 1;
        }
    }

    assert_eq!(seq.watermark(), 3001);
    assert_eq!(sink.msgs.len(), 3000);
    for (i, (s, data)) in sink.msgs.iter().enumerate() {
        assert_eq!(*s, i as u64 + 1);
        assert_eq!(*data, truth(7, *s));
    }
}

#[test]
fn test_fidelity_across_session_boundary() {
    let a = b"SESSIONAAA";
    let b = b"SESSIONBBB";
    let mut seq = Sequencer::new();
    let mut sink = RecordingSink::default();

    seq.ingest(&data_frame(a, 1, 1, 5), 0, 1, &mut sink);
    // Session A leaves 8..=12 staged behind a gap at 6.
    seq.ingest(&data_frame(a, 1, 8, 5), 0, 2, &mut sink);
    assert_eq!(seq.staged_count(), 5);

    // Session B starts over at 1: A's staged messages must never surface as B's.
    seq.ingest(&data_frame(b, 2, 1, 3), 1, 3, &mut sink);
    seq.ingest(&data_frame(b, 2, 4, 12), 1, 4, &mut sink);

    assert_eq!(sink.boundaries, 1);
    assert_eq!(seq.watermark(), 16);
    assert_eq!(sink.msgs.len(), 5 + 15);
    for (i, (s, data)) in sink.msgs.iter().enumerate() {
        if i < 5 {
            assert_eq!(*data, truth(1, *s));
        } else {
            assert_eq!(*s, (i - 5) as u64 + 1);
            assert_eq!(*data, truth(2, *s));
        }
    }
}

#[test]
fn test_fidelity_needs_clear_on_advance() {
    // Without clearing the slots the watermark passes, a message staged a window
    // earlier resurfaces under a later number.
    let sess = b"ZOMBIESESS";
    let mut seq = Sequencer::with_mutation(SequencerMutation::DisableClearOnAdvance);
    let mut sink = RecordingSink::default();

    seq.ingest(&data_frame(sess, 3, 1, 1), 0, 1, &mut sink);
    seq.ingest(&data_frame(sess, 3, 10, 1), 0, 2, &mut sink);
    // An in-order frame carries the watermark past 10 without draining the slot.
    seq.ingest(&data_frame(sess, 3, 2, 20), 0, 3, &mut sink);
    // The watermark wraps around the window to the stale slot of 10.
    let mut first = 22u64;
    while first < 1034 {
        let count = (1034 - first).min(50) as u16;
        seq.ingest(&data_frame(sess, 3, first, count), 0, 4, &mut sink);
        first += count as u64;
    }
    seq.ingest(&data_frame(sess, 3, 1035, 1), 0, 5, &mut sink);

    let stale = sink.msgs.iter().find(|(s, _)| *s == 1034).expect("1034 emitted");
    assert_ne!(stale.1, truth(3, 1034));
    assert_eq!(stale.1, truth(3, 10));
}
