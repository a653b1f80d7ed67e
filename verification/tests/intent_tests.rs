use nf_feed::arbitrator::{Event, LiveFeedProof, Sequencer, Sink};

#[derive(Default)]
struct CountingSink {
    msgs: u64,
}

impl Sink for CountingSink {
    fn on_msg(&mut self, _proof: &LiveFeedProof, _seq: u64, _msg: &[u8]) {
        self.msgs += 1;
    }

    fn on_event(&mut self, _ev: &Event) {}
}

fn msg(seq: u64) -> Vec<u8> {
    let mut data = vec![b'S', 0, 0, 0, 0, 0, 0, 0, 0, 0, 0, b'O'];
    data[1..9].copy_from_slice(&seq.to_be_bytes());
    data
}

fn data_frame(session: &[u8; 10], first: u64, count: u16) -> Vec<u8> {
    let mut frame = Vec::new();
    frame.extend_from_slice(session);
    frame.extend_from_slice(&first.to_be_bytes());
    frame.extend_from_slice(&count.to_be_bytes());
    for s in first..first + count as u64 {
        let m = msg(s);
        frame.extend_from_slice(&(m.len() as u16).to_be_bytes());
        frame.extend_from_slice(&m);
    }
    frame
}

fn heartbeat_frame(session: &[u8; 10], next: u64) -> Vec<u8> {
    let mut frame = Vec::new();
    frame.extend_from_slice(session);
    frame.extend_from_slice(&next.to_be_bytes());
    frame.extend_from_slice(&0u16.to_be_bytes());
    frame
}

#[test]
fn test_intent_clamped_to_one_wire_request() {
    let mut seq = Sequencer::new();
    let mut sink = CountingSink::default();
    let sess = b"INTENTSES1";
    seq.ingest(&data_frame(sess, 1, 1), 0, 0, &mut sink);
    seq.ingest(&heartbeat_frame(sess, 200_001), 1, 0, &mut sink);
    let intent = seq.recovery_intent(300_000).unwrap();
    assert_eq!(intent.from, 2);
    assert_eq!(intent.to_excl, 65_537);
    assert_eq!(intent.to_excl - intent.from, 65_535);
}

#[test]
fn test_intents_stay_sound_along_a_lossy_run() {
    let mut seq = Sequencer::new();
    let mut sink = CountingSink::default();
    let sess = b"INTENTSES2";
    let mut now = 0u64;
    let mut issued = 0u32;
    // Frames of 4 messages each; every third frame is lost on the first pass and the
    // frames arrive pairwise swapped, with a heartbeat far ahead now and then.
    let mut order: Vec<u64> = Vec::new();
    for k in 0..300u64 {
        let j = if k % 2 == 0 { k + 1 } else { k - 1 };
        if j % 3 != 1 {
            order.push(j);
        }
    }
    for (i, k) in order.iter().enumerate() {
        now += 40_000;
        seq.ingest(&data_frame(sess, 1 + 4 * k, 4), (i % 2) as u8, now, &mut sink);
        if i % 37 == 0 {
            seq.ingest(&heartbeat_frame(sess, 1 + 4 * k + 90_000), 0, now, &mut sink);
        }
        if let Some(intent) = seq.recovery_intent(now) {
            issued += 1;
            assert_eq!(intent.from, seq.watermark());
            assert!(intent.to_excl > intent.from);
            assert!(intent.to_excl - intent.from <= 65_535);
        }
    }
    assert!(issued > 0);
}
