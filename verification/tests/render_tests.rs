use nf_feed::arbitrator::Sequencer;
use nf_feed::protocol::itch5::msg_len;
use nf_feed::protocol::moldudp64::Parsed;
use nf_feed::protocol::packet::validate_frame;
use nf_feed::testkit::sched::{build_schedule, DelayModel, LossModel, Packetize, ReplayConfig, SplitMix64};
use nf_feed::testkit::sink::HashSink;
use nf_feed::transport::render::{render_event_standalone, Cursor, ReplayTransport};
use nf_feed::transport::sched_types::{ReplaySchedule, SchedEvent, SchedKind};
use nf_feed::transport::{FrameBatch, Transport};

fn synthetic_gt(n: usize) -> Vec<u8> {
    let types = [b'S', b'D', b'X', b'E'];
    let mut gt = Vec::new();
    for i in 0..n {
        let t = types[i % types.len()];
        let len = msg_len(t).unwrap() as usize;
        gt.extend_from_slice(&(len as u16).to_be_bytes());
        let mut msg = vec![0u8; len];
        msg[0] = t;
        for (k, b) in msg.iter_mut().enumerate().skip(1) {
            *b = ((i * 17 + k * 3) % 253) as u8;
        }
        gt.extend_from_slice(&msg);
    }
    gt
}

fn gaussian_delay(mean_ns: i64, sigma_ns: u64, state: u64) -> i64 {
    let mut prng = SplitMix64::new(state);
    let mut sum = 0.0f64;
    for _ in 0..12 {
        sum += (prng.next_u64() >> 11) as f64 * (1.0 / ((1u64 << 53) as f64));
    }
    (mean_ns as f64 + (sum - 6.0) * (sigma_ns as f64)).round() as i64
}

fn chaos_config() -> ReplayConfig {
    let mut cfg = ReplayConfig::default();
    cfg.msgs_per_packet = Packetize::MtuBound(1400);
    cfg.loss = [LossModel::Bernoulli { p_pm: 80 }, LossModel::Bernoulli { p_pm: 80 }];
    cfg.delay = [
        DelayModel::GaussianApprox { mean_ns: 25_000, sigma_ns: 5_000 },
        DelayModel::GaussianApprox { mean_ns: 25_000, sigma_ns: 5_000 },
    ];
    cfg
}

#[test]
fn indexed_ingest_matches_walked_ingest() {
    let gt = synthetic_gt(4000);
    let sched = build_schedule(&gt, &chaos_config(), gaussian_delay);

    let mut walked = Sequencer::new();
    let mut walked_sink = HashSink::new();
    let mut t1 = ReplayTransport::new(&gt, sched.clone(), *b"INDEXSESS1");
    let mut batch = FrameBatch::new();
    while t1.poll(&mut batch) > 0 {
        let now = t1.now_ns();
        for frame in batch.frames() {
            walked.ingest(t1.frame_bytes(frame), frame.feed, now, &mut walked_sink);
        }
    }

    let mut indexed = Sequencer::new();
    let mut indexed_sink = HashSink::new();
    let mut t2 = ReplayTransport::new(&gt, sched, *b"INDEXSESS1");
    let mut frames = 0;
    while t2.poll(&mut batch) > 0 {
        let now = t2.now_ns();
        for (pos, frame) in batch.frames().iter().enumerate() {
            frames += 1;
            let blocks = t2.batch_blocks(pos);
            indexed.ingest_auto(t2.frame_bytes(frame), frame.feed, now, &mut indexed_sink, blocks);
        }
    }
    assert!(frames > 0);
    assert_eq!(indexed_sink.hash, walked_sink.hash);
    assert_eq!(indexed_sink.count, 4000);
    assert_eq!(indexed.watermark(), walked.watermark());
    assert_eq!(indexed.counters(), walked.counters());
}

#[test]
fn reset_replays_under_a_new_session() {
    let gt = synthetic_gt(300);
    let mut cfg = ReplayConfig::default();
    cfg.feeds_enabled = 1;
    let sched = build_schedule(&gt, &cfg, gaussian_delay);
    let mut t = ReplayTransport::new(&gt, sched, *b"FIRSTSESS1");
    let mut batch = FrameBatch::new();
    let mut first_pass = 0;
    while t.poll(&mut batch) > 0 {
        for frame in batch.frames() {
            assert_eq!(&t.frame_bytes(frame)[0..10], b"FIRSTSESS1");
            first_pass += 1;
        }
    }
    t.reset(*b"SECONDSES2");
    let mut second_pass = 0;
    while t.poll(&mut batch) > 0 {
        for frame in batch.frames() {
            assert_eq!(&t.frame_bytes(frame)[0..10], b"SECONDSES2");
            second_pass += 1;
        }
    }
    assert_eq!(first_pass, second_pass);
}

#[test]
fn session_split_frames_carry_the_second_session() {
    let gt = synthetic_gt(300);
    let mut cfg = ReplayConfig::default();
    cfg.feeds_enabled = 1;
    cfg.session_change_at_msg = Some(100);
    let sched = build_schedule(&gt, &cfg, gaussian_delay);
    let mut t = ReplayTransport::new(&gt, sched, *b"LIVESESS01");
    let mut batch = FrameBatch::new();
    let (mut before, mut after) = (0, 0);
    while t.poll(&mut batch) > 0 {
        for frame in batch.frames() {
            let bytes = t.frame_bytes(frame);
            match validate_frame(bytes).unwrap() {
                Parsed::Data { header, .. } => {
                    if &header.session == b"LIVESESS01" {
                        before += 1;
                    } else {
                        assert_eq!(&header.session, b"SPLITSESS2");
                        after += 1;
                    }
                }
                Parsed::Heartbeat { header } | Parsed::EndOfSession { header } => {
                    assert_eq!(&header.session, b"SPLITSESS2");
                }
            }
        }
    }
    assert_eq!(before, 10);
    assert_eq!(after, 20);
}

#[test]
fn clamped_polls_hold_the_clock() {
    let gt = synthetic_gt(200);
    let mut cfg = ReplayConfig::default();
    cfg.feeds_enabled = 1;
    let sched = build_schedule(&gt, &cfg, gaussian_delay);
    let mut t = ReplayTransport::new(&gt, sched, *b"CLAMPSESS1");
    let mut batch = FrameBatch::new();
    // Packets of 10 messages are released 10_000 ns apart from 0.
    assert_eq!(t.poll_clamped(&mut batch, Some(25_000)), 1);
    assert_eq!(t.poll_clamped(&mut batch, Some(25_000)), 1);
    assert_eq!(t.poll_clamped(&mut batch, Some(25_000)), 1);
    assert_eq!(t.poll_clamped(&mut batch, Some(25_000)), 0);
    assert_eq!(t.now_ns(), 25_000);
    t.set_clock_clamp(Some(45_000));
    assert_eq!(t.poll(&mut batch), 1);
    assert_eq!(t.poll(&mut batch), 1);
    assert_eq!(t.poll(&mut batch), 0);
    t.set_clock_clamp(None);
    assert!(t.poll(&mut batch) > 0);
}

#[test]
fn standalone_render_and_cursor() {
    let gt = synthetic_gt(50);
    let sched = ReplaySchedule { events: Vec::new(), session_split: None };
    let mut slot = [0u8; 1500];
    let mut cursor = Cursor::default();
    let hb = SchedEvent { release_vt: 0, feed: 0, kind: SchedKind::Heartbeat { next_seq: 51 } };
    assert_eq!(render_event_standalone(&gt, &hb, &sched, *b"RENDERSES1", &mut slot, &mut cursor), Some(20));
    assert!(matches!(validate_frame(&slot[..20]).unwrap(), Parsed::Heartbeat { .. }));
    let pkt = SchedEvent { release_vt: 0, feed: 0, kind: SchedKind::Packet { first_seq: 11, first_msg: 10, count: 5 } };
    let n = render_event_standalone(&gt, &pkt, &sched, *b"RENDERSES1", &mut slot, &mut cursor).unwrap();
    match validate_frame(&slot[..n]).unwrap() {
        Parsed::Data { header, blocks } => {
            assert_eq!(header.seq, 11);
            assert_eq!(blocks.len(), 5);
        }
        _ => panic!("data expected"),
    }
    assert_eq!(cursor.msg_index, 15);
    let past = SchedEvent { release_vt: 0, feed: 0, kind: SchedKind::Packet { first_seq: 49, first_msg: 48, count: 5 } };
    assert_eq!(render_event_standalone(&gt, &past, &sched, *b"RENDERSES1", &mut slot, &mut cursor), None);
    let mut small = [0u8; 10];
    assert_eq!(render_event_standalone(&gt, &hb, &sched, *b"RENDERSES1", &mut small, &mut cursor), None);

    let mut c = Cursor::default();
    assert_eq!(c.seek_msg(&gt, 3), Some(14 + 21 + 25));
    assert_eq!(c.seek_msg(&gt, 1), Some(14));
    assert_eq!(c.seek_msg(&gt, 60), None);
}

/// The frame of `ev` built by hand from the stream: header, then the blocks of its
/// messages.
fn expected_frame(gt: &[u8], starts: &[usize], ev: &SchedEvent, session: &[u8; 10]) -> Vec<u8> {
    let mut f = session.to_vec();
    match ev.kind {
        SchedKind::Packet { first_seq, first_msg, count } => {
            f.extend_from_slice(&first_seq.to_be_bytes());
            f.extend_from_slice(&count.to_be_bytes());
            let a = starts[first_msg as usize];
            let b = starts[(first_msg + count as u64) as usize];
            f.extend_from_slice(&gt[a..b]);
        }
        SchedKind::Heartbeat { next_seq } => {
            f.extend_from_slice(&next_seq.to_be_bytes());
            f.extend_from_slice(&0u16.to_be_bytes());
        }
        SchedKind::EndOfSession { next_seq } => {
            f.extend_from_slice(&next_seq.to_be_bytes());
            f.extend_from_slice(&0xFFFFu16.to_be_bytes());
        }
    }
    f
}

#[test]
fn polled_frames_are_the_rendered_events() {
    let gt = synthetic_gt(2500);
    let mut starts = vec![0usize];
    while *starts.last().unwrap() < gt.len() {
        let p = *starts.last().unwrap();
        let len = u16::from_be_bytes([gt[p], gt[p + 1]]) as usize;
        starts.push(p + 2 + len);
    }
    let sched = build_schedule(&gt, &chaos_config(), gaussian_delay);
    let events = sched.events.clone();
    let mut t = ReplayTransport::new(&gt, sched, *b"RENDERSES1");
    let mut batch = FrameBatch::new();
    for session in [*b"RENDERSES1", *b"RENDERSES2"] {
        if session != *b"RENDERSES1" {
            t.reset(session);
        }
        let mut k = 0;
        while t.poll(&mut batch) > 0 {
            for frame in batch.frames() {
                let ev = &events[k];
                assert_eq!(frame.feed, ev.feed);
                assert_eq!(t.frame_bytes(frame), expected_frame(&gt, &starts, ev, &session).as_slice());
                k += 1;
            }
        }
        assert_eq!(k, events.len());
    }
}

#[test]
fn rendered_packets_walk_back_to_the_ground_truth() {
    let gt = synthetic_gt(600);
    // Offsets of every ground-truth message.
    let mut msgs: Vec<&[u8]> = Vec::new();
    let mut pos = 0usize;
    while pos + 2 <= gt.len() {
        let len = u16::from_be_bytes([gt[pos], gt[pos + 1]]) as usize;
        msgs.push(&gt[pos + 2..pos + 2 + len]);
        pos += 2 + len;
    }
    let sched = build_schedule(&gt, &chaos_config(), gaussian_delay);
    let mut transport = ReplayTransport::new(&gt, sched, *b"WALKBACKSS");
    let mut batch = FrameBatch::new();
    let mut packets = 0u32;
    while transport.poll(&mut batch) > 0 {
        for frame in batch.frames() {
            if let Ok(Parsed::Data { header, mut blocks }) = validate_frame(transport.frame_bytes(frame)) {
                let first_msg = (header.seq - 1) as usize;
                let mut k = 0usize;
                while let Some(b) = blocks.next() {
                    assert_eq!(b.data, msgs[first_msg + k]);
                    k += 1;
                }
                assert_eq!(k, header.count as usize);
                packets += 1;
            }
        }
    }
    assert!(packets > 0);
}

#[test]
fn storage_fits_small_schedules() {
    let gt = synthetic_gt(300);
    let sched = build_schedule(&gt, &chaos_config(), gaussian_delay);
    assert!(ReplayTransport::storage_fits(&gt, &sched, *b"FITSESSION"));
    let t = ReplayTransport::new(&gt, sched, *b"FITSESSION");
    let _ = t.now_ns();
}
