use nf_feed::arbitrator::Sequencer;
use nf_feed::protocol::itch5::msg_len;
use nf_feed::protocol::moldudp64::Parsed;
use nf_feed::protocol::packet::validate_frame;
use nf_feed::testkit::golden::golden;
use nf_feed::testkit::sched::{
    build_schedule, DelayModel, DropRange, LossModel, Packetize, ReplayConfig, SplitMix64,
};
use nf_feed::testkit::reference::ReferenceArbitrator;
use nf_feed::testkit::sink::{ConformanceSink, HashSink};
use nf_feed::transport::replay::{ReplayTransport, SchedKind};
use nf_feed::transport::{FrameBatch, Transport};

/// A ground-truth stream of `n` valid ITCH messages, `[u16 BE len][msg]` each.
fn synthetic_gt(n: usize) -> Vec<u8> {
    let types = [b'S', b'D', b'X', b'E', b'S', b'D', b'A', b'B'];
    let mut gt = Vec::new();
    for i in 0..n {
        let t = types[i % types.len()];
        let len = msg_len(t).unwrap() as usize;
        gt.extend_from_slice(&(len as u16).to_be_bytes());
        let mut msg = vec![0u8; len];
        msg[0] = t;
        for (k, b) in msg.iter_mut().enumerate().skip(1) {
            *b = ((i * 31 + k * 7) % 251) as u8;
        }
        gt.extend_from_slice(&msg);
    }
    gt
}

/// The Irwin-Hall-12 Gaussian delay drawn from the twelve draws after `state`.
fn gaussian_delay(mean_ns: i64, sigma_ns: u64, state: u64) -> i64 {
    let mut prng = SplitMix64::new(state);
    let mut sum = 0.0f64;
    for _ in 0..12 {
        sum += (prng.next_u64() >> 11) as f64 * (1.0 / ((1u64 << 53) as f64));
    }
    let z = sum - 6.0;
    (mean_ns as f64 + z * (sigma_ns as f64)).round() as i64
}

fn frame_count(gt: &[u8]) -> u64 {
    golden(gt).1
}

/// The hash a sink reaches folding every message of `gt` once, in order.
fn delivered_hash(gt: &[u8]) -> u64 {
    let mut sink = HashSink::new();
    let mut pos = 0usize;
    let mut seq = 1u64;
    while pos + 2 <= gt.len() {
        let len = u16::from_be_bytes([gt[pos], gt[pos + 1]]) as usize;
        sink.fold_msg(seq, &gt[pos + 2..pos + 2 + len]);
        pos += 2 + len;
        seq += 1;
    }
    sink.hash
}

#[test]
fn schedule_is_deterministic_and_seed_sensitive() {
    let gt = synthetic_gt(3000);
    let mut config1 = ReplayConfig::default();
    config1.seed_a = 0xAAAA_BBBB_CCCC_DDDD;
    config1.seed_b = 0x1111_2222_3333_4444;
    config1.loss = [LossModel::Bernoulli { p_pm: 50 }, LossModel::Bernoulli { p_pm: 50 }];
    config1.delay = [
        DelayModel::GaussianApprox { mean_ns: 10_000, sigma_ns: 2_000 },
        DelayModel::GaussianApprox { mean_ns: 10_000, sigma_ns: 2_000 },
    ];
    let a = build_schedule(&gt, &config1, gaussian_delay);
    let b = build_schedule(&gt, &config1, gaussian_delay);
    assert_eq!(a.events, b.events);

    let mut config2 = config1.clone();
    config2.seed_a = 0x9999_8888_7777_6666;
    let c = build_schedule(&gt, &config2, gaussian_delay);
    assert_ne!(a.events, c.events);
}

#[test]
fn packetization_counts_stay_exact_past_u16_messages() {
    // More messages than a u16 can count: every fixed-size packet still carries 25
    // messages, only the last one fewer.
    let n: u64 = 505_849;
    let gt = synthetic_gt(n as usize);
    let mut cfg = ReplayConfig::default();
    cfg.msgs_per_packet = Packetize::Fixed(25);
    let s = build_schedule(&gt, &cfg, gaussian_delay);
    let mut seen_47075 = false;
    for ev in &s.events {
        if let SchedKind::Packet { count, first_msg, first_seq } = ev.kind {
            assert_eq!(first_seq, first_msg + 1);
            assert_eq!(count as u64, std::cmp::min(25, n - first_msg));
            if first_msg == 47_075 {
                assert_eq!(count, 25);
                seen_47075 = true;
            }
        }
    }
    assert!(seen_47075);
}

#[test]
fn packetization_modes() {
    let gt = synthetic_gt(1003);
    let n = frame_count(&gt);

    let mut cfg = ReplayConfig::default();
    cfg.msgs_per_packet = Packetize::Fixed(25);
    let s = build_schedule(&gt, &cfg, gaussian_delay);
    for ev in &s.events {
        if let SchedKind::Packet { count, first_msg, first_seq } = ev.kind {
            assert_eq!(first_seq, first_msg + 1);
            if first_msg + 25 <= n {
                assert_eq!(count, 25);
            } else {
                assert_eq!(count, (n - first_msg) as u16);
            }
        }
    }

    cfg.msgs_per_packet = Packetize::MtuBound(200);
    let s = build_schedule(&gt, &cfg, gaussian_delay);
    let mut covered = 0u64;
    for ev in s.events.iter().filter(|e| e.feed == 0) {
        if let SchedKind::Packet { count, first_msg, .. } = ev.kind {
            assert_eq!(first_msg, covered);
            covered += count as u64;
        }
    }
    assert_eq!(covered, n);

    cfg.msgs_per_packet = Packetize::SeededRange { min: 5, max: 20 };
    let s = build_schedule(&gt, &cfg, gaussian_delay);
    for ev in &s.events {
        if let SchedKind::Packet { count, first_msg, .. } = ev.kind {
            if first_msg + 20 <= n {
                assert!((5..=20).contains(&count));
            }
        }
    }
}

#[test]
fn coverage_is_guaranteed_under_loss() {
    let gt = synthetic_gt(2000);
    let n = frame_count(&gt) as usize;
    let mut cfg = ReplayConfig::default();
    cfg.loss = [LossModel::Bernoulli { p_pm: 400 }, LossModel::Bernoulli { p_pm: 400 }];
    cfg.guarantee_coverage = true;
    let sched = build_schedule(&gt, &cfg, gaussian_delay);
    let mut covered = vec![false; n];
    for ev in &sched.events {
        if let SchedKind::Packet { first_msg, count, .. } = ev.kind {
            for i in 0..count as u64 {
                covered[(first_msg + i) as usize] = true;
            }
        }
    }
    assert!(covered.iter().all(|&c| c));
}

#[test]
fn closing_structure_per_feed() {
    let gt = synthetic_gt(500);
    let n = frame_count(&gt);
    let cfg = ReplayConfig::default();
    let sched = build_schedule(&gt, &cfg, gaussian_delay);
    for feed in 0..2u8 {
        let evs: Vec<_> = sched.events.iter().filter(|e| e.feed == feed).collect();
        assert!(evs.len() >= 2);
        match evs[evs.len() - 1].kind {
            SchedKind::EndOfSession { next_seq } => assert_eq!(next_seq, n + 1),
            _ => panic!("last event must be an end of session"),
        }
        match evs[evs.len() - 2].kind {
            SchedKind::Heartbeat { next_seq } => assert_eq!(next_seq, n + 1),
            _ => panic!("penultimate event must be the terminal heartbeat"),
        }
    }
    for w in sched.events.windows(2) {
        assert!(w[0].release_vt <= w[1].release_vt);
    }
}

#[test]
fn scripted_drop_removes_feed_a_range() {
    let gt = synthetic_gt(400);
    let mut cfg = ReplayConfig::default();
    cfg.scripted_drops = vec![DropRange { seq_from: 101, seq_to_incl: 150, feed_mask: 1 }];
    cfg.guarantee_coverage = false;
    let sched = build_schedule(&gt, &cfg, gaussian_delay);
    for ev in &sched.events {
        if let SchedKind::Packet { first_seq, count, .. } = ev.kind {
            let end = first_seq + count as u64 - 1;
            let overlaps = !(end < 101 || first_seq > 150);
            if ev.feed == 0 {
                assert!(!overlaps);
            }
        }
    }
    assert!(sched.events.iter().any(|e| e.feed == 1
        && matches!(e.kind, SchedKind::Packet { first_seq, .. } if (101..=150).contains(&first_seq))));
}

#[test]
fn session_split_renumbers_and_names_second_session() {
    let gt = synthetic_gt(300);
    let mut cfg = ReplayConfig::default();
    cfg.session_change_at_msg = Some(100);
    let sched = build_schedule(&gt, &cfg, gaussian_delay);
    assert_eq!(sched.session_split, Some((100, *b"SPLITSESS2")));
    for ev in &sched.events {
        match ev.kind {
            SchedKind::Packet { first_seq, first_msg, .. } => {
                if first_msg >= 100 {
                    assert_eq!(first_seq, first_msg - 100 + 1);
                } else {
                    assert_eq!(first_seq, first_msg + 1);
                }
            }
            SchedKind::Heartbeat { next_seq } | SchedKind::EndOfSession { next_seq } => {
                assert_eq!(next_seq, 300 - 100 + 1);
            }
        }
    }
}

#[test]
fn empty_stream_gives_empty_schedule() {
    let cfg = ReplayConfig::default();
    let sched = build_schedule(&[], &cfg, gaussian_delay);
    assert!(sched.events.is_empty());
    assert!(sched.session_split.is_none());
}

#[test]
fn gaussian_delays_spread_release_times() {
    let gt = synthetic_gt(1000);
    let mut cfg = ReplayConfig::default();
    cfg.delay = [DelayModel::GaussianApprox { mean_ns: 50_000, sigma_ns: 10_000 }, DelayModel::NoDelay];
    cfg.feeds_enabled = 1;
    let sched = build_schedule(&gt, &cfg, gaussian_delay);
    assert!(!sched.events.is_empty());
    assert!(sched.events.iter().all(|e| e.feed == 0));
    let plain = build_schedule(&gt, &ReplayConfig { feeds_enabled: 1, ..ReplayConfig::default() }, gaussian_delay);
    let first_delayed = sched.events.iter().find(|e| matches!(e.kind, SchedKind::Packet { .. })).unwrap();
    let first_plain = plain.events.iter().find(|e| matches!(e.kind, SchedKind::Packet { .. })).unwrap();
    assert!(first_delayed.release_vt > first_plain.release_vt);
}

#[test]
fn render_round_trip_single_feed() {
    let gt = synthetic_gt(2500);
    let n = frame_count(&gt);
    let mut cfg = ReplayConfig::default();
    cfg.msgs_per_packet = Packetize::Fixed(15);
    cfg.feeds_enabled = 1;
    let sched = build_schedule(&gt, &cfg, gaussian_delay);
    let mut transport = ReplayTransport::new(&gt, sched, *b"TESTREPLAY");
    let mut batch = FrameBatch::new();
    let mut total = 0u64;
    while transport.poll(&mut batch) > 0 {
        for frame in batch.frames() {
            let bytes = transport.frame_bytes(frame);
            match validate_frame(bytes).expect("rendered frame validates") {
                Parsed::Data { header, blocks } => {
                    assert_eq!(header.session, *b"TESTREPLAY");
                    assert!(blocks.len() > 0);
                    total += blocks.len() as u64;
                }
                Parsed::Heartbeat { .. } | Parsed::EndOfSession { .. } => {}
            }
        }
    }
    assert_eq!(total, n);
}

#[test]
fn max_rate_sequence_numbers_increase() {
    let gt = synthetic_gt(2000);
    let mut cfg = ReplayConfig::default();
    cfg.msgs_per_packet = Packetize::Fixed(50);
    cfg.loss = [LossModel::NoLoss, LossModel::NoLoss];
    cfg.delay = [DelayModel::NoDelay, DelayModel::NoDelay];
    cfg.feeds_enabled = 1;
    let sched = build_schedule(&gt, &cfg, gaussian_delay);
    let mut transport = ReplayTransport::new(&gt, sched, *b"MAXRATESES");
    let mut batch = FrameBatch::new();
    let mut last_seq = 0u64;
    while transport.poll(&mut batch) > 0 {
        for frame in batch.frames() {
            if let Ok(Parsed::Data { header, .. }) = validate_frame(transport.frame_bytes(frame)) {
                assert!(header.seq > last_seq);
                last_seq = header.seq;
            }
        }
    }
    assert_eq!(last_seq, 1951);
}

#[test]
fn chaos_run_conforms_to_ground_truth() {
    let gt = synthetic_gt(5000);
    let golden_count = golden(&gt).1;
    let expected_hash = delivered_hash(&gt);
    let mut cfg = ReplayConfig::default();
    cfg.msgs_per_packet = Packetize::MtuBound(1400);
    cfg.loss = [LossModel::Bernoulli { p_pm: 80 }, LossModel::Bernoulli { p_pm: 80 }];
    cfg.delay = [
        DelayModel::GaussianApprox { mean_ns: 25_000, sigma_ns: 5_000 },
        DelayModel::GaussianApprox { mean_ns: 25_000, sigma_ns: 5_000 },
    ];
    cfg.guarantee_coverage = true;
    let sched = build_schedule(&gt, &cfg, gaussian_delay);
    let mut transport = ReplayTransport::new(&gt, sched, *b"CONFORMSES");
    let mut seq = Sequencer::new();
    let mut sink = ConformanceSink::new();
    let mut reference = ReferenceArbitrator::new();
    let mut batch = FrameBatch::new();
    while transport.poll(&mut batch) > 0 {
        let now_ns = transport.now_ns();
        for frame in batch.frames() {
            seq.ingest(transport.frame_bytes(frame), frame.feed, now_ns, &mut sink);
            reference.ingest_packet(transport.frame_bytes(frame));
        }
        let _ = seq.recovery_intent(now_ns);
    }
    let (ref_anchor, ref_wm, ref_hash, ref_emitted) = reference.evaluate_all_sessions();
    assert_eq!(ref_anchor, 1);
    assert_eq!(ref_wm, seq.watermark());
    assert_eq!(ref_hash, sink.hash());
    assert_eq!(ref_emitted.len() as u64, golden_count);
    assert_eq!(sink.hash(), expected_hash);
    assert_eq!(sink.hash(), golden(&gt).0);
    assert_eq!(sink.count(), golden_count);
    assert_eq!(seq.watermark(), golden_count + 1);
    assert_eq!(seq.counters().total_violations, 0);
    assert_eq!(sink.violations, 0);
    assert!(sink.gap_open_gen.is_none());
}

#[test]
fn chaos_runs_are_bit_identical() {
    let gt = synthetic_gt(3000);
    let mut cfg = ReplayConfig::default();
    cfg.seed_a = 0xCAFE_BABE_0001_0002;
    cfg.seed_b = 0xDEAD_BEEF_0003_0004;
    cfg.msgs_per_packet = Packetize::MtuBound(1200);
    cfg.loss = [LossModel::Bernoulli { p_pm: 100 }, LossModel::Bernoulli { p_pm: 100 }];
    cfg.delay = [
        DelayModel::GaussianApprox { mean_ns: 30_000, sigma_ns: 8_000 },
        DelayModel::GaussianApprox { mean_ns: 30_000, sigma_ns: 8_000 },
    ];
    let run = |cfg: &ReplayConfig| {
        let sched = build_schedule(&gt, cfg, gaussian_delay);
        let mut transport = ReplayTransport::new(&gt, sched, *b"DETERRUN01");
        let mut seq = Sequencer::new();
        let mut sink = ConformanceSink::new();
        let mut batch = FrameBatch::new();
        while transport.poll(&mut batch) > 0 {
            let now_ns = transport.now_ns();
            for frame in batch.frames() {
                seq.ingest(transport.frame_bytes(frame), frame.feed, now_ns, &mut sink);
            }
            let _ = seq.recovery_intent(now_ns);
        }
        (sink.hash(), sink.count(), sink.gap_opens)
    };
    let r1 = run(&cfg);
    let r2 = run(&cfg);
    assert_eq!(r1, r2);
    assert_eq!(r1.0, delivered_hash(&gt));
}


#[test]
fn clock_fits_ordinary_streams() {
    let gt = synthetic_gt(1000);
    let cfg = ReplayConfig::default();
    assert!(nf_feed::testkit::sched::schedule_clock_fits(&gt, &cfg));
    assert!(nf_feed::testkit::sched::schedule_clock_fits(&[], &cfg));
}
