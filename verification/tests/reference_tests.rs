use nf_feed::testkit::golden::FNV_OFFSET;
use nf_feed::testkit::reference::{RefSession, ReferenceArbitrator};
use nf_feed::testkit::sink::HashSink;

fn data_frame(session: &[u8; 10], seq: u64, msgs: &[&[u8]]) -> Vec<u8> {
    let mut f = Vec::new();
    f.extend_from_slice(session);
    f.extend_from_slice(&seq.to_be_bytes());
    f.extend_from_slice(&(msgs.len() as u16).to_be_bytes());
    for m in msgs {
        f.extend_from_slice(&(m.len() as u16).to_be_bytes());
        f.extend_from_slice(m);
    }
    f
}

fn control_frame(session: &[u8; 10], seq: u64, count: u16) -> Vec<u8> {
    let mut f = Vec::new();
    f.extend_from_slice(session);
    f.extend_from_slice(&seq.to_be_bytes());
    f.extend_from_slice(&count.to_be_bytes());
    f
}

fn hash_of(msgs: &[&[u8]]) -> u64 {
    let mut sink = HashSink::new();
    for (i, m) in msgs.iter().enumerate() {
        sink.fold_msg(i as u64 + 1, m);
    }
    sink.hash
}

#[test]
fn reference_first_received_wins_and_runs_contiguously() {
    let s = *b"REFSESS001";
    let mut r = ReferenceArbitrator::new();
    r.ingest_packet(&data_frame(&s, 1, &[b"one", b"two"]));
    r.ingest_packet(&data_frame(&s, 2, &[b"TWO", b"three"]));
    r.ingest_packet(&data_frame(&s, 5, &[b"five"]));
    assert_eq!(r.sessions.len(), 1);
    assert_eq!(r.sessions[0].anchor, Some(1));
    assert_eq!(r.sessions[0].messages.get(&2).unwrap(), &b"two".to_vec());
    let (anchor, wm, hash, emitted) = r.evaluate_all_sessions();
    assert_eq!(anchor, 1);
    assert_eq!(wm, 4);
    assert_eq!(emitted.len(), 3);
    assert_eq!(emitted[2], (3, b"three".to_vec()));
    assert_eq!(hash, hash_of(&[b"one", b"two", b"three"]));
}

#[test]
fn reference_sessions_heartbeats_and_end_of_session() {
    let s1 = *b"REFSESS001";
    let s2 = *b"REFSESS002";
    let mut r = ReferenceArbitrator::default();
    r.ingest_packet(&[0u8; 5]);
    assert!(r.sessions.is_empty());
    r.ingest_packet(&control_frame(&s1, 1, 0));
    assert_eq!(r.sessions.len(), 1);
    assert_eq!(r.sessions[0].anchor, None);
    r.ingest_packet(&data_frame(&s1, 10, &[b"a"]));
    r.ingest_packet(&control_frame(&s1, 11, 0xFFFF));
    assert!(r.sessions[0].eos_seen);
    r.ingest_packet(&data_frame(&s2, 1, &[b"b", b"c"]));
    assert_eq!(r.sessions.len(), 2);
    assert_eq!(r.current_session_idx, Some(1));
    let (anchor, wm, hash, emitted) = r.evaluate_latest_session();
    assert_eq!((anchor, wm), (1, 3));
    assert_eq!(emitted, vec![(1, b"b".to_vec()), (2, b"c".to_vec())]);
    assert_eq!(hash, hash_of(&[b"b", b"c"]));
    let (anchor, wm, hash, emitted) = r.evaluate_all_sessions();
    assert_eq!((anchor, wm), (1, 3));
    assert_eq!(emitted.len(), 3);
    assert_eq!(emitted[0], (10, b"a".to_vec()));
    assert_eq!(hash, hash_of(&[b"a", b"b", b"c"]));
}

#[test]
fn reference_truncated_blocks_stop_the_walk() {
    let s = *b"REFSESS001";
    let mut f = data_frame(&s, 7, &[b"abc", b"defg"]);
    f.truncate(f.len() - 1);
    let mut r = ReferenceArbitrator::new();
    r.ingest_packet(&f);
    assert_eq!(r.sessions[0].anchor, Some(7));
    assert_eq!(r.sessions[0].messages.len(), 1);
}

#[test]
fn reference_empty_evaluation() {
    let r = ReferenceArbitrator::new();
    assert_eq!(r.evaluate_latest_session(), (1, 1, FNV_OFFSET, Vec::new()));
    assert_eq!(r.evaluate_all_sessions(), (1, 1, FNV_OFFSET, Vec::new()));
    let s = RefSession::new(*b"REFSESS001");
    assert!(s.messages.is_empty() && !s.eos_seen && s.anchor.is_none());
}
