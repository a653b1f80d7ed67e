use nf_feed::testkit::spec_server::spec_server_reply;
use std::collections::BTreeMap;

fn request(session: &[u8; 10], from: u64, count: u16) -> Vec<u8> {
    let mut req = session.to_vec();
    req.extend_from_slice(&from.to_be_bytes());
    req.extend_from_slice(&count.to_be_bytes());
    req
}

fn database(n: u64, len: usize) -> BTreeMap<u64, Vec<u8>> {
    let mut db = BTreeMap::new();
    for seq in 1..=n {
        let mut msg = format!("ITCH_MSG_FOR_SEQ_{:06}", seq).into_bytes();
        msg.resize(len.max(msg.len()), b'.');
        db.insert(seq, msg);
    }
    db
}

#[test]
fn spec_server_answers_one_packet() {
    let sess = *b"SPECSESS01";
    let db = database(100, 0);
    let pkts = spec_server_reply(sess, &db, &request(&sess, 10, 25));
    assert_eq!(pkts.len(), 1);
    let p = &pkts[0];
    assert_eq!(&p[0..10], &sess);
    assert_eq!(u64::from_be_bytes(p[10..18].try_into().unwrap()), 10);
    assert_eq!(u16::from_be_bytes(p[18..20].try_into().unwrap()), 25);
    let mut pos = 20;
    for seq in 10..35u64 {
        let len = u16::from_be_bytes([p[pos], p[pos + 1]]) as usize;
        assert_eq!(&p[pos + 2..pos + 2 + len], db[&seq].as_slice());
        pos += 2 + len;
    }
    assert_eq!(pos, p.len());
}

#[test]
fn spec_server_splits_at_the_mtu_and_stops_at_a_gap() {
    let sess = *b"SPECSESS01";
    let db = database(100, 300);
    // 302-byte blocks: four fit behind the header (20 + 4 * 302 = 1228), a fifth does not.
    let pkts = spec_server_reply(sess, &db, &request(&sess, 91, 20));
    let counts: Vec<u16> = pkts.iter().map(|p| u16::from_be_bytes([p[18], p[19]])).collect();
    let firsts: Vec<u64> = pkts.iter().map(|p| u64::from_be_bytes(p[10..18].try_into().unwrap())).collect();
    assert_eq!(counts, vec![4, 4, 2]);
    assert_eq!(firsts, vec![91, 95, 99]);
    assert!(pkts.iter().all(|p| p.len() <= 1400));
}

#[test]
fn spec_server_ignores_short_and_foreign_requests() {
    let sess = *b"SPECSESS01";
    let db = database(10, 0);
    assert!(spec_server_reply(sess, &db, &request(&sess, 1, 5)[..19]).is_empty());
    assert!(spec_server_reply(sess, &db, &request(b"OTHERSESS1", 1, 5)).is_empty());
    assert!(spec_server_reply(sess, &db, &request(&sess, 50, 5)).is_empty());
    assert!(spec_server_reply(sess, &db, &request(&sess, 1, 0)).is_empty());
}
