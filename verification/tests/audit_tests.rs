use nf_feed::engine::audit::audit_stream;

#[test]
fn test_audit_in_memory_stream() {
    let mut stream = Vec::new();
    // Msg 1: S (12B)
    let s_msg = [0x53, 0, 0, 0, 0, 0, 0, 0, 0, 0, 0, 0x4F];
    stream.extend_from_slice(&(12u16).to_be_bytes());
    stream.extend_from_slice(&s_msg);

    // Msg 2: D (19B)
    let d_msg = [0x44, 0, 0, 0, 0, 0, 0, 0, 0, 0, 0, 0, 0, 0, 0, 0, 0, 0, 1];
    stream.extend_from_slice(&(19u16).to_be_bytes());
    stream.extend_from_slice(&d_msg);

    let report = audit_stream(&stream);
    assert_eq!(report.blocks, 2);
    assert_eq!(report.violations, 0);
    assert!(!report.truncated_tail);
    assert_eq!(report.hist[b'S' as usize], 1);
    assert_eq!(report.hist[b'D' as usize], 1);
}

#[test]
fn test_audit_truncated_tail() {
    let mut stream = Vec::new();
    // Add full S message
    let s_msg = [0x53, 0, 0, 0, 0, 0, 0, 0, 0, 0, 0, 0x4F];
    stream.extend_from_slice(&(12u16).to_be_bytes());
    stream.extend_from_slice(&s_msg);

    // Claim 36 bytes for A, but provide only 10 bytes before EOF
    stream.extend_from_slice(&(36u16).to_be_bytes());
    stream.extend_from_slice(&[b'A', 0, 0, 0, 0, 0, 0, 0, 0, 0]);

    let report = audit_stream(&stream);
    assert_eq!(report.blocks, 1);
    assert_eq!(report.violations, 0);
    assert!(report.truncated_tail);
    assert_eq!(report.hist[b'S' as usize], 1);
}
