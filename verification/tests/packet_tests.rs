use nf_feed::protocol::itch5;
use nf_feed::protocol::moldudp64;
use nf_feed::protocol::packet::{validate_frame, PacketError};

#[test]
fn test_validate_frame_synthetic() {
    const SESSION: moldudp64::SessionId = *b"TESTSESS01";
    let mut frame = Vec::new();
    frame.extend_from_slice(&SESSION);
    frame.extend_from_slice(&100u64.to_be_bytes()); // seq
    frame.extend_from_slice(&2u16.to_be_bytes()); // count = 2

    // Msg 1: System Event (12B)
    let msg1 = [
        0x53, 0, 0, 0, 0, 0, 0, 0, 0, 0, 0, 0x4F,
    ];
    frame.extend_from_slice(&(msg1.len() as u16).to_be_bytes());
    frame.extend_from_slice(&msg1);

    // Msg 2: Delete (19B)
    let msg2 = [
        0x44, 0, 0, 0, 0, 0, 0, 0, 0, 0, 0, 0, 0, 0, 0, 0, 0, 0, 1,
    ];
    frame.extend_from_slice(&(msg2.len() as u16).to_be_bytes());
    frame.extend_from_slice(&msg2);

    let res = validate_frame(&frame).expect("validate valid frame");
    match res {
        moldudp64::Parsed::Data { header, blocks } => {
            assert_eq!(header.seq, 100);
            assert_eq!(header.count, 2);
            assert_eq!(blocks.len(), 2);
        }
        _ => panic!("Expected Data"),
    }

    // Corrupt msg2 with invalid type byte 0xFE
    let mut bad_frame = frame.clone();
    let msg2_type_pos = 20 + 2 + 12 + 2;
    bad_frame[msg2_type_pos] = 0xFE;
    assert_eq!(
        validate_frame(&bad_frame),
        Err(PacketError::Payload(itch5::ItchError::UnknownType {
            t: 0xFE
        }))
    );
}
