use nf_feed::transport::xdp::{frame_addr, ring_slot, rx_take, RecycleList, RING_SIZE, UMEM_FRAME_SIZE, UMEM_NUM_FRAMES, UMEM_TOTAL_SIZE};

#[test]
fn ring_slots_wrap() {
    assert_eq!(ring_slot(0, 5, RING_SIZE), 5);
    assert_eq!(ring_slot(2047, 1, RING_SIZE), 0);
    assert_eq!(ring_slot(u32::MAX, 2, RING_SIZE), 1);
    assert_eq!(frame_addr(3), 3 * 4096);
    assert_eq!(UMEM_TOTAL_SIZE, UMEM_NUM_FRAMES * UMEM_FRAME_SIZE);
}

#[test]
fn rx_take_caps_at_batch_room() {
    assert_eq!(rx_take(10, 256), 10);
    assert_eq!(rx_take(1000, 256), 256);
    assert_eq!(rx_take(0, 256), 0);
}

#[test]
fn recycle_list_keeps_at_most_256() {
    let mut r = RecycleList::new();
    for i in 0..300u64 {
        assert_eq!(r.push(i * 4096), i < 256);
    }
    assert_eq!(r.len(), 256);
    assert_eq!(r.get(255), 255 * 4096);
    r.clear();
    assert_eq!(r.len(), 0);
}
