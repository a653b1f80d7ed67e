use nf_feed::engine::tail_study::{
    prefault_buffer, TailRecord, TailStudyContext, TaxonomyBreakdown, CAPTURE_RING_SIZE, FLAG_BATCH_LEADER,
    FLAG_FIRST_TOUCH, FLAG_HB_EOS, FLAG_PREV_CAPTURE,
};

#[test]
fn context_sizes_pages_and_bitmap() {
    let ctx = TailStudyContext::new(4096 * 130 + 1);
    assert_eq!(ctx.page_count, 131);
    assert_eq!(ctx.page_bitmap.len(), 3);
    assert!(ctx.records.is_empty());
    let empty = TailStudyContext::new(0);
    assert_eq!(empty.page_count, 0);
    assert_eq!(empty.page_bitmap.len(), 0);
}

#[test]
fn first_touch_marks_pages_once() {
    let mut ctx = TailStudyContext::new(4096 * 10);
    assert!(ctx.check_and_mark_first_touch(100, 10));
    assert!(!ctx.check_and_mark_first_touch(200, 10));
    assert!(ctx.check_and_mark_first_touch(4090, 10));
    assert!(!ctx.check_and_mark_first_touch(4096, 1));
    assert!(ctx.check_and_mark_first_touch(4096 * 9, 0));
    assert!(!ctx.check_and_mark_first_touch(4096 * 10, 100));
    assert_eq!(ctx.page_bitmap[0], 0b10_0000_0011);
    ctx.clear();
    assert_eq!(ctx.page_bitmap[0], 0);
    assert!(ctx.check_and_mark_first_touch(100, 10));
}

#[test]
fn samples_are_captured_with_flags() {
    let mut ctx = TailStudyContext::new(4096);
    ctx.record_tail_sample(100, 1, 10, 0, 0, 4, false, false);
    assert!(ctx.records.is_empty());
    assert!(!ctx.last_was_capture);
    ctx.record_tail_sample(1000, 2, 20, 64, 0, 4, true, false);
    ctx.record_tail_sample(u64::MAX, 3, 30, 128, 2, 4, false, true);
    assert_eq!(ctx.records.len(), 2);
    assert_eq!(ctx.records[0].flags, FLAG_FIRST_TOUCH | FLAG_BATCH_LEADER);
    assert_eq!(ctx.records[1].flags, FLAG_PREV_CAPTURE | FLAG_HB_EOS);
    assert_eq!(ctx.records[1].latency, u32::MAX);
    assert_eq!(ctx.records[1].input_offset, 128);
}

#[test]
fn full_ring_counts_overflow() {
    let mut ctx = TailStudyContext::new(4096);
    for i in 0..CAPTURE_RING_SIZE as u64 + 3 {
        ctx.record_tail_sample(300, i, i, 0, 1, 2, false, false);
    }
    assert_eq!(ctx.records.len(), CAPTURE_RING_SIZE);
    assert_eq!(ctx.overflow_count, 3);
}

#[test]
fn classify_attributes_first_match() {
    let base = TailRecord { latency: 500, batch_pos: 3, batch_size: 8, ..TailRecord::default() };
    let records = vec![
        TailRecord { flags: FLAG_FIRST_TOUCH | FLAG_PREV_CAPTURE, m0_stamp: 100, ..base },
        TailRecord { flags: FLAG_PREV_CAPTURE, m0_stamp: 200, latency: 2000, ..base },
        TailRecord { m0_stamp: 5000, ..base },
        TailRecord { m0_stamp: 5100, batch_pos: 0, ..base },
        TailRecord { m0_stamp: 5200, flags: FLAG_HB_EOS, latency: 3000, ..base },
        TailRecord { m0_stamp: 5300, ..base },
    ];
    let (all, p99) = TaxonomyBreakdown::classify(&records, 2000);
    assert_eq!(all.total_samples, 6);
    assert_eq!(all.first_touch, 1);
    assert_eq!(all.prev_capture, 1);
    assert_eq!(all.inter_msg_gap, 1);
    assert_eq!(all.batch_boundary, 1);
    assert_eq!(all.hb_eos, 1);
    assert_eq!(all.unknown, 1);
    assert_eq!(p99.total_samples, 2);
    assert_eq!(p99.prev_capture, 1);
    assert_eq!(p99.hb_eos, 1);
    assert_eq!(TaxonomyBreakdown::classify(&[], 0), (TaxonomyBreakdown::default(), TaxonomyBreakdown::default()));
}

#[test]
fn prefault_reads_every_page() {
    let buf = vec![1u8; 4096 * 3 + 17];
    prefault_buffer(&buf);
    prefault_buffer(&[]);
}
