use devctrl::timesync::{time, time_frame, EPOCH_OFFSET_MS};

#[test]
fn time_counts_from_service_epoch() {
    assert_eq!(time(EPOCH_OFFSET_MS as u128), Some(0));
    assert_eq!(time(EPOCH_OFFSET_MS as u128 + 123), Some(123));
    // a reading before the service epoch has no value
    assert_eq!(time(0), None);
    assert_eq!(time(EPOCH_OFFSET_MS as u128 - 1), None);
    // a difference too large for u64 has no value either
    assert_eq!(time(u128::MAX), None);
}

#[test]
fn time_frame_writes_both_byte_orders() {
    let t: u64 = 0x0102030405060708;
    let frame = time_frame(t);
    assert_eq!(frame.len(), 16);
    assert_eq!(&frame[0..8], &t.to_le_bytes());
    assert_eq!(&frame[8..16], &t.to_be_bytes());
}

#[test]
fn time_frame_zero() {
    assert_eq!(time_frame(0), vec![0u8; 16]);
}
