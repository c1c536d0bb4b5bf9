use esp_hal_utils::tinybuf::{Buffer, BufferError};

#[test]
fn test_new_is_empty() {
    let buf: Buffer<8> = Buffer::new();
    assert_eq!(buf.len(), 0);
    assert_eq!(buf.available(), 8);
}

#[test]
fn test_push_fits_exactly() {
    let mut buf: Buffer<4> = Buffer::new();
    let data = [1, 2, 3, 4];
    assert!(buf.push(&data).is_ok());
    assert_eq!(buf.len(), 4);
    assert_eq!(buf.available(), 0);
    assert_eq!(&buf.storage()[..4], &data);
}

#[test]
fn test_push_too_large_fails() {
    let mut buf: Buffer<3> = Buffer::new();
    let data = [1, 2, 3, 4]; // len = 4 > N = 3
    assert_eq!(buf.push(&data), Err(BufferError::Overflow));
    assert_eq!(buf.len(), 0);
}

#[test]
fn test_push_multiple_chunks() {
    let mut buf: Buffer<8> = Buffer::new();
    assert!(buf.push(&[1, 2]).is_ok());
    assert_eq!(buf.len(), 2);
    assert!(buf.push(&[3, 4]).is_ok());
    assert_eq!(buf.len(), 4);
    assert_eq!(&buf.storage()[..4], &[1, 2, 3, 4]);
}

#[test]
fn test_push_when_full_triggers_shift() {
    let mut buf: Buffer<4> = Buffer::new();
    // Fill buffer
    assert!(buf.push(&[1, 2, 3, 4]).is_ok());
    // Push 2 more bytes: should shift by max(2, 4/2) = 2
    assert!(buf.push(&[5, 6]).is_ok());
    // After shift: [3, 4] -> shifted to front, then [5, 6] appended
    assert_eq!(buf.len(), 4);
    assert_eq!(&buf.storage()[..4], &[3, 4, 5, 6]);
}

#[test]
fn test_push_when_nearly_full() {
    let mut buf: Buffer<5> = Buffer::new();
    assert!(buf.push(&[1, 2, 3]).is_ok()); // len=3, avail=2
    assert!(buf.push(&[4, 5]).is_ok()); // fits exactly, no shift
    assert_eq!(buf.len(), 5);
    assert_eq!(&buf.storage()[..5], &[1, 2, 3, 4, 5]);
}

#[test]
fn test_push_requires_shift_smaller_than_data_len() {
    let mut buf: Buffer<6> = Buffer::new();
    assert!(buf.push(&[1, 2, 3, 4]).is_ok()); // len=4, avail=2
                                              // Push 3 bytes -> need 3, have 2 -> must shift
                                              // shift amount = max(3, 6/2) = max(3,3) = 3
    assert!(buf.push(&[5, 6, 7]).is_ok());
    // After shifting 3: original [1,2,3,4] -> keep [4], then append [5,6,7]
    // Result: [4,5,6,7] -> len=4
    assert_eq!(buf.len(), 4);
    assert_eq!(&buf.storage()[..4], &[4, 5, 6, 7]);
}

#[test]
fn test_clear() {
    let mut buf: Buffer<4> = Buffer::new();
    assert!(buf.push(&[1, 2, 3, 4]).is_ok());
    buf.clear();
    assert_eq!(buf.len(), 0);
    assert_eq!(buf.available(), 4);
    // Ensure buffer is zeroed (as per clear() impl)
    assert_eq!(buf.storage(), &[0; 4]);
}

#[test]
fn test_advance_zero() {
    let mut buf: Buffer<4> = Buffer::new();
    assert!(buf.push(&[1, 2]).is_ok());
    buf.advance(0);
    assert_eq!(buf.len(), 2);
    assert_eq!(&buf.storage()[..2], &[1, 2]);
}

#[test]
fn test_advance_full() {
    let mut buf: Buffer<4> = Buffer::new();
    assert!(buf.push(&[1, 2, 3, 4]).is_ok());
    buf.advance(4); // or more
    assert_eq!(buf.len(), 0);
    // Remaining buffer content doesn't matter (as len=0), but should not panic
}

#[test]
fn test_advance_partial() {
    let mut buf: Buffer<5> = Buffer::new();
    assert!(buf.push(&[1, 2, 3, 4, 5]).is_ok());
    buf.advance(2);
    assert_eq!(buf.len(), 3);
    assert_eq!(&buf.storage()[..3], &[3, 4, 5]);
}

#[test]
fn test_advance_more_than_len() {
    let mut buf: Buffer<4> = Buffer::new();
    assert!(buf.push(&[1, 2]).is_ok());
    buf.advance(10); // should clamp to len=2
    assert_eq!(buf.len(), 0);
}

#[test]
fn test_find_found_at_start() {
    let mut buf: Buffer<8> = Buffer::new();
    assert!(buf.push(&[1, 2, 3, 4]).is_ok());
    assert_eq!(buf.find(&[1, 2]), Some(0));
}

#[test]
fn test_find_found_in_middle() {
    let mut buf: Buffer<8> = Buffer::new();
    assert!(buf.push(&[1, 2, 3, 4]).is_ok());
    assert_eq!(buf.find(&[2, 3]), Some(1));
}

#[test]
fn test_find_found_at_end() {
    let mut buf: Buffer<8> = Buffer::new();
    assert!(buf.push(&[1, 2, 3, 4]).is_ok());
    assert_eq!(buf.find(&[3, 4]), Some(2));
}

#[test]
fn test_find_not_found() {
    let mut buf: Buffer<8> = Buffer::new();
    assert!(buf.push(&[1, 2, 3, 4]).is_ok());
    assert_eq!(buf.find(&[5]), None);
}

#[test]
fn test_find_empty_needle() {
    let buf: Buffer<4> = Buffer::new();
    // windows(0) produces one match at position 0 by convention
    assert_eq!(buf.find(&[]), Some(0));
}

#[test]
fn test_find_needle_larger_than_buffer() {
    let buf: Buffer<3> = Buffer::new();
    assert_eq!(buf.find(&[1, 2, 3, 4]), None);
}

#[test]
fn test_copy_to_larger_dst() {
    let mut buf: Buffer<4> = Buffer::new();
    assert!(buf.push(&[10, 20, 30]).is_ok());
    let mut dst = [0u8; 8];
    let copied = buf.copy_to(&mut dst);
    assert_eq!(copied, 3);
    assert_eq!(&dst[..3], &[10, 20, 30]);
}

#[test]
fn test_copy_to_smaller_dst() {
    let mut buf: Buffer<4> = Buffer::new();
    assert!(buf.push(&[10, 20, 30, 40]).is_ok());
    let mut dst = [0u8; 2];
    let copied = buf.copy_to(&mut dst); // n=5, but dst.len=2
    assert_eq!(copied, 2);
    assert_eq!(&dst, &[10, 20]);
}

#[test]
fn test_copy_to_limited_by_n() {
    let mut buf: Buffer<4> = Buffer::new();
    assert!(buf.push(&[10, 20, 30, 40]).is_ok());
    let mut dst = [0u8; 8];
    let copied = buf.copy_to(&mut dst[..2]);
    assert_eq!(copied, 2);
    assert_eq!(&dst[..2], &[10, 20]);
}

#[test]
fn test_copy_to_empty_buffer() {
    let buf: Buffer<4> = Buffer::new();
    let mut dst = [0u8; 4];
    let copied = buf.copy_to(&mut dst);
    assert_eq!(copied, 0);
    assert_eq!(dst, [0; 4]);
}

#[test]
fn test_as_slice() {
    let mut buf: Buffer<8> = Buffer::new();
    let data = [1, 2, 3, 4];
    assert!(buf.push(&data).is_ok());
    assert_eq!(buf.as_slice(), &[1, 2, 3, 4]);
    assert!(buf.push(&data).is_ok());
    assert_eq!(buf.as_slice(), &[1, 2, 3, 4, 1, 2, 3, 4]);
}

#[test]
fn refused_push_changes_nothing() {
    let mut buf: Buffer<4> = Buffer::new();
    assert!(buf.push(&[1, 2, 3]).is_ok());
    assert_eq!(buf.push(&[4, 5, 6, 7, 8]), Err(BufferError::Overflow));
    assert_eq!(buf.as_slice(), &[1, 2, 3]);
}

#[test]
fn push_keeps_what_fits_and_all_that_is_new() {
    let mut buf: Buffer<8> = Buffer::new();
    assert!(buf.push(&[1, 2, 3, 4, 5, 6, 7]).is_ok());
    // Two bytes do not fit behind seven: half the capacity goes.
    assert!(buf.push(&[8, 9]).is_ok());
    assert_eq!(buf.as_slice(), &[5, 6, 7, 8, 9]);
    // Eight bytes push everything out.
    assert!(buf.push(&[10, 11, 12, 13, 14, 15, 16, 17]).is_ok());
    assert_eq!(buf.as_slice(), &[10, 11, 12, 13, 14, 15, 16, 17]);
}

#[test]
fn pushes_keep_the_newest_bytes_in_order() {
    let mut buf: Buffer<5> = Buffer::new();
    let mut everything: Vec<u8> = Vec::new();
    for n in 0..40u8 {
        let chunk: Vec<u8> = (0..n % 6).map(|i| n.wrapping_mul(7).wrapping_add(i)).collect();
        assert!(buf.push(&chunk).is_ok());
        everything.extend_from_slice(&chunk);
        assert!(buf.len() <= 5);
        assert!(everything.ends_with(buf.as_slice()));
        assert!(buf.as_slice().ends_with(&chunk));
    }
}

#[test]
fn bytes_leave_in_the_order_in_which_they_came() {
    let mut buf: Buffer<6> = Buffer::new();
    assert!(buf.push(&[1, 2, 3]).is_ok());
    assert!(buf.push(&[4, 5]).is_ok());
    buf.advance(3);
    assert_eq!(buf.as_slice(), &[4, 5]);
}

#[test]
fn two_steps_forward_are_one_long_step() {
    let mut twice: Buffer<6> = Buffer::new();
    let mut once: Buffer<6> = Buffer::new();
    assert!(twice.push(&[1, 2, 3, 4, 5, 6]).is_ok());
    assert!(once.push(&[1, 2, 3, 4, 5, 6]).is_ok());
    twice.advance(2);
    twice.advance(3);
    once.advance(5);
    assert_eq!(twice.as_slice(), &[6]);
    assert_eq!(once.as_slice(), &[6]);
}

#[test]
fn advancing_to_a_match_brings_it_to_the_front() {
    let mut buf: Buffer<8> = Buffer::new();
    assert!(buf.push(&[7, 7, 8, 9, 7, 8]).is_ok());
    assert_eq!(buf.find(&[7, 8]), Some(1));
    buf.advance(1);
    assert_eq!(buf.find(&[7, 8]), Some(0));
}

#[test]
fn find_looks_at_held_bytes_only() {
    let mut buf: Buffer<4> = Buffer::new();
    assert!(buf.push(&[1, 2, 3, 4]).is_ok());
    buf.advance(2);
    // The cells behind the two held bytes still read 3 and 4.
    assert_eq!(buf.storage(), &[3, 4, 3, 4]);
    assert_eq!(buf.find(&[4, 3]), None);
    assert_eq!(buf.find(&[4]), Some(1));
}

#[test]
fn find_compares_the_whole_needle() {
    let mut buf: Buffer<8> = Buffer::new();
    assert!(buf.push(&[1, 1, 1, 2]).is_ok());
    assert_eq!(buf.find(&[1, 1, 2]), Some(1));
    assert_eq!(buf.find(&[1, 2, 1]), None);
}

#[test]
fn copy_leaves_the_rest_of_the_target_alone() {
    let mut buf: Buffer<4> = Buffer::new();
    assert!(buf.push(&[1, 2]).is_ok());
    let mut dst = [9u8; 4];
    assert_eq!(buf.copy_to(&mut dst), 2);
    assert_eq!(dst, [1, 2, 9, 9]);
    assert_eq!(buf.as_slice(), &[1, 2]);
}

#[test]
fn a_buffer_without_room_takes_only_nothing() {
    let mut buf: Buffer<0> = Buffer::new();
    assert!(buf.push(&[]).is_ok());
    assert_eq!(buf.push(&[1]), Err(BufferError::Overflow));
    assert_eq!(buf.find(&[]), Some(0));
    assert_eq!(buf.available(), 0);
}
