use esp_hal_utils::serial::{
    encode_frame, process_frame, FrameEvent, FrameHeader, FrameReader, CRC_LEN, FRAME_BUFFER_LEN,
    FRAME_HEADER_LEN, FRAME_START, MAX_FRAME_LEN, MAX_PAYLOAD_LEN, USB_BUFFER_LEN,
};
use esp_hal_utils::tinybuf::Buffer;

/// CRC-16 with polynomial 0x1021 and all ones at the start.
fn crc16(data: &[u8]) -> u16 {
    let mut crc = 0xffffu16;
    for &byte in data {
        crc ^= (byte as u16) << 8;
        for _ in 0..8 {
            crc = if crc & 0x8000 != 0 { (crc << 1) ^ 0x1021 } else { crc << 1 };
        }
    }
    crc
}

fn frame_of(payload: &[u8]) -> Vec<u8> {
    let message = heapless::Vec::<u8, MAX_PAYLOAD_LEN>::from_slice(payload).unwrap();
    encode_frame(&message, &crc16)
}

/// What the reader reports for one read; a checksum error is `None`.
fn read(reader: &mut FrameReader, data: &[u8]) -> Vec<Option<Vec<u8>>> {
    assert!(data.len() <= USB_BUFFER_LEN);
    let mut reports = Vec::new();
    for event in reader.receive(data, &crc16) {
        reports.push(match event {
            FrameEvent::Payload(payload) => Some(payload.as_slice().to_vec()),
            FrameEvent::CrcError => None,
        });
    }
    reports
}

/// What the reader reports for a stream that comes in pieces of `size` bytes.
fn read_in_pieces(reader: &mut FrameReader, data: &[u8], size: usize) -> Vec<Option<Vec<u8>>> {
    let mut reports = Vec::new();
    for piece in data.chunks(size) {
        reports.extend(read(reader, piece));
    }
    reports
}

#[test]
fn the_sizes_fit_together() {
    assert_eq!(FRAME_HEADER_LEN, 6);
    assert_eq!(FRAME_START, [0xaa, 0xcc, 0xaa, 0xcc]);
    assert_eq!(CRC_LEN, 2);
    assert_eq!(MAX_FRAME_LEN, 2048);
    assert_eq!(MAX_PAYLOAD_LEN, 2040);
    assert_eq!(USB_BUFFER_LEN, 64);
    assert_eq!(FRAME_BUFFER_LEN, 2112);
}

#[test]
fn a_frame_is_marker_length_data_and_checksum() {
    let frame = frame_of(b"123456789");
    let mut expected = vec![0xaa, 0xcc, 0xaa, 0xcc, 0x09, 0x00];
    expected.extend_from_slice(b"123456789");
    expected.extend_from_slice(&[0xb1, 0x29]);
    assert_eq!(frame, expected);
}

#[test]
fn an_empty_message_has_a_frame_too() {
    assert_eq!(frame_of(&[]), vec![0xaa, 0xcc, 0xaa, 0xcc, 0x00, 0x00, 0xff, 0xff]);
}

#[test]
fn a_long_message_has_both_length_bytes() {
    let frame = frame_of(&[5u8; 0x0203]);
    assert_eq!(&frame[4..6], &[0x03, 0x02]);
    assert_eq!(frame.len(), 0x0203 + 8);
}

#[test]
fn a_header_needs_six_bytes_and_the_marker() {
    let mut buf: Buffer<16> = Buffer::new();
    assert!(FrameHeader::new_from_buffer(&mut buf).is_none());
    buf.push(&[0xaa, 0xcc, 0xaa, 0xcc, 0x34]).unwrap();
    assert!(FrameHeader::new_from_buffer(&mut buf).is_none());
    buf.push(&[0x12, 0x99]).unwrap();
    let header = FrameHeader::new_from_buffer(&mut buf).unwrap();
    assert_eq!(header.get_length(), 0x1234);
    assert_eq!(buf.len(), 7);
    buf.advance(1);
    assert!(FrameHeader::new_from_buffer(&mut buf).is_none());
}

#[test]
fn processing_waits_for_payload_and_checksum() {
    let mut buf: Buffer<32> = Buffer::new();
    buf.push(b"123456789\xb1").unwrap();
    assert!(process_frame(&mut buf, 9, &crc16).is_none());
    assert_eq!(buf.as_slice(), b"123456789\xb1");
    buf.push(&[0x29, 0x77]).unwrap();
    match process_frame(&mut buf, 9, &crc16) {
        Some(FrameEvent::Payload(payload)) => assert_eq!(payload.as_slice(), b"123456789"),
        _ => panic!("no payload"),
    }
    assert_eq!(buf.as_slice(), &[0x77]);
}

#[test]
fn processing_drops_a_frame_with_a_wrong_checksum() {
    let mut buf: Buffer<32> = Buffer::new();
    buf.push(b"123456780\xb1\x29\x77").unwrap();
    assert!(matches!(process_frame(&mut buf, 9, &crc16), Some(FrameEvent::CrcError)));
    assert_eq!(buf.as_slice(), &[0x77]);
}

#[test]
fn a_payload_makes_the_round_trip() {
    let mut reader = FrameReader::new();
    assert_eq!(read(&mut reader, &frame_of(b"hello")), vec![Some(b"hello".to_vec())]);
    assert_eq!(read(&mut reader, &[]), vec![]);
}

#[test]
fn a_payload_makes_the_round_trip_however_it_is_cut() {
    let payload: Vec<u8> = (0..200).map(|i| (i * 7) as u8).collect();
    let frame = frame_of(&payload);
    for size in 1..=USB_BUFFER_LEN {
        let mut reader = FrameReader::new();
        assert_eq!(read_in_pieces(&mut reader, &frame, size), vec![Some(payload.clone())]);
    }
}

#[test]
fn the_longest_payload_makes_the_round_trip() {
    let payload: Vec<u8> = (0..MAX_PAYLOAD_LEN).map(|i| (i % 251) as u8).collect();
    let frame = frame_of(&payload);
    assert_eq!(frame.len(), MAX_FRAME_LEN);
    let mut reader = FrameReader::new();
    assert_eq!(read_in_pieces(&mut reader, &frame, USB_BUFFER_LEN), vec![Some(payload)]);
}

#[test]
fn frames_come_out_in_order_and_none_is_lost() {
    let payloads: Vec<Vec<u8>> = (0..30u8).map(|n| vec![n; n as usize * 3]).collect();
    let mut stream = Vec::new();
    for payload in &payloads {
        stream.extend(frame_of(payload));
    }
    let expected: Vec<Option<Vec<u8>>> = payloads.iter().map(|p| Some(p.clone())).collect();
    for size in [1, 5, 17, 63, 64] {
        let mut reader = FrameReader::new();
        let mut reports = read_in_pieces(&mut reader, &stream, size);
        // What is whole but not looked at yet comes with the next read.
        reports.extend(read(&mut reader, &[]));
        assert_eq!(reports, expected);
        assert_eq!(read(&mut reader, &[]), vec![]);
    }
}

#[test]
fn several_frames_can_come_in_one_read() {
    let mut data = frame_of(b"one");
    data.extend(frame_of(b""));
    data.extend(frame_of(b"three"));
    let mut reader = FrameReader::new();
    assert_eq!(
        read(&mut reader, &data),
        vec![Some(b"one".to_vec()), Some(vec![]), Some(b"three".to_vec())]
    );
}

#[test]
fn a_read_that_completes_a_frame_leaves_the_next_one_for_later() {
    let first = frame_of(b"first");
    let second = frame_of(b"second");
    let mut reader = FrameReader::new();
    assert_eq!(read(&mut reader, &first[..8]), vec![]);
    let mut rest = first[8..].to_vec();
    rest.extend(&second);
    assert_eq!(read(&mut reader, &rest), vec![Some(b"first".to_vec())]);
    assert_eq!(read(&mut reader, &[]), vec![Some(b"second".to_vec())]);
    assert_eq!(read(&mut reader, &[]), vec![]);
}

#[test]
fn noise_in_front_of_a_frame_is_skipped() {
    let mut data = vec![0x00, 0xaa, 0xcc, 0xaa, 0x11];
    data.extend(frame_of(b"x"));
    let mut reader = FrameReader::new();
    assert_eq!(read(&mut reader, &data), vec![Some(b"x".to_vec())]);
}

#[test]
fn endless_noise_does_no_harm() {
    let mut reader = FrameReader::new();
    for _ in 0..200 {
        assert_eq!(read(&mut reader, &[0x55; USB_BUFFER_LEN]), vec![]);
    }
    assert_eq!(read(&mut reader, &frame_of(b"still here")), vec![Some(b"still here".to_vec())]);
}

#[test]
fn a_damaged_frame_is_reported_and_the_next_one_delivered() {
    let mut data = frame_of(b"damaged");
    data[8] ^= 1;
    data.extend(frame_of(b"fine"));
    let mut reader = FrameReader::new();
    assert_eq!(read(&mut reader, &data), vec![None, Some(b"fine".to_vec())]);
}

#[test]
fn a_frame_that_is_too_long_is_ignored() {
    let mut data = vec![0xaa, 0xcc, 0xaa, 0xcc, 0xf9, 0x07, 1, 2, 3];
    data.extend(frame_of(b"next"));
    let mut reader = FrameReader::new();
    assert_eq!(read(&mut reader, &data), vec![Some(b"next".to_vec())]);
}

#[test]
fn delivered_payloads_stand_in_the_stream() {
    let mut data = frame_of(b"a");
    data.extend_from_slice(&[1, 2, 3]);
    data.extend(frame_of(b"bc"));
    let mut reader = FrameReader::new();
    for report in read(&mut reader, &data) {
        let payload = report.unwrap();
        let frame = frame_of(&payload);
        assert!(data.windows(frame.len()).any(|w| w == frame));
    }
}

#[test]
fn a_long_frame_loses_nothing_to_its_buffer() {
    let payload = vec![0x42; MAX_PAYLOAD_LEN];
    let frame = frame_of(&payload);
    let mut reader = FrameReader::new();
    // Odd pieces, so that the last read brings as much as it can behind the frame.
    assert_eq!(read_in_pieces(&mut reader, &frame[..2047], 23), vec![]);
    let mut last = frame[2047..].to_vec();
    last.extend_from_slice(&[0x55; 63]);
    assert_eq!(read(&mut reader, &last), vec![Some(payload)]);
}

#[test]
fn a_marker_inside_a_frame_that_comes_whole_is_data() {
    let payload = [1, 0xaa, 0xcc, 0xaa, 0xcc, 2, 0, 3];
    let mut reader = FrameReader::new();
    assert_eq!(read(&mut reader, &frame_of(&payload)), vec![Some(payload.to_vec())]);
}

#[test]
fn a_marker_at_the_front_of_a_payload_survives_an_early_cut() {
    let payload = [0xaa, 0xcc, 0xaa, 0xcc, 2, 0, 3];
    let frame = frame_of(&payload);
    let mut reader = FrameReader::new();
    assert_eq!(read(&mut reader, &frame[..11]), vec![]);
    assert_eq!(read(&mut reader, &frame[11..]), vec![Some(payload.to_vec())]);
}

#[test]
fn a_marker_behind_other_data_survives_any_cut() {
    let payload = [1, 0xaa, 0xcc, 0xaa, 0xcc, 2, 0, 3];
    let frame = frame_of(&payload);
    for cut in 0..=frame.len() {
        let mut reader = FrameReader::new();
        let mut reports = read(&mut reader, &frame[..cut]);
        reports.extend(read(&mut reader, &frame[cut..]));
        assert_eq!(reports, vec![Some(payload.to_vec())]);
    }
}

#[test]
fn a_frame_cut_in_front_of_its_checksum_is_delivered() {
    let payload = [0x01, 0xaa, 0xcc, 0xaa, 0xcc];
    let mut reader = FrameReader::new();
    let head = [0xaa, 0xcc, 0xaa, 0xcc, 0x05, 0x00, 0x01, 0xaa, 0xcc, 0xaa, 0xcc];
    assert_eq!(read(&mut reader, &head), vec![]);
    assert_eq!(read(&mut reader, &crc16(&payload).to_le_bytes()), vec![Some(payload.to_vec())]);
}

#[test]
fn a_frame_inside_a_frame_is_data() {
    let inner = frame_of(b"inner");
    let mut payload = vec![7];
    payload.extend(&inner);
    payload.extend_from_slice(&[8, 9]);
    let frame = frame_of(&payload);
    for size in 1..=frame.len() {
        let mut reader = FrameReader::new();
        assert_eq!(read_in_pieces(&mut reader, &frame, size), vec![Some(payload.clone())]);
    }
}

#[test]
fn noise_over_many_reads_is_skipped() {
    let payload = [1, 0xaa, 0xcc, 0xaa, 0xcc, 2];
    for len in [0, 1, 63, 64, 65, 2047, 2110, 2112, 2113, 5000] {
        let mut data: Vec<u8> = vec![0x55; len];
        if len >= 3 {
            data[len - 3..].copy_from_slice(&[0xaa, 0xcc, 0x00]);
        }
        data.extend(frame_of(&payload));
        for size in [1, 7, 63, 64] {
            let mut reader = FrameReader::new();
            assert_eq!(read_in_pieces(&mut reader, &data, size), vec![Some(payload.to_vec())]);
        }
    }
}

#[test]
fn deliveries_come_in_stream_order_and_do_not_overlap() {
    // Good frames, noise, a damaged frame and a frame that is too long.
    let mut all = Vec::new();
    for n in 0..25u8 {
        all.extend(frame_of(&vec![n; n as usize]));
        all.extend_from_slice(&[0x11, 0xaa, 0xcc]);
        let mut damaged = frame_of(&[n, 1]);
        damaged[7] ^= 0x10;
        all.extend(damaged);
        all.extend_from_slice(&[0xaa, 0xcc, 0xaa, 0xcc, 0xff, 0xff]);
    }
    for size in [1, 13, 64] {
        let mut reader = FrameReader::new();
        let mut reports = read_in_pieces(&mut reader, &all, size);
        reports.extend(read(&mut reader, &[]));
        let mut end = 0;
        for payload in reports.into_iter().flatten() {
            assert!(payload.len() <= MAX_PAYLOAD_LEN);
            let mut part = payload.clone();
            part.extend_from_slice(&crc16(&payload).to_le_bytes());
            let at = all[end..].windows(part.len()).position(|w| w == part);
            end += at.unwrap() + part.len();
        }
    }
}
