use hadron::buffer::{LeReader, LeWriter};

#[test]
fn reads_u32_little_endian() {
    let mut r = LeReader::new(vec![0x78, 0x56, 0x34, 0x12, 0xff]);
    assert_eq!(r.read_u32(), 0x1234_5678);
    assert_eq!(r.read_bytes(10), vec![0xff]);
}

#[test]
fn reads_u64_little_endian() {
    let mut r = LeReader::new(vec![1, 2, 3, 4, 5, 6, 7, 8]);
    assert_eq!(r.read_u64(), 0x0807_0605_0403_0201);
}

#[test]
fn short_read_is_zero_filled() {
    let mut r = LeReader::new(vec![0x01, 0x02]);
    assert_eq!(r.read_u32(), 0x0201);
    assert_eq!(r.read_u32(), 0);
    assert_eq!(r.read_u64(), 0);
}

#[test]
fn read_bytes_stops_at_end() {
    let mut r = LeReader::new(vec![1, 2, 3]);
    assert_eq!(r.read_bytes(2), vec![1, 2]);
    assert_eq!(r.read_bytes(5), vec![3]);
    assert_eq!(r.read_bytes(5), Vec::<u8>::new());
    assert_eq!(r.read_bytes(usize::MAX), Vec::<u8>::new());
}

#[test]
fn read_bytes_huge_length_does_not_overflow() {
    let mut r = LeReader::new(vec![9, 8, 7]);
    r.read_bytes(1);
    assert_eq!(r.read_bytes(usize::MAX), vec![8, 7]);
}

#[test]
fn reads_string() {
    let mut r = LeReader::new(vec![3, 0, 0, 0, b'a', b'b', b'c', 7]);
    assert_eq!(r.read_string(), "abc");
    assert_eq!(r.read_bytes(1), vec![7]);
}

#[test]
fn reads_utf8_string() {
    let s = "héllo ✓";
    let mut data = (s.len() as u32).to_le_bytes().to_vec();
    data.extend_from_slice(s.as_bytes());
    let mut r = LeReader::new(data);
    assert_eq!(r.read_string(), s);
}

#[test]
fn invalid_utf8_is_replaced() {
    let mut r = LeReader::new(vec![3, 0, 0, 0, b'a', 0xff, b'b']);
    assert_eq!(r.read_string(), "a\u{FFFD}b");
}

#[test]
fn truncated_string_takes_what_is_there() {
    let mut r = LeReader::new(vec![10, 0, 0, 0, b'x', b'y']);
    assert_eq!(r.read_string(), "xy");
}

#[test]
fn writer_pushes_little_endian() {
    let mut w = LeWriter::new(16);
    w.push_u32(0x0102_0304);
    w.push_u64(0x1122_3344_5566_7788);
    w.push_bytes(&[9, 9]);
    assert_eq!(
        w.buf,
        vec![4, 3, 2, 1, 0x88, 0x77, 0x66, 0x55, 0x44, 0x33, 0x22, 0x11, 9, 9]
    );
}

#[test]
fn writer_frames_strings_by_utf8_length() {
    let mut w = LeWriter::new(0);
    w.push_string("é!");
    assert_eq!(w.buf, vec![3, 0, 0, 0, 0xc3, 0xa9, b'!']);
}

#[test]
fn written_values_read_back() {
    let mut w = LeWriter::new(0);
    w.push_u32(0xdead_beef);
    w.push_string("Goldleaf ★");
    w.push_u64(u64::MAX - 5);
    w.push_string("");
    let mut r = LeReader::new(w.buf.clone());
    assert_eq!(r.read_u32(), 0xdead_beef);
    assert_eq!(r.read_string(), "Goldleaf ★");
    assert_eq!(r.read_u64(), u64::MAX - 5);
    assert_eq!(r.read_string(), "");
    assert_eq!(r.read_bytes(1), Vec::<u8>::new());
}
