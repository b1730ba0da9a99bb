use libnss::interop::CBuffer;

#[test]
fn clear_zeroes_and_keeps_cursor() {
    let mut buffer = CBuffer::new(vec![7u8; 10]);
    let off = buffer.reserve(3);
    assert_eq!(off, 0);
    buffer.clear();
    assert_eq!(buffer.pos, 3);
    assert!(buffer.data.iter().all(|b| *b == 0));
    assert_eq!(buffer.free_bytes(), 7);
}

#[test]
fn reserve_hands_out_sequential_spans() {
    let mut buffer = CBuffer::new(vec![0u8; 32]);
    assert_eq!(buffer.reserve(8), 0);
    assert_eq!(buffer.reserve(4), 8);
    assert_eq!(buffer.reserve(20), 12);
    assert_eq!(buffer.free_bytes(), 0);
}

#[test]
fn write_str_terminates_and_advances() {
    let mut buffer = CBuffer::new(vec![0xFFu8; 10]);
    buffer.clear();
    let off = buffer.write_str(&b"abc".to_vec());
    assert_eq!(off, 0);
    assert_eq!(buffer.pos, 4);
    assert_eq!(&buffer.data[0..4], b"abc\0");
    let off = buffer.write_str(&b"".to_vec());
    assert_eq!(off, 4);
    assert_eq!(buffer.data[4], 0);
    assert_eq!(buffer.pos, 5);
}

#[test]
fn write_strs_builds_slots_and_sentinel() {
    let mut buffer = CBuffer::new(vec![0u8; 100]);
    buffer.clear();
    let off = buffer.write_strs(&vec![b"a".to_vec(), b"bc".to_vec()]);
    assert_eq!(off, 0);
    // three slots of eight bytes, then "a\0" and "bc\0"
    assert_eq!(buffer.pos, 24 + 2 + 3);
    let d = buffer.data.as_slice();
    let w0 = u64::from_le_bytes(d[0..8].try_into().unwrap());
    let w1 = u64::from_le_bytes(d[8..16].try_into().unwrap());
    let w2 = u64::from_le_bytes(d[16..24].try_into().unwrap());
    assert_eq!(w0, 24);
    assert_eq!(w1, 26);
    assert_eq!(w2, 0);
    assert_eq!(&d[24..26], b"a\0");
    assert_eq!(&d[26..29], b"bc\0");
}

#[test]
fn put_word_encodes_little_endian() {
    let mut buffer = CBuffer::new(vec![0u8; 16]);
    buffer.clear();
    buffer.reserve(16);
    buffer.put_word(4, 0x0102030405060708);
    assert_eq!(&buffer.data[4..12], &[8, 7, 6, 5, 4, 3, 2, 1]);
    assert_eq!(&buffer.data[0..4], &[0, 0, 0, 0]);
    assert_eq!(&buffer.data[12..16], &[0, 0, 0, 0]);
}

#[test]
fn write_bytes_copies_exactly() {
    let mut buffer = CBuffer::new(vec![0xEEu8; 8]);
    buffer.clear();
    let off = buffer.write_bytes(&[10, 20, 30]);
    assert_eq!(off, 0);
    assert_eq!(buffer.pos, 3);
    assert_eq!(&buffer.data[0..3], &[10, 20, 30]);
    assert_eq!(&buffer.data[3..8], &[0, 0, 0, 0, 0]);
}
