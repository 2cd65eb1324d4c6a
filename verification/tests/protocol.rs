use kv_mvcc::protocol::{decode_msg, try_decode_msg, write_msg, BitCursor, BitWriter, OP};

#[test]
fn cursor_reads_most_significant_bit_first() {
    let buf = [0b1010_0000u8, 0xFF];
    let mut cur = BitCursor::new(&buf);
    assert_eq!(cur.read_bits(3), Ok(0b101));
    assert_eq!(cur.stream_position(), 3);
    assert_eq!(cur.read_bits(7), Ok(0b00000_11));
    assert_eq!(cur.stream_position(), 10);
    assert_eq!(cur.read_bits(6), Ok(0b111111));
    assert_eq!(cur.read_bits(0), Ok(0));
}

#[test]
fn cursor_reads_64_bits_and_no_more() {
    let buf = [0x01u8, 0x23, 0x45, 0x67, 0x89, 0xAB, 0xCD, 0xEF, 0x00];
    let mut cur = BitCursor::new(&buf);
    assert_eq!(cur.read_bits(65), Err("cannot read more than 64 bits into u64"));
    assert_eq!(cur.stream_position(), 0);
    assert_eq!(cur.read_bits(64), Ok(0x0123_4567_89AB_CDEF));
}

#[test]
fn cursor_refuses_to_read_past_the_end() {
    let buf = [0xFFu8];
    let mut cur = BitCursor::new(&buf);
    assert_eq!(cur.read_bits(5), Ok(0b11111));
    assert_eq!(cur.read_bits(4), Err("read past end of buffer"));
    assert_eq!(cur.stream_position(), 5);
    assert_eq!(cur.read_bits(3), Ok(0b111));
}

#[test]
fn cursor_advance() {
    let buf = [0x0Fu8, 0xF0];
    let mut cur = BitCursor::new(&buf);
    assert_eq!(cur.advance(4), Ok(()));
    assert_eq!(cur.read_bits(8), Ok(0xFF));
    assert_eq!(cur.advance(5), Err("advance past end of buffer"));
    assert_eq!(cur.stream_position(), 12);
    assert_eq!(cur.advance(usize::MAX), Err("bit position overflow"));
    assert_eq!(cur.advance(4), Ok(()));
    assert_eq!(cur.stream_position(), 16);
}

#[test]
fn writer_packs_bits_most_significant_first() {
    let mut w = BitWriter::new();
    assert_eq!(w.write_bits(0b101, 3), Ok(()));
    assert_eq!(w.stream_position(), 3);
    assert_eq!(w.write_bits(0xFFFF, 6), Ok(()));
    assert_eq!(w.stream_position(), 9);
    assert_eq!(w.finish(), vec![0b1011_1111, 0b1000_0000]);
}

#[test]
fn writer_keeps_only_the_low_bits() {
    let mut w = BitWriter::new();
    assert_eq!(w.write_bits(0x1F3, 4), Ok(()));
    assert_eq!(w.finish(), vec![0x30]);
}

#[test]
fn writer_refuses_more_than_64_bits() {
    let mut w = BitWriter::new();
    assert_eq!(w.write_bits(1, 65), Err("too many bits"));
    assert_eq!(w.stream_position(), 0);
    assert_eq!(w.write_bits(u64::MAX, 64), Ok(()));
    assert_eq!(w.finish(), vec![0xFF; 8]);
}

#[test]
fn writer_advance_skips_written_bits_only() {
    let mut w = BitWriter::new();
    assert_eq!(w.advance(1), Err("advance past end of buffer"));
    assert_eq!(w.write_bits(0, 2), Ok(()));
    assert_eq!(w.advance(6), Ok(()));
    assert_eq!(w.stream_position(), 8);
    assert_eq!(w.advance(1), Err("advance past end of buffer"));
    assert_eq!(w.advance(usize::MAX), Err("bit position overflow"));
    assert_eq!(w.write_bits(0b11, 2), Ok(()));
    assert_eq!(w.finish(), vec![0x00, 0xC0]);
}

#[test]
fn writer_advance_keeps_old_bits() {
    let mut w = BitWriter::new();
    assert_eq!(w.write_bits(0xFF, 8), Ok(()));
    let mut w2 = BitWriter::new();
    assert_eq!(w2.write_bits(0b1, 1), Ok(()));
    assert_eq!(w2.advance(7), Ok(()));
    assert_eq!(w2.write_bits(0b1, 1), Ok(()));
    assert_eq!(w2.finish(), vec![0x80, 0x80]);
    assert_eq!(w.finish(), vec![0xFF]);
}

#[test]
fn writer_bytes_need_not_be_aligned() {
    let mut w = BitWriter::new();
    assert_eq!(w.write_bits(0b1, 1), Ok(()));
    assert_eq!(w.write_bytes(&[0xFF, 0x00]), Ok(()));
    assert_eq!(w.stream_position(), 17);
    assert_eq!(w.finish(), vec![0xFF, 0x80, 0x00]);
}

#[test]
fn read_gives_back_what_was_written() {
    let cases: [(u64, usize); 5] = [(0, 1), (5, 3), (0xABCD, 16), (0x1_2345_6789, 33), (u64::MAX, 64)];
    let mut w = BitWriter::new();
    assert_eq!(w.write_bits(0b1, 3), Ok(()));
    for (v, n) in cases.iter() {
        assert_eq!(w.write_bits(*v, *n), Ok(()));
    }
    let bytes = w.finish();
    let mut cur = BitCursor::new(&bytes);
    assert_eq!(cur.read_bits(3), Ok(1));
    for (v, n) in cases.iter() {
        let mask = if *n == 64 { u64::MAX } else { (1u64 << n) - 1 };
        assert_eq!(cur.read_bits(*n), Ok(v & mask));
    }
}

#[test]
fn write_msg_get_layout() {
    assert_eq!(write_msg(OP::Get, "a", "ignored"), Ok(vec![0x00, 0x00, 0x00, 0x00, 0x58, 0x40]));
}

#[test]
fn write_msg_add_layout() {
    assert_eq!(
        write_msg(OP::Add, "your", "mom"),
        Ok(vec![
            0x40, 0x00, 0x00, 0x01, 0x1E, 0x5B, 0xDD, 0x5C, 0x80, 0x00, 0x00, 0x00, 0xDB, 0x5B,
            0xDB, 0x40
        ])
    );
}

#[test]
fn write_msg_remove_empty_key() {
    assert_eq!(write_msg(OP::Remove, "", ""), Ok(vec![0xC0, 0x00, 0x00, 0x00, 0x00]));
}

fn roundtrip(op: OP, key: &str, value: &str) {
    let bytes = write_msg(op, key, value).unwrap();
    let mut cur = BitCursor::new(&bytes);
    let action = decode_msg(&mut cur);
    assert_eq!(action.op, op);
    assert_eq!(action.key, key);
    match op {
        OP::Add | OP::Update => assert_eq!(action.value, value),
        OP::Get | OP::Remove => assert_eq!(action.value, ""),
    }
    let bits = 34 + 8 * key.len() + if matches!(op, OP::Add | OP::Update) { 32 + 8 * value.len() } else { 0 };
    assert_eq!(cur.stream_position(), bits);
    assert_eq!(bytes.len(), (bits + 7) / 8);
}

#[test]
fn decode_gives_back_what_write_msg_encoded() {
    roundtrip(OP::Get, "your", "");
    roundtrip(OP::Add, "your", "mom");
    roundtrip(OP::Update, "clé", "größe ✓");
    roundtrip(OP::Remove, "k", "dropped");
    roundtrip(OP::Add, "", "");
}

#[test]
fn decode_ignores_what_follows() {
    let mut bytes = write_msg(OP::Update, "k", "v").unwrap();
    bytes.extend_from_slice(&[0xAB; 10]);
    let mut cur = BitCursor::new(&bytes);
    let action = decode_msg(&mut cur);
    assert_eq!(action.op, OP::Update);
    assert_eq!(action.key, "k");
    assert_eq!(action.value, "v");
    assert_eq!(cur.stream_position(), 34 + 8 + 32 + 8);
}

#[test]
fn decode_replaces_invalid_utf8() {
    // Get, key of one byte 0xFF.
    let mut w = BitWriter::new();
    w.write_bits(0, 2).unwrap();
    w.write_bits(1, 32).unwrap();
    w.write_bytes(&[0xFF]).unwrap();
    let bytes = w.finish();
    let mut cur = BitCursor::new(&bytes);
    let action = decode_msg(&mut cur);
    assert_eq!(action.op, OP::Get);
    assert_eq!(action.key, "\u{FFFD}");
}

#[test]
fn try_decode_rejects_a_truncated_request() {
    let bytes = write_msg(OP::Add, "key", "value").unwrap();
    let short = &bytes[..bytes.len() - 2];
    let mut cur = BitCursor::new(short);
    assert!(try_decode_msg(&mut cur).is_none());
    assert_eq!(cur.stream_position(), 0);
    let mut cur = BitCursor::new(&[]);
    assert!(try_decode_msg(&mut cur).is_none());
    let mut cur = BitCursor::new(&bytes);
    let action = try_decode_msg(&mut cur).unwrap();
    assert_eq!(action.key, "key");
    assert_eq!(action.value, "value");
}

#[test]
fn decode_from_a_later_position() {
    let bytes = write_msg(OP::Get, "ab", "").unwrap();
    let mut w = BitWriter::new();
    w.write_bits(0b101, 3).unwrap();
    w.write_bytes(&bytes).unwrap();
    let shifted = w.finish();
    let mut cur = BitCursor::new(&shifted);
    cur.advance(3).unwrap();
    let action = decode_msg(&mut cur);
    assert_eq!(action.op, OP::Get);
    assert_eq!(action.key, "ab");
}

#[test]
fn get_and_remove_do_not_encode_the_value() {
    assert_eq!(write_msg(OP::Remove, "", "ignored"), Ok(vec![0xC0u8, 0x00, 0x00, 0x00, 0x00]));
    assert_eq!(write_msg(OP::Get, "k", "one"), write_msg(OP::Get, "k", "another"));
    assert_ne!(write_msg(OP::Add, "k", "one"), write_msg(OP::Add, "k", "another"));
}

#[test]
fn two_writes_are_one_write_of_both() {
    let mut w1 = BitWriter::new();
    w1.write_bits(0b1_0110, 5).unwrap();
    w1.write_bits(0xFF_0055, 7).unwrap();
    let mut w2 = BitWriter::new();
    w2.write_bits((0b1_0110 << 7) | 0x55, 12).unwrap();
    assert_eq!(w1.stream_position(), w2.stream_position());
    assert_eq!(w1.finish(), w2.finish());
}

#[test]
fn writer_holds_just_the_bytes_it_needs() {
    let mut w = BitWriter::new();
    w.write_bits(0x7, 3).unwrap();
    assert_eq!(w.stream_position(), 3);
    w.write_bytes(&[0xAA]).unwrap();
    assert_eq!(w.stream_position(), 11);
    w.advance(2).unwrap();
    let pos = w.stream_position();
    let bytes = w.finish();
    assert_eq!(bytes.len(), (pos + 7) / 8);
    assert_eq!(bytes, vec![0xF5, 0x40]);
}
