use cdn_dns::errors::DnsError;
use cdn_dns::packet_buffer::PacketBuffer;

#[test]
fn new_is_zero_filled_at_origin() {
    let b = PacketBuffer::new();
    assert_eq!(b.pos(), 0);
    assert_eq!(b.get(0), Ok(0));
    assert_eq!(b.get(511), Ok(0));
}

#[test]
fn write_then_read_single_byte() {
    let mut b = PacketBuffer::new();
    assert_eq!(b.write(0xAB), Ok(()));
    assert_eq!(b.pos(), 1);
    b.seek(0).unwrap();
    assert_eq!(b.read(), Ok(0xAB));
    assert_eq!(b.pos(), 1);
}

#[test]
fn u16_wire_bytes_and_back() {
    let mut b = PacketBuffer::new();
    assert_eq!(b.write_u16(0x1234), Ok(()));
    assert_eq!(b.get(0), Ok(0x12));
    assert_eq!(b.get(1), Ok(0x34));
    b.seek(0).unwrap();
    assert_eq!(b.read_u16(), Ok(0x1234));
    assert_eq!(b.pos(), 2);
}

#[test]
fn u32_wire_bytes_and_back() {
    let mut b = PacketBuffer::new();
    assert_eq!(b.write_u32(0x12345678), Ok(()));
    assert_eq!(b.get(0), Ok(0x12));
    assert_eq!(b.get(1), Ok(0x34));
    assert_eq!(b.get(2), Ok(0x56));
    assert_eq!(b.get(3), Ok(0x78));
    b.seek(0).unwrap();
    assert_eq!(b.read_u32(), Ok(0x12345678));
    assert_eq!(b.pos(), 4);
}

#[test]
fn get_range_returns_exact_bytes() {
    let mut b = PacketBuffer::new();
    for v in [10u8, 20, 30, 40, 50] {
        b.write(v).unwrap();
    }
    let r = b.get_range(1, 3).unwrap();
    assert_eq!(r, &[20, 30, 40]);
    let whole = b.get_range(0, 5).unwrap();
    assert_eq!(whole, &[10, 20, 30, 40, 50]);
}

#[test]
fn get_range_end_at_or_past_capacity_fails() {
    let b = PacketBuffer::new();
    assert_eq!(b.get_range(500, 12).unwrap_err(), DnsError::IndexOutOfBound);
    assert_eq!(b.get_range(0, 512).unwrap_err(), DnsError::IndexOutOfBound);
    assert_eq!(b.get_range(512, 1).unwrap_err(), DnsError::IndexOutOfBound);
    assert_eq!(b.get_range(509, 2).unwrap().len(), 2);
}

#[test]
fn checked_access_at_capacity_fails() {
    let mut b = PacketBuffer::new();
    b.seek(512).unwrap();
    assert_eq!(b.read(), Err(DnsError::IndexOutOfBound));
    assert_eq!(b.pos(), 512);
    assert_eq!(b.write(7), Err(DnsError::IndexOutOfBound));
    assert_eq!(b.pos(), 512);
    assert_eq!(b.get(512), Err(DnsError::IndexOutOfBound));
    b.seek(600).unwrap();
    assert_eq!(b.read(), Err(DnsError::IndexOutOfBound));
    assert_eq!(b.pos(), 600);
}

#[test]
fn read_u16_truncated_at_end() {
    let mut b = PacketBuffer::new();
    b.seek(511).unwrap();
    assert_eq!(b.read_u16(), Err(DnsError::IndexOutOfBound));
    assert_eq!(b.pos(), 512);
}

#[test]
fn advance_and_seek_move_the_cursor() {
    let mut b = PacketBuffer::new();
    assert_eq!(b.advance(3), Ok(()));
    assert_eq!(b.pos(), 3);
    assert_eq!(b.seek(100), Ok(()));
    assert_eq!(b.pos(), 100);
}

#[test]
fn set_and_set_u16_backpatch_without_moving_cursor() {
    let mut b = PacketBuffer::new();
    b.write_u32(0xDEADBEEF).unwrap();
    assert_eq!(b.set(0, 0x01), Ok(()));
    assert_eq!(b.set_u16(2, 0xBEEF), Ok(()));
    assert_eq!(b.pos(), 4);
    assert_eq!(b.get(0), Ok(0x01));
    assert_eq!(b.get(2), Ok(0xBE));
    assert_eq!(b.get(3), Ok(0xEF));
}

#[test]
fn qname_encode_exact_bytes() {
    let mut b = PacketBuffer::new();
    assert_eq!(b.write_qname(b"abc.de"), Ok(()));
    assert_eq!(b.pos(), 8);
    let r = b.get_range(0, 8).unwrap();
    assert_eq!(r, &[3, b'a', b'b', b'c', 2, b'd', b'e', 0]);
}

#[test]
fn qname_round_trip_same_offset() {
    let mut b = PacketBuffer::new();
    assert_eq!(b.write_qname(b"abc.example.com"), Ok(()));
    assert_eq!(b.pos(), 17);
    b.seek(0).unwrap();
    let mut out = Vec::new();
    assert_eq!(b.read_qname(&mut out), Ok(()));
    assert_eq!(out, b"abc.example.com".to_vec());
    assert_eq!(b.pos(), 17);
}

#[test]
fn qname_decode_lowercases() {
    let mut b = PacketBuffer::new();
    b.write_qname(b"AbC.ExAmPlE.COM").unwrap();
    b.seek(0).unwrap();
    let mut out = Vec::new();
    b.read_qname(&mut out).unwrap();
    assert_eq!(out, b"abc.example.com".to_vec());
}

#[test]
fn qname_appends_to_accumulator() {
    let mut b = PacketBuffer::new();
    b.write_qname(b"example.com").unwrap();
    b.seek(0).unwrap();
    let mut out = b"query: ".to_vec();
    b.read_qname(&mut out).unwrap();
    assert_eq!(out, b"query: example.com".to_vec());
}

#[test]
fn empty_name_is_two_zero_bytes() {
    let mut b = PacketBuffer::new();
    assert_eq!(b.write_qname(b""), Ok(()));
    assert_eq!(b.pos(), 2);
    assert_eq!(b.get(0), Ok(0));
    assert_eq!(b.get(1), Ok(0));
    b.seek(0).unwrap();
    let mut out = Vec::new();
    assert_eq!(b.read_qname(&mut out), Ok(()));
    assert_eq!(out, Vec::<u8>::new());
    assert_eq!(b.pos(), 1);
}

#[test]
fn label_of_64_bytes_fails_with_label_length_error() {
    let mut b = PacketBuffer::new();
    let label = [b'a'; 64];
    assert_eq!(b.write_qname(&label), Err(DnsError::LabelLenLimit));
    assert_eq!(b.pos(), 0);
}

#[test]
fn label_of_63_bytes_round_trips() {
    let mut b = PacketBuffer::new();
    let label = [b'x'; 63];
    assert_eq!(b.write_qname(&label), Ok(()));
    assert_eq!(b.pos(), 65);
    b.seek(0).unwrap();
    let mut out = Vec::new();
    assert_eq!(b.read_qname(&mut out), Ok(()));
    assert_eq!(out, label.to_vec());
}

#[test]
fn long_label_after_valid_label_keeps_the_prefix() {
    let mut b = PacketBuffer::new();
    let mut name = b"ab.".to_vec();
    name.extend_from_slice(&[b'z'; 64]);
    assert_eq!(b.write_qname(&name), Err(DnsError::LabelLenLimit));
    assert_eq!(b.pos(), 3);
    assert_eq!(b.get_range(0, 3).unwrap(), &[2, b'a', b'b']);
}

#[test]
fn qname_out_of_room_fails_with_bounds_error() {
    let mut b = PacketBuffer::new();
    b.seek(510).unwrap();
    assert_eq!(b.write_qname(b"abc"), Err(DnsError::IndexOutOfBound));
    assert_eq!(b.pos(), 512);
}

#[test]
fn pointer_to_earlier_name_decodes_it() {
    let mut b = PacketBuffer::new();
    b.seek(12).unwrap();
    b.write_qname(b"abc.example.com").unwrap();
    assert_eq!(b.pos(), 29);
    // A second name that is a lone pointer to offset 12.
    b.write(0xC0).unwrap();
    b.write(12).unwrap();
    b.seek(29).unwrap();
    let mut out = Vec::new();
    assert_eq!(b.read_qname(&mut out), Ok(()));
    assert_eq!(out, b"abc.example.com".to_vec());
    assert_eq!(b.pos(), 31);
}

#[test]
fn pointer_after_literal_labels_joins_the_suffix() {
    let mut b = PacketBuffer::new();
    b.seek(12).unwrap();
    b.write_qname(b"example.com").unwrap();
    // At offset 40: "www" then a pointer back to offset 12.
    b.seek(40).unwrap();
    b.write(3).unwrap();
    b.write(b'w').unwrap();
    b.write(b'w').unwrap();
    b.write(b'w').unwrap();
    b.write(0xC0).unwrap();
    b.write(12).unwrap();
    b.seek(40).unwrap();
    let mut out = Vec::new();
    assert_eq!(b.read_qname(&mut out), Ok(()));
    assert_eq!(out, b"www.example.com".to_vec());
    assert_eq!(b.pos(), 46);
}

#[test]
fn five_pointer_jumps_succeed() {
    let mut b = PacketBuffer::new();
    // Pointers at 0, 10, 20, 30, 40, each to the next; a terminator at 50.
    for k in 0..5u8 {
        b.set(10 * k as usize, 0xC0).unwrap();
        b.set(10 * k as usize + 1, 10 * (k + 1)).unwrap();
    }
    b.set(50, 0).unwrap();
    b.seek(0).unwrap();
    let mut out = Vec::new();
    assert_eq!(b.read_qname(&mut out), Ok(()));
    assert_eq!(out, Vec::<u8>::new());
    assert_eq!(b.pos(), 2);
}

#[test]
fn six_pointer_jumps_fail_with_jump_limit() {
    let mut b = PacketBuffer::new();
    for k in 0..6u8 {
        b.set(10 * k as usize, 0xC0).unwrap();
        b.set(10 * k as usize + 1, 10 * (k + 1)).unwrap();
    }
    b.set(60, 0).unwrap();
    b.seek(0).unwrap();
    let mut out = Vec::new();
    assert_eq!(b.read_qname(&mut out), Err(DnsError::JumpsLimit(5)));
    assert_eq!(out, Vec::<u8>::new());
    assert_eq!(b.pos(), 2);
}

#[test]
fn pointer_cycle_fails_instead_of_looping() {
    let mut b = PacketBuffer::new();
    // Two pointers that point at each other.
    b.set(0, 0xC0).unwrap();
    b.set(1, 2).unwrap();
    b.set(2, 0xC0).unwrap();
    b.set(3, 0).unwrap();
    b.seek(0).unwrap();
    let mut out = Vec::new();
    assert_eq!(b.read_qname(&mut out), Err(DnsError::JumpsLimit(5)));
    assert_eq!(b.pos(), 2);
}

#[test]
fn name_running_past_capacity_fails() {
    let mut b = PacketBuffer::new();
    // A label claiming 63 bytes right at the top of the buffer.
    b.set(508, 63).unwrap();
    b.seek(508).unwrap();
    let mut out = Vec::new();
    assert_eq!(b.read_qname(&mut out), Err(DnsError::IndexOutOfBound));
    assert_eq!(out, Vec::<u8>::new());
    assert_eq!(b.pos(), 508);
}

#[test]
fn decode_at_capacity_fails_and_keeps_cursor() {
    let mut b = PacketBuffer::new();
    b.seek(512).unwrap();
    let mut out = Vec::new();
    assert_eq!(b.read_qname(&mut out), Err(DnsError::IndexOutOfBound));
    assert_eq!(b.pos(), 512);
}

#[test]
fn name_ending_exactly_at_capacity_round_trips() {
    let mut b = PacketBuffer::new();
    // The encoding takes 17 bytes, filling offsets 495 through 511.
    b.seek(495).unwrap();
    assert_eq!(b.write_qname(b"abc.example.com"), Ok(()));
    assert_eq!(b.pos(), 512);
    b.seek(495).unwrap();
    let mut out = Vec::new();
    assert_eq!(b.read_qname(&mut out), Ok(()));
    assert_eq!(out, b"abc.example.com".to_vec());
    assert_eq!(b.pos(), 512);
}

#[test]
fn name_one_byte_past_capacity_fails() {
    let mut b = PacketBuffer::new();
    b.seek(496).unwrap();
    assert_eq!(b.write_qname(b"abc.example.com"), Err(DnsError::IndexOutOfBound));
    assert_eq!(b.pos(), 512);
}

#[test]
fn read_u32_truncated_at_end() {
    let mut b = PacketBuffer::new();
    b.seek(509).unwrap();
    assert_eq!(b.read_u32(), Err(DnsError::IndexOutOfBound));
    assert_eq!(b.pos(), 512);
}
