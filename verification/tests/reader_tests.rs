use binary_reader::BinaryReader;
use binary_reader::Endian;
use binary_reader::ReadError;

#[test]
fn construct_from_slice() {
    let r = BinaryReader::from_u8(&[1, 2, 3]);
    assert_eq!(r.data, vec![1, 2, 3]);
    assert_eq!(r.pos, 0);
    assert_eq!(r.length, 3);
    assert_eq!(r.endian, Endian::Big);
}

#[test]
fn construct_from_vec() {
    let v: Vec<u8> = vec![9, 8, 7, 6];
    let r = BinaryReader::from_vec(&v);
    assert_eq!(r.data, v);
    assert_eq!(r.pos, 0);
    assert_eq!(r.length, 4);
    assert_eq!(r.endian, Endian::Big);
}

#[test]
fn positions_advance_by_width() {
    let mut r = BinaryReader::from_u8(&[0u8; 16]);
    assert_eq!(r.u8(), Ok(0));
    assert_eq!(r.pos, 1);
    assert_eq!(r.i8(), Ok(0));
    assert_eq!(r.pos, 2);
    assert_eq!(r.u16(), Ok(0));
    assert_eq!(r.pos, 4);
    assert_eq!(r.u32(), Ok(0));
    assert_eq!(r.pos, 8);
    assert_eq!(r.u64(), Ok(0));
    assert_eq!(r.pos, 16);
    let mut s = BinaryReader::from_u8(&[0u8; 16]);
    s.jmp(2);
    assert_eq!(s.i16(), Ok(0));
    assert_eq!(s.pos, 4);
    assert_eq!(s.i32(), Ok(0));
    assert_eq!(s.pos, 8);
    assert_eq!(s.i64(), Ok(0));
    assert_eq!(s.pos, 16);
}

#[test]
fn positions_advance_even_on_failure() {
    let mut r = BinaryReader::from_u8(&[1, 2]);
    r.jmp(1);
    assert_eq!(r.u32(), Err(ReadError::OutOfRange));
    assert_eq!(r.pos, 5);
    assert_eq!(r.read(3), None);
    assert_eq!(r.pos, 8);
}

#[test]
fn jmp_and_adv() {
    let mut r = BinaryReader::from_u8(&[0u8; 4]);
    r.jmp(3);
    assert_eq!(r.pos, 3);
    r.adv(2);
    assert_eq!(r.pos, 5);
    r.jmp(100);
    assert_eq!(r.pos, 100);
}

#[test]
fn align_rounds_up_and_is_idempotent() {
    let mut r = BinaryReader::from_u8(&[0u8; 16]);
    r.jmp(5);
    r.align(4);
    assert_eq!(r.pos, 8);
    r.align(4);
    assert_eq!(r.pos, 8);
    r.align(1);
    assert_eq!(r.pos, 8);
    r.jmp(0);
    r.align(8);
    assert_eq!(r.pos, 0);
    r.jmp(1);
    r.align(8);
    assert_eq!(r.pos, 8);
}

#[test]
fn read_returns_requested_bytes() {
    let mut r = BinaryReader::from_u8(&[10, 11, 12, 13, 14, 15]);
    assert_eq!(r.read(2), Some(vec![10, 11]));
    assert_eq!(r.pos, 2);
    assert_eq!(r.read(3), Some(vec![12, 13, 14]));
    assert_eq!(r.pos, 5);
}

#[test]
fn read_at_exact_end_succeeds_one_past_fails() {
    let data = [10u8, 11, 12, 13, 14, 15];
    let mut r = BinaryReader::from_u8(&data);
    r.jmp(data.len() - 2);
    assert_eq!(r.read(2), Some(vec![14, 15]));
    let mut s = BinaryReader::from_u8(&data);
    s.jmp(data.len() - 2 + 1);
    assert_eq!(s.read(2), None);
}

#[test]
fn scenario_two_u16_big_then_little() {
    let bytes = [0x00u8, 0x01, 0x00, 0x02];
    let mut r = BinaryReader::from_u8(&bytes);
    r.set_endian(Endian::Big);
    assert_eq!(r.u16(), Ok(1));
    assert_eq!(r.u16(), Ok(2));
    let mut s = BinaryReader::from_u8(&bytes);
    s.set_endian(Endian::Little);
    assert_eq!(s.u16(), Ok(256));
}

#[test]
fn scenario_i8_and_u8_over_0xff() {
    let mut r = BinaryReader::from_u8(&[0xFF]);
    assert_eq!(r.i8(), Ok(-1));
    let mut s = BinaryReader::from_u8(&[0xFF]);
    assert_eq!(s.u8(), Ok(255));
}

#[test]
fn big_endian_reads_most_significant_first() {
    let mut r = BinaryReader::from_u8(&[0x12, 0x34, 0x56, 0x78, 0x01, 0x02, 0x03, 0x04]);
    assert_eq!(r.u32(), Ok(0x12345678));
    assert_eq!(r.u32(), Ok(0x01020304));
}

#[test]
fn little_endian_reads_least_significant_first() {
    let mut r = BinaryReader::from_u8(&[0x12, 0x34, 0x56, 0x78]);
    r.set_endian(Endian::Little);
    assert_eq!(r.u32(), Ok(0x78563412));
}

#[test]
fn endianness_differs_on_non_palindromic_bytes() {
    let bytes2 = [0x12u8, 0x34];
    let mut big = BinaryReader::from_u8(&bytes2);
    let mut little = BinaryReader::from_u8(&bytes2);
    little.set_endian(Endian::Little);
    assert_ne!(big.u16().unwrap(), little.u16().unwrap());

    let bytes8 = [1u8, 2, 3, 4, 5, 6, 7, 8];
    let mut big8 = BinaryReader::from_u8(&bytes8);
    let mut little8 = BinaryReader::from_u8(&bytes8);
    little8.set_endian(Endian::Little);
    assert_ne!(big8.u64().unwrap(), little8.u64().unwrap());
}

#[test]
fn endianness_is_byte_order_reversal() {
    let bytes = [0xDEu8, 0xAD, 0xBE, 0xEF];
    let mut reversed = bytes;
    reversed.reverse();
    let mut little = BinaryReader::from_u8(&bytes);
    little.set_endian(Endian::Little);
    let mut big = BinaryReader::from_u8(&reversed);
    assert_eq!(little.u32().unwrap(), big.u32().unwrap());
}

#[test]
fn unsigned_round_trips() {
    for value in [0u16, 1, 0x1234, u16::MAX] {
        let mut r = BinaryReader::from_u8(&value.to_be_bytes());
        assert_eq!(r.u16(), Ok(value));
        let mut r = BinaryReader::from_u8(&value.to_le_bytes());
        r.set_endian(Endian::Little);
        assert_eq!(r.u16(), Ok(value));
    }
    for value in [0u32, 1, 0xDEADBEEF, u32::MAX] {
        let mut r = BinaryReader::from_u8(&value.to_be_bytes());
        assert_eq!(r.u32(), Ok(value));
        let mut r = BinaryReader::from_u8(&value.to_le_bytes());
        r.set_endian(Endian::Little);
        assert_eq!(r.u32(), Ok(value));
    }
    for value in [0u64, 1, 0x0102030405060708, u64::MAX] {
        let mut r = BinaryReader::from_u8(&value.to_be_bytes());
        assert_eq!(r.u64(), Ok(value));
        let mut r = BinaryReader::from_u8(&value.to_le_bytes());
        r.set_endian(Endian::Little);
        assert_eq!(r.u64(), Ok(value));
    }
    for value in [0u8, 1, 0x7F, 0x80, u8::MAX] {
        let mut r = BinaryReader::from_u8(&[value]);
        assert_eq!(r.u8(), Ok(value));
    }
}

#[test]
fn signed_round_trips() {
    for value in [0i16, 1, -1, 0x1234, -0x1234, i16::MIN, i16::MAX] {
        let mut r = BinaryReader::from_u8(&value.to_be_bytes());
        assert_eq!(r.i16(), Ok(value));
        let mut r = BinaryReader::from_u8(&value.to_le_bytes());
        r.set_endian(Endian::Little);
        assert_eq!(r.i16(), Ok(value));
    }
    for value in [0i32, 1, -1, 0x12345678, -0x12345678, i32::MIN, i32::MAX] {
        let mut r = BinaryReader::from_u8(&value.to_be_bytes());
        assert_eq!(r.i32(), Ok(value));
        let mut r = BinaryReader::from_u8(&value.to_le_bytes());
        r.set_endian(Endian::Little);
        assert_eq!(r.i32(), Ok(value));
    }
    for value in [0i64, 1, -1, 0x0102030405060708, -0x0102030405060708, i64::MIN, i64::MAX] {
        let mut r = BinaryReader::from_u8(&value.to_be_bytes());
        assert_eq!(r.i64(), Ok(value));
        let mut r = BinaryReader::from_u8(&value.to_le_bytes());
        r.set_endian(Endian::Little);
        assert_eq!(r.i64(), Ok(value));
    }
    for value in [0i8, 1, -1, i8::MIN, i8::MAX] {
        let mut r = BinaryReader::from_u8(&value.to_be_bytes());
        assert_eq!(r.i8(), Ok(value));
    }
}

#[test]
fn out_of_range_reads_fail() {
    let mut r = BinaryReader::from_u8(&[1, 2, 3]);
    r.jmp(2);
    assert_eq!(r.u16(), Err(ReadError::OutOfRange));
    r.jmp(0);
    assert_eq!(r.u32(), Err(ReadError::OutOfRange));
    assert_eq!(r.u64(), Err(ReadError::OutOfRange));
    assert_eq!(r.i16(), Err(ReadError::OutOfRange));
    assert_eq!(r.i32(), Err(ReadError::OutOfRange));
    assert_eq!(r.i64(), Err(ReadError::OutOfRange));
    r.jmp(3);
    assert_eq!(r.u8(), Err(ReadError::OutOfRange));
    assert_eq!(r.i8(), Err(ReadError::OutOfRange));
    let mut empty = BinaryReader::from_u8(&[]);
    assert_eq!(empty.u8(), Err(ReadError::OutOfRange));
}

#[test]
fn cstr_reads_up_to_terminator() {
    let mut r = BinaryReader::from_u8(&[0x61, 0x62, 0x63, 0x00, 0x64, 0x65]);
    assert_eq!(r.cstr(), Ok("abc".to_string()));
    assert_eq!(r.pos, 4);
}

#[test]
fn cstr_reads_consecutive_strings() {
    let mut r = BinaryReader::from_u8(&[0x61, 0x00, 0x62, 0x63, 0x00]);
    assert_eq!(r.cstr(), Ok("a".to_string()));
    assert_eq!(r.cstr(), Ok("bc".to_string()));
    assert_eq!(r.pos, 5);
}

#[test]
fn cstr_empty_string() {
    let mut r = BinaryReader::from_u8(&[0x00, 0x61]);
    assert_eq!(r.cstr(), Ok(String::new()));
    assert_eq!(r.pos, 1);
}

#[test]
fn cstr_without_terminator_fails() {
    let mut r = BinaryReader::from_u8(&[0x61, 0x62, 0x63]);
    assert_eq!(r.cstr(), Err(ReadError::Unterminated));
    assert_eq!(r.pos, 0);
    r.jmp(7);
    assert_eq!(r.cstr(), Err(ReadError::Unterminated));
    assert_eq!(r.pos, 7);
}

#[test]
fn cstr_with_invalid_utf8_fails_past_terminator() {
    let mut r = BinaryReader::from_u8(&[0xFF, 0xFE, 0x00, 0x61]);
    assert_eq!(r.cstr(), Err(ReadError::InvalidUtf8));
    assert_eq!(r.pos, 3);
}

#[test]
fn cstr_decodes_multi_byte_utf8() {
    let mut r = BinaryReader::from_u8(&[0xC3, 0xA9, 0x00]);
    let s = r.cstr().unwrap();
    assert_eq!(s, "\u{e9}");
    assert_eq!(s.chars().count(), 1);
    assert_eq!(r.pos, 3);
}

#[test]
fn byte_order_takes_effect_on_subsequent_reads() {
    let mut r = BinaryReader::from_u8(&[0x00, 0x01, 0x00, 0x01]);
    assert_eq!(r.u16(), Ok(1));
    r.set_endian(Endian::Little);
    assert_eq!(r.u16(), Ok(256));
    assert_eq!(r.endian, Endian::Little);
}
