use clortho::varint::{
    read_varint_signed, read_varint_unsigned, write_varint_signed, write_varint_unsigned,
    VARINT_SIGNED_ZERO_ENC,
};

#[test]
fn test_varint_unsigned() {
    let mut numbers = [0_u32, 123, u8::MAX.into(), u16::MAX.into(), u32::MAX];
    let mut asc_byte_arrays = vec![];

    for i in &numbers {
        let mut buf = vec![];
        write_varint_unsigned(*i, &mut buf);
        asc_byte_arrays.push(buf);
    }

    asc_byte_arrays.sort();
    numbers.sort();

    assert_eq!(asc_byte_arrays.len(), numbers.len());

    for (expected, asc_buf) in numbers.iter().zip(asc_byte_arrays) {
        let mut actual = 0_u32;
        let rem = read_varint_unsigned(&mut actual, &asc_buf);
        assert_eq!(actual, *expected);
        assert!(rem.is_empty());
    }
}

#[test]
fn test_varint_signed() {
    let mut numbers = [
        0_i64,
        i8::MIN.into(),
        i8::MAX.into(),
        u8::MAX.into(),
        i16::MIN.into(),
        i16::MAX.into(),
        u16::MAX.into(),
        i32::MIN.into(),
        i32::MAX.into(),
        u32::MAX.into(),
        i64::MIN,
        i64::MAX,
    ];
    let mut asc_byte_arrays = vec![];

    for i in &numbers {
        let mut buf = vec![];
        write_varint_signed(*i, &mut buf);
        asc_byte_arrays.push(buf);
    }

    asc_byte_arrays.sort();
    numbers.sort();

    assert_eq!(asc_byte_arrays.len(), numbers.len());

    for (expected, asc_buf) in numbers.iter().zip(asc_byte_arrays) {
        let mut actual = 0_i64;
        let rem = read_varint_signed(&mut actual, &asc_buf);
        assert_eq!(actual, *expected);
        assert!(rem.is_empty());
    }
}

#[test]
fn test_varint_signed_zero_constant() {
    let encoded = [VARINT_SIGNED_ZERO_ENC];
    let mut i = 999_i64;
    read_varint_signed(&mut i, &encoded);
    assert_eq!(i, 0)
}

#[test]
fn varint_unsigned_exact_bytes() {
    let cases: Vec<(u32, Vec<u8>)> = vec![
        (0, vec![0]),
        (252, vec![252]),
        (253, vec![253, 0, 253]),
        (0xffff, vec![253, 255, 255]),
        (0x1_0000, vec![254, 0, 1, 0, 0]),
        (u32::MAX, vec![254, 255, 255, 255, 255]),
    ];
    for (v, bytes) in cases {
        let mut buf = vec![9_u8];
        write_varint_unsigned(v, &mut buf);
        assert_eq!(&buf[1..], bytes.as_slice());
        let mut back = 0_u32;
        let rem = read_varint_unsigned(&mut back, &buf[1..]);
        assert_eq!(back, v);
        assert!(rem.is_empty());
    }
}

#[test]
fn varint_signed_exact_bytes() {
    let cases: Vec<(i64, Vec<u8>)> = vec![
        (0, vec![103]),
        (148, vec![251]),
        (149, vec![252, 149]),
        (-99, vec![4]),
        (-100, vec![3, !100u8]),
        (-256, vec![2, 0xfe, 0xff]),
        (256, vec![253, 1, 0]),
        (-0x1_0000, vec![1, 0xff, 0xfe, 0xff, 0xff]),
        (0x1_0000_0000, vec![255, 0, 0, 0, 1, 0, 0, 0, 0]),
        (i64::MIN, vec![0, 0x80, 0, 0, 0, 0, 0, 0, 0]),
    ];
    for (v, bytes) in cases {
        let mut buf = vec![];
        write_varint_signed(v, &mut buf);
        assert_eq!(buf, bytes);
        let mut back = 0_i64;
        let rem = read_varint_signed(&mut back, &buf);
        assert_eq!(back, v);
        assert!(rem.is_empty());
    }
}

#[test]
fn varint_read_leaves_what_follows() {
    let mut buf = vec![];
    write_varint_unsigned(70000, &mut buf);
    buf.extend_from_slice(&[7, 8]);
    let mut v = 0_u32;
    let rem = read_varint_unsigned(&mut v, &buf);
    assert_eq!(v, 70000);
    assert_eq!(rem, &[7, 8]);
}
