use mc_varint::{
    zigzag_decode_32, zigzag_decode_64, zigzag_encode_32, zigzag_encode_64, VarInt, VarIntError,
    VarIntRead, VarIntWrite, VarLong,
};
use std::collections::HashSet;

fn samples_32() -> Vec<i32> {
    let mut cond = HashSet::new();
    let mut i: i32 = 1;
    loop {
        cond.insert(i - 1);
        cond.insert(i);
        cond.insert(i.wrapping_add(1));
        cond.insert(-i - 1);
        cond.insert(-i);
        cond.insert(-i + 1);
        if i <= i32::MAX / 2 {
            i *= 2;
        } else {
            break;
        }
    }
    cond.insert(0);
    cond.insert(i32::MAX);
    cond.insert(i32::MIN);
    cond.into_iter().collect()
}

fn samples_64() -> Vec<i64> {
    let mut cond = HashSet::new();
    let mut i: i64 = 1;
    loop {
        cond.insert(i - 1);
        cond.insert(i);
        cond.insert(i.wrapping_add(1));
        cond.insert(-i - 1);
        cond.insert(-i);
        cond.insert(-i + 1);
        if i <= i64::MAX / 2 {
            i *= 2;
        } else {
            break;
        }
    }
    cond.insert(0);
    cond.insert(i64::MAX);
    cond.insert(i64::MIN);
    cond.into_iter().collect()
}

#[test]
fn var_int_beat_matching() {
    for num in samples_32() {
        let mut cur: Vec<u8> = Vec::new();
        cur.write_var_int(VarInt::from(num));
        let mut src: &[u8] = &cur;
        let num1 = i32::from(src.read_var_int().unwrap());
        assert_eq!(num, num1);
    }
}

#[test]
fn var_long_beat_matching() {
    for num in samples_64() {
        let mut cur: Vec<u8> = Vec::new();
        cur.write_var_long(VarLong::from(num));
        let mut src: &[u8] = &cur;
        let num1 = i64::from(src.read_var_long().unwrap());
        assert_eq!(num, num1);
    }
}

#[test]
fn signed_round_trip_consumes_whole_encoding() {
    for num in samples_32() {
        let mut out: Vec<u8> = vec![0xaa];
        let n = out.write_var_i32(num);
        assert_eq!(n + 1, out.len());
        out.push(0xff);
        let mut src: &[u8] = &out[1..];
        assert_eq!(Ok(num), src.read_var_i32());
        assert_eq!(src, &[0xff][..]);
    }
    for num in samples_64() {
        let mut out: Vec<u8> = Vec::new();
        out.write_var_i64(num);
        let mut src: &[u8] = &out;
        assert_eq!(Ok(num), src.read_var_i64());
        assert!(src.is_empty());
    }
}

#[test]
fn unsigned_round_trip() {
    let cond32 = [0u32, 1, 2, 3, 127, 128, 255, 256, 0x7fff_ffff, 0x8000_0000, u32::MAX - 1, u32::MAX];
    for u in cond32.iter() {
        let mut out: Vec<u8> = Vec::new();
        out.write_var_u32(*u);
        let mut src: &[u8] = &out;
        assert_eq!(Ok(*u), src.read_var_u32());
    }
    let cond64 = [0u64, 1, 2, 3, 127, 128, 0xffff_ffff, 1 << 63, u64::MAX - 1, u64::MAX];
    for u in cond64.iter() {
        let mut out: Vec<u8> = Vec::new();
        out.write_var_u64(*u);
        let mut src: &[u8] = &out;
        assert_eq!(Ok(*u), src.read_var_u64());
    }
}

#[test]
fn unsigned_path_bytes() {
    let mut out: Vec<u8> = Vec::new();
    assert_eq!(1, out.write_var_u32(2));
    assert_eq!(out, vec![0x01]);
    let mut out: Vec<u8> = Vec::new();
    assert_eq!(5, out.write_var_u32(1));
    assert_eq!(out, vec![0xff, 0xff, 0xff, 0xff, 0x0f]);
    let mut src: &[u8] = &[0x01];
    assert_eq!(Ok(2), src.read_var_u32());
    let mut src: &[u8] = &[0xff, 0xff, 0xff, 0xff, 0x0f];
    assert_eq!(Ok(1), src.read_var_u32());
    let mut out: Vec<u8> = Vec::new();
    assert_eq!(10, out.write_var_u64(1));
    assert_eq!(out, vec![0xff, 0xff, 0xff, 0xff, 0xff, 0xff, 0xff, 0xff, 0xff, 0x01]);
    let mut src: &[u8] = &out;
    assert_eq!(Ok(1), src.read_var_u64());
}

#[test]
fn encoded_lengths_are_minimal() {
    let cond32 = [
        (0, 1),
        (63, 1),
        (127, 1),
        (128, 2),
        (16383, 2),
        (16384, 3),
        (2097151, 3),
        (2097152, 4),
        (268435455, 4),
        (268435456, 5),
        (i32::MAX, 5),
        (-1, 5),
        (i32::MIN, 5),
    ];
    for (num, len) in cond32.iter() {
        let mut out: Vec<u8> = Vec::new();
        assert_eq!(*len, out.write_var_i32(*num));
        assert_eq!(*len, out.len());
        assert_eq!(*len, VarInt::from(*num).len());
    }
    let cond64 = [(0i64, 1usize), (127, 1), (128, 2), (i64::MAX, 9), (-1, 10), (i64::MIN, 10)];
    for (num, len) in cond64.iter() {
        let mut out: Vec<u8> = Vec::new();
        assert_eq!(*len, out.write_var_i64(*num));
        assert_eq!(*len, VarLong::from(*num).len());
    }
}

#[test]
fn var_long_write_exact() {
    let cond = [
        (0i64, vec![0x00]),
        (1, vec![0x01]),
        (128, vec![0x80, 0x01]),
        (i64::MAX, vec![0xff, 0xff, 0xff, 0xff, 0xff, 0xff, 0xff, 0xff, 0x7f]),
        (-1, vec![0xff, 0xff, 0xff, 0xff, 0xff, 0xff, 0xff, 0xff, 0xff, 0x01]),
        (i64::MIN, vec![0x80, 0x80, 0x80, 0x80, 0x80, 0x80, 0x80, 0x80, 0x80, 0x01]),
    ];
    for (num, raw) in cond.iter() {
        let mut out: Vec<u8> = Vec::new();
        out.write_var_i64(*num);
        assert_eq!(out, *raw);
        let mut src: &[u8] = raw;
        assert_eq!(Ok(*num), src.read_var_i64());
    }
}

#[test]
fn oversize_is_rejected_after_the_extra_byte() {
    let mut src: &[u8] = &[0xff, 0xff, 0xff, 0xff, 0xff, 0xff, 0x01];
    assert_eq!(Err(VarIntError::EncodingTooLong), src.read_var_i32());
    assert_eq!(src, &[0x01][..]);
    let mut src: &[u8] = &[0xff, 0xff, 0xff, 0xff, 0x0f];
    assert_eq!(Ok(-1), src.read_var_i32());
    let mut src: &[u8] = &[0x80; 11];
    assert_eq!(Err(VarIntError::EncodingTooLong), src.read_var_long());
    assert!(src.is_empty());
    let mut src: &[u8] = &[0x80; 10];
    assert_eq!(Err(VarIntError::UnexpectedEndOfInput), src.read_var_i64());
    assert!(src.is_empty());
}

#[test]
fn truncated_stream_is_rejected() {
    let mut src: &[u8] = &[0xff];
    assert_eq!(Err(VarIntError::UnexpectedEndOfInput), src.read_var_i32());
    assert!(src.is_empty());
    let mut src: &[u8] = &[];
    assert_eq!(Err(VarIntError::UnexpectedEndOfInput), src.read_var_u32());
    let mut src: &[u8] = &[0x80, 0x80];
    assert_eq!(Err(VarIntError::UnexpectedEndOfInput), src.read_var_u64());
}

#[test]
fn extra_data_is_left_unread() {
    let mut src: &[u8] = &[0x00, 0xff, 0xff];
    assert_eq!(Ok(0), src.read_var_i32());
    assert_eq!(src, &[0xff, 0xff][..]);
    let mut src: &[u8] = &[0x05, 0x06];
    assert_eq!(5, i64::from(src.read_var_long().unwrap()));
    assert_eq!(Ok(6), src.read_var_i64());
    assert!(src.is_empty());
}

#[test]
fn var_long_size_and_default() {
    assert_eq!(10, std::mem::size_of::<VarLong>());
    let d: VarLong = Default::default();
    assert_eq!(0, i64::from(d));
    let mut out: Vec<u8> = Vec::new();
    assert_eq!(1, out.write_var_long(VarLong::default()));
    assert_eq!(out, vec![0x00]);
}

#[test]
fn stored_encoding_is_written_verbatim() {
    let mut src: &[u8] = &[0x80, 0x00, 0x07];
    let v = src.read_var_int().unwrap();
    assert_eq!(2, v.len());
    assert_ne!(v, VarInt::default());
    let mut out: Vec<u8> = Vec::new();
    assert_eq!(2, out.write_var_int(v));
    assert_eq!(out, vec![0x80, 0x00]);
    let mut src: &[u8] = &[0x80, 0x00];
    assert_eq!(0, i32::from(src.read_var_int().unwrap()));
}

#[test]
fn representation_equality() {
    assert_eq!(VarInt::from(300), VarInt::from(300));
    assert_ne!(VarInt::from(300), VarInt::from(301));
    assert_eq!(VarInt::from(0), VarInt::default());
    assert_eq!(VarLong::from(-5), VarLong::from(-5));
    assert_ne!(VarLong::from(1), VarLong::from(-1));
}

#[test]
fn zigzag_values() {
    assert_eq!(0, zigzag_encode_32(0));
    assert_eq!(1, zigzag_encode_32(-1));
    assert_eq!(2, zigzag_encode_32(1));
    assert_eq!(3, zigzag_encode_32(-2));
    assert_eq!(u32::MAX - 1, zigzag_encode_32(i32::MAX));
    assert_eq!(u32::MAX, zigzag_encode_32(i32::MIN));
    assert_eq!(-1, zigzag_decode_32(1));
    assert_eq!(1, zigzag_decode_32(2));
    assert_eq!(i32::MIN, zigzag_decode_32(u32::MAX));
    assert_eq!(i32::MAX, zigzag_decode_32(u32::MAX - 1));
    assert_eq!(u64::MAX, zigzag_encode_64(i64::MIN));
    assert_eq!(u64::MAX - 1, zigzag_encode_64(i64::MAX));
    assert_eq!(3, zigzag_encode_64(-2));
    assert_eq!(i64::MIN, zigzag_decode_64(u64::MAX));
    assert_eq!(-2, zigzag_decode_64(3));
    for v in samples_32() {
        assert_eq!(v, zigzag_decode_32(zigzag_encode_32(v)));
    }
    for v in samples_64() {
        assert_eq!(v, zigzag_decode_64(zigzag_encode_64(v)));
    }
}
