use bnc::codec::{decode_le, encode_le};
use bnc::{Error, NumKey};

#[test]
fn unsigned_keys_are_little_endian() {
    assert_eq!(0x12u8.to_bytes(), vec![0x12]);
    assert_eq!(0x0102u16.to_bytes(), vec![2, 1]);
    assert_eq!(0x01020304u32.to_bytes(), vec![4, 3, 2, 1]);
    assert_eq!(1u64.to_bytes(), vec![1, 0, 0, 0, 0, 0, 0, 0]);
    assert_eq!(u64::MAX.to_bytes(), vec![0xff; 8]);
    assert_eq!((1u128 << 120).to_bytes(), {
        let mut v = vec![0u8; 16];
        v[15] = 1;
        v
    });
    assert_eq!(7usize.to_bytes(), 7usize.to_le_bytes().to_vec());
    assert_eq!(usize::MAX.to_bytes(), usize::MAX.to_le_bytes().to_vec());
}

#[test]
fn signed_keys_are_twos_complement() {
    assert_eq!((-1i8).to_bytes(), vec![0xff]);
    assert_eq!(i8::MIN.to_bytes(), vec![0x80]);
    assert_eq!((-2i16).to_bytes(), vec![0xfe, 0xff]);
    assert_eq!((-2i32).to_bytes(), vec![0xfe, 0xff, 0xff, 0xff]);
    assert_eq!(i32::MAX.to_bytes(), vec![0xff, 0xff, 0xff, 0x7f]);
    assert_eq!(i64::MIN.to_bytes(), i64::MIN.to_le_bytes().to_vec());
    assert_eq!((-1i128).to_bytes(), vec![0xff; 16]);
    assert_eq!(i128::MIN.to_bytes(), i128::MIN.to_le_bytes().to_vec());
    assert_eq!(i128::MAX.to_bytes(), i128::MAX.to_le_bytes().to_vec());
    assert_eq!((-3isize).to_bytes(), (-3isize).to_le_bytes().to_vec());
    assert_eq!(isize::MIN.to_bytes(), isize::MIN.to_le_bytes().to_vec());
}

#[test]
fn keys_decode_to_what_was_encoded() {
    for k in [0u8, 1, 127, 128, 255] {
        assert_eq!(u8::from_bytes(&k.to_bytes()), Ok(k));
    }
    for k in [i8::MIN, -1, 0, 1, i8::MAX] {
        assert_eq!(i8::from_bytes(&k.to_bytes()), Ok(k));
    }
    for k in [i16::MIN, -1, 0, 1, i16::MAX] {
        assert_eq!(i16::from_bytes(&k.to_bytes()), Ok(k));
    }
    for k in [0u16, 1, 256, u16::MAX] {
        assert_eq!(u16::from_bytes(&k.to_bytes()), Ok(k));
    }
    for k in [i32::MIN, -1, 0, 1, i32::MAX] {
        assert_eq!(i32::from_bytes(&k.to_bytes()), Ok(k));
    }
    for k in [0u32, 1, 1 << 24, u32::MAX] {
        assert_eq!(u32::from_bytes(&k.to_bytes()), Ok(k));
    }
    for k in [i64::MIN, -1, 0, 1, i64::MAX] {
        assert_eq!(i64::from_bytes(&k.to_bytes()), Ok(k));
    }
    for k in [0u64, 1, 1 << 56, u64::MAX] {
        assert_eq!(u64::from_bytes(&k.to_bytes()), Ok(k));
    }
    for k in [i128::MIN, -1, 0, 1, i128::MAX] {
        assert_eq!(i128::from_bytes(&k.to_bytes()), Ok(k));
    }
    for k in [0u128, 1, 1 << 127, u128::MAX] {
        assert_eq!(u128::from_bytes(&k.to_bytes()), Ok(k));
    }
    for k in [isize::MIN, -1, 0, 1, isize::MAX] {
        assert_eq!(isize::from_bytes(&k.to_bytes()), Ok(k));
    }
    for k in [0usize, 1, usize::MAX] {
        assert_eq!(usize::from_bytes(&k.to_bytes()), Ok(k));
    }
}

#[test]
fn bytes_of_another_length_do_not_decode() {
    assert_eq!(u8::from_bytes(&[]), Err(Error::Decode));
    assert_eq!(u8::from_bytes(&[1, 2]), Err(Error::Decode));
    assert_eq!(i16::from_bytes(&[1]), Err(Error::Decode));
    assert_eq!(u32::from_bytes(&[1, 2, 3]), Err(Error::Decode));
    assert_eq!(u32::from_bytes(&[1, 2, 3, 4, 5]), Err(Error::Decode));
    assert_eq!(i64::from_bytes(&[0; 7]), Err(Error::Decode));
    assert_eq!(u128::from_bytes(&[0; 17]), Err(Error::Decode));
    assert_eq!(i128::from_bytes(&[0; 15]), Err(Error::Decode));
    assert_eq!(usize::from_bytes(&[0; 3]), Err(Error::Decode));
    assert_eq!(isize::from_bytes(&[0; 9]), Err(Error::Decode));
    assert_eq!(u32::from_bytes(&[4, 3, 2, 1]), Ok(0x01020304));
    assert_eq!(i16::from_bytes(&[0xfe, 0xff]), Ok(-2));
}

#[test]
fn codec_writes_the_lowest_byte_first() {
    assert_eq!(encode_le(0, 0), Vec::<u8>::new());
    assert_eq!(encode_le(0x0102, 2), vec![2, 1]);
    assert_eq!(encode_le(0x0102, 1), vec![2]);
    assert_eq!(encode_le(0x0102, 4), vec![2, 1, 0, 0]);
    assert_eq!(encode_le(u128::MAX, 16), vec![0xff; 16]);
    assert_eq!(encode_le(1, 18).len(), 18);
    assert_eq!(decode_le(&[]), 0);
    assert_eq!(decode_le(&[2, 1]), 0x0102);
    assert_eq!(decode_le(&[0, 0, 1]), 65536);
    assert_eq!(decode_le(&[0xff; 16]), u128::MAX);
}
