use alphaid::{AlphaId, AlphaIdError};

#[test]
fn round_trip_full_u16_range_without_pad() {
    let a: AlphaId<u16> = AlphaId::new();
    for i in 0..=u16::MAX {
        let v = a.encode(i).unwrap();
        assert_eq!(a.decode(&v), Ok(i));
    }
}

#[test]
fn round_trip_full_u16_range_with_pad_two() {
    let a: AlphaId<u16> = AlphaId::builder().pad(2).build();
    for i in 0..=u16::MAX {
        let v = a.encode(i).unwrap();
        assert!(v.len() >= 2);
        assert_eq!(a.decode(&v), Ok(i));
    }
}

#[test]
fn round_trip_sampled_u32_with_pad_two() {
    let a: AlphaId<u32> = AlphaId::builder().pad(2).build();
    let mut i: u32 = 0;
    while i < u32::MAX - 7919 {
        let v = a.encode(i).unwrap();
        assert_eq!(a.decode(&v), Ok(i));
        i += 7919 * 13;
    }
    let v = a.encode(u32::MAX).unwrap();
    assert_eq!(a.decode(&v), Ok(u32::MAX));
}

#[test]
fn decode_undoes_padding_at_pad_three_and_four() {
    let a: AlphaId<u128> = AlphaId::builder().pad(3).build();
    assert_eq!(a.encode(0), Ok(b"aab".to_vec()));
    assert_eq!(a.decode(b"aab"), Ok(0));
    assert_eq!(a.decode(b"bab"), Ok(1));
    assert_eq!(a.decode(b"aaab"), Ok(64 * 64 * 64 - 64 * 64));
    let b: AlphaId<u32> = AlphaId::builder().pad(4).build();
    assert_eq!(b.encode(1), Ok(b"baab".to_vec()));
    assert_eq!(b.decode(b"baab"), Ok(1));
}

#[test]
fn round_trip_sampled_u64_with_pad_five() {
    let a: AlphaId<u64> = AlphaId::builder().pad(5).build();
    let mut i: u64 = 0;
    while i < u64::MAX / 2 {
        let v = a.encode(i).unwrap();
        assert!(v.len() >= 5);
        assert_eq!(a.decode(&v), Ok(i));
        i = i * 3 + 1;
    }
    for i in 0..70000u64 {
        let v = a.encode(i).unwrap();
        assert_eq!(a.decode(&v), Ok(i));
    }
    let v = a.encode(u64::MAX).unwrap();
    assert_eq!(a.decode(&v), Ok(u64::MAX));
}

#[test]
fn encode_documented_values() {
    let a = AlphaId::<u32>::new();
    assert_eq!(a.encode(1350997667), Ok(b"90F7qb".to_vec()));
    assert_eq!(a.decode(b"90F7qb"), Ok(1350997667));
    let b = AlphaId::<u64>::new();
    let v = b.encode(730087).unwrap();
    assert_eq!(b.decode(&v), Ok(730087));
}

#[test]
fn custom_alphabet_with_pad() {
    let a = AlphaId::<u32>::builder()
        .pad(2)
        .chars("ABCDEFGHIJKLMNOPQRSTUVWXYZ".as_bytes().to_vec())
        .build();
    assert_eq!(a.encode(0), Ok(b"AB".to_vec()));
    assert_eq!(a.decode(b"AB"), Ok(0));
    assert_eq!(a.encode(26), Ok(b"AC".to_vec()));
    assert_eq!(a.decode(b"a"), Err(AlphaIdError::UnexpectedChar));
}

#[test]
fn encode_length_reaches_pad() {
    let a: AlphaId<u64> = AlphaId::builder().pad(7).build();
    assert_eq!(a.encode(0), Ok(b"aaaaaab".to_vec()));
    assert_eq!(a.encode(u64::MAX).unwrap().len(), 11);
}

#[test]
fn pad_three_matches_offset_encoding() {
    let x: AlphaId<u64> = AlphaId::new();
    let z: AlphaId<u64> = AlphaId::builder().pad(3).build();
    assert_eq!(x.encode(4096 + 5), z.encode(5));
    assert_eq!(z.encode(5), Ok(b"fab".to_vec()));
}

#[test]
fn decode_overflow_in_small_type() {
    let a: AlphaId<u16> = AlphaId::new();
    assert_eq!(a.decode(b"aab"), Ok(4096));
    assert_eq!(a.decode(b"aaab"), Err(AlphaIdError::Overflow));
    assert_eq!(a.decode(b"___"), Err(AlphaIdError::Overflow));
    assert_eq!(a.decode(b"__p"), Ok(65535));
    assert_eq!(a.encode(65535), Ok(b"__p".to_vec()));
}

#[test]
fn decode_error_precedence() {
    let a: AlphaId<u128> = AlphaId::new();
    assert_eq!(
        a.decode(b"_______________________!"),
        Err(AlphaIdError::Overflow)
    );
    assert_eq!(
        a.decode(b"!_______________________"),
        Err(AlphaIdError::UnexpectedChar)
    );
    assert_eq!(a.decode(b""), Ok(0));
}

#[test]
fn decode_long_padding_run_overflows() {
    let a: AlphaId<u128> = AlphaId::builder().pad(2).build();
    let v = vec![b'a'; 30];
    assert_eq!(a.decode(&v), Err(AlphaIdError::Overflow));
    assert_eq!(a.decode(b"aab"), Ok(4032));
}
