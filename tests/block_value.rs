use coap_hal_server::block_value::{BlockValue, InvalidBlockOption, InvalidBlockValue};

#[test]
fn test_highest_containing_power_of_2() {
    assert_eq!(BlockValue::largest_power_of_2_not_in_excess(0), None);
    assert_eq!(BlockValue::largest_power_of_2_not_in_excess(256), Some(8));
    assert_eq!(BlockValue::largest_power_of_2_not_in_excess(257), Some(8));
    // The largest power of two not above usize::MAX is 2^(BITS - 1).
    assert_eq!(
        BlockValue::largest_power_of_2_not_in_excess(usize::MAX),
        Some(usize::try_from(usize::BITS).unwrap() - 1)
    );
}

#[test]
fn test_block_value_exponent() {
    assert!(BlockValue::new(0, false, 0).is_err());
    assert!(BlockValue::new(0, false, usize::MAX).is_err());
    assert_eq!(
        BlockValue::new(0, false, 1158).unwrap(),
        BlockValue { num: 0, more: false, size_exponent: 6 }
    );
    assert_eq!(
        BlockValue::new(0, false, 256).unwrap(),
        BlockValue { num: 0, more: false, size_exponent: 4 }
    );
}

#[test]
fn block_value_errors() {
    assert_eq!(BlockValue::new(0, false, 15), Err(InvalidBlockValue::SizeExponentEncodingError(15)));
    assert_eq!(BlockValue::new(0, false, 4096), Err(InvalidBlockValue::SizeExponentEncodingError(4096)));
    assert_eq!(BlockValue::new(1 << 20, false, 16), Err(InvalidBlockValue::TypeBoundsError));
    assert_eq!(
        BlockValue::new(0xFFFFF, true, 4095).unwrap(),
        BlockValue { num: 0xFFFFF, more: true, size_exponent: 7 }
    );
    assert_eq!(BlockValue::new(3, false, 16).unwrap().size(), 16);
}

#[test]
fn block_value_encoding_bytes() {
    // num = 1, more, size 16: 1 << 4 | 1 << 3 | 0 = 0x18.
    assert_eq!(BlockValue { num: 1, more: true, size_exponent: 0 }.encode(), vec![0x18]);
    assert_eq!(BlockValue { num: 0, more: false, size_exponent: 0 }.encode(), Vec::<u8>::new());
    // num = 0x123, size exponent 6: 0x1236.
    assert_eq!(BlockValue { num: 0x123, more: false, size_exponent: 6 }.encode(), vec![0x12, 0x36]);
    assert_eq!(
        BlockValue { num: 0xFFFFF, more: true, size_exponent: 7 }.encode(),
        vec![0xFF, 0xFF, 0xFF]
    );
}

#[test]
fn block_value_decoding() {
    assert_eq!(BlockValue::decode(vec![0x18]), Ok(BlockValue { num: 1, more: true, size_exponent: 0 }));
    assert_eq!(BlockValue::decode(vec![]), Ok(BlockValue { num: 0, more: false, size_exponent: 0 }));
    assert_eq!(BlockValue::decode(vec![1, 2, 3, 4, 5]), Err(InvalidBlockOption::TooLong));
    assert_eq!(BlockValue::decode(vec![1, 0, 0, 0]), Err(InvalidBlockOption::NumOutOfRange));
}

#[test]
fn block_value_round_trip() {
    for num in [0u32, 1, 2, 15, 16, 255, 256, 4095, 65535, 0xFFFFF] {
        for more in [false, true] {
            for size_exponent in 0u8..=7 {
                let v = BlockValue { num, more, size_exponent };
                assert_eq!(BlockValue::decode(v.encode()), Ok(v));
            }
        }
    }
}

#[test]
fn block_size_is_largest_power_not_above() {
    for s in 16usize..=1024 {
        let v = BlockValue::new(0, false, s).unwrap();
        let size = v.size();
        assert!(size <= s);
        assert!(size.is_power_of_two());
        assert!(size * 2 > s);
    }
}
