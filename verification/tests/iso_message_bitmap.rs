use iso_8583_message::iso_message::bitmap::Bitmap;
use iso_8583_message::iso_message::ReadError;

#[test]
fn should_return_64_if_only_primary_bitmap_set() {
    let bitmaps = Bitmap {
        primary_bitmap: 1,
        ..Default::default()
    };

    assert_eq!(bitmaps.bytes_consumed(), 64);
}

#[test]
fn should_return_128_if_primary_and_secondary_bitmap_set() {
    let bitmaps = Bitmap {
        primary_bitmap: 1,
        secondary_bitmap: Some(1),
        ..Default::default()
    };

    assert_eq!(bitmaps.bytes_consumed(), 128);
}

#[test]
fn should_return_192_if_all_bitmaps_set() {
    let bitmaps = Bitmap {
        primary_bitmap: 1,
        secondary_bitmap: Some(1),
        tertiary_bitmap: Some(1),
    };

    assert_eq!(bitmaps.bytes_consumed(), 192);
}

#[test]
fn should_parse_primary_bitmap_out_of_buffer() {
    let input = &[0u8, 0u8, 0u8, 0u8, 0u8, 0u8, 0u8, 1u8];
    let bitmap = Bitmap::try_from(&input[..]);

    assert!(&bitmap.is_ok());
    let Bitmap {
        primary_bitmap,
        secondary_bitmap,
        tertiary_bitmap,
    } = bitmap.unwrap();
    assert_eq!(primary_bitmap, 1u64);
    assert_eq!(secondary_bitmap, None);
    assert_eq!(tertiary_bitmap, None);
}

#[test]
fn should_parse_primary_and_secondary_bitmap_out_of_buffer() {
    let input = &[
        0b10000000, 0u8, 0u8, 0u8, 0u8, 0u8, 0u8, 1u8, 0u8, 0u8, 0u8, 0u8, 0u8, 0u8, 0u8, 1u8,
        0u8, 0u8, 0u8, 0u8, 0u8, 0u8, 1u8, 0u8, 0u8, 0u8, 0u8, 0u8, 0u8, 0u8, 0u8, 1u8,
    ];
    let bitmap = Bitmap::try_from(&input[..]);

    assert!(&bitmap.is_ok());
    let Bitmap {
        primary_bitmap,
        secondary_bitmap,
        tertiary_bitmap,
    } = bitmap.unwrap();

    assert_eq!(
        primary_bitmap,
        0b1000000000000000000000000000000000000000000000000000000000000001
    );
    assert_eq!(
        secondary_bitmap,
        Some(0b0000000000000000000000000000000000000000000000000000000000000001)
    );
    assert_eq!(tertiary_bitmap, None);
}

#[test]
fn should_parse_primary_secondary_and_tertiary_bitmap_out_of_buffer() {
    let input = &[
        0b10000000, 0u8, 0u8, 0u8, 0u8, 0u8, 0u8, 1u8, 0b10000000, 0u8, 0u8, 0u8, 0u8, 0u8, 0u8,
        1u8, 0u8, 0u8, 0u8, 0u8, 0u8, 0u8, 0u8, 1u8,
    ];
    let bitmap = Bitmap::try_from(&input[..]);

    println!("{:#10b}", u8::from_be(0b100));
    assert!(&bitmap.is_ok());
    let Bitmap {
        primary_bitmap,
        secondary_bitmap,
        tertiary_bitmap,
    } = bitmap.unwrap();

    assert_eq!(
        primary_bitmap,
        0b1000000000000000000000000000000000000000000000000000000000000001
    );
    assert_eq!(
        secondary_bitmap,
        Some(0b1000000000000000000000000000000000000000000000000000000000000001)
    );
    assert_eq!(
        tertiary_bitmap,
        Some(0b0000000000000000000000000000000000000000000000000000000000000001)
    );
}

#[test]
fn returns_iterator_of_which_bits_are_set_to_two_bitmap() {
    let primary_bitmap = u64::from_str_radix("9222208100001081", 16).unwrap();
    let secondary_bitmap = u64::from_str_radix("8411010000040040", 16).unwrap();
    let bitmap = Bitmap {
        primary_bitmap,
        secondary_bitmap: Some(secondary_bitmap),
        tertiary_bitmap: None,
    };

    let fields_outlined_by_bitmap: Vec<usize> = bitmap.into_iter().collect();

    assert_eq!(
        fields_outlined_by_bitmap,
        vec![1, 4, 7, 11, 15, 19, 25, 32, 52, 57, 64, 65, 70, 76, 80, 88, 110, 122]
    )
}

#[test]
fn returns_iterator_of_which_bits_are_set_to_one() {
    let primary_bitmap = u64::from_str_radix("7010001102C04804", 16).unwrap();
    let bitmap = Bitmap {
        primary_bitmap,
        secondary_bitmap: None,
        tertiary_bitmap: None,
    };

    let fields_outlined_by_bitmap: Vec<usize> = bitmap.into_iter().collect();

    assert_eq!(
        fields_outlined_by_bitmap,
        vec![2, 3, 4, 12, 28, 32, 39, 41, 42, 50, 53, 62]
    )
}

#[test]
fn try_from_names_the_missing_bitmap() {
    assert_eq!(Bitmap::try_from(&[0u8; 7][..]).err(), Some(ReadError::BitmapMissing(1)));
    let mut two = vec![0x80u8, 0, 0, 0, 0, 0, 0, 0];
    two.extend_from_slice(&[0u8; 7]);
    assert_eq!(Bitmap::try_from(&two[..]).err(), Some(ReadError::BitmapMissing(2)));
    let mut three = vec![0x80u8, 0, 0, 0, 0, 0, 0, 0, 0x80, 0, 0, 0, 0, 0, 0, 0];
    three.extend_from_slice(&[0u8; 7]);
    assert_eq!(Bitmap::try_from(&three[..]).err(), Some(ReadError::BitmapMissing(3)));
}

#[test]
fn a_third_bitmap_announces_nothing_more() {
    let bitmap = Bitmap {
        primary_bitmap: 0x8000_0000_0000_0000,
        secondary_bitmap: Some(0x8000_0000_0000_0000),
        tertiary_bitmap: Some(0x8000_0000_0000_0001),
    };
    let keys: Vec<usize> = bitmap.into_iter().collect();
    assert_eq!(keys, vec![1, 65, 129, 192]);
}

#[test]
fn bytes_consumed_counts_each_word_present() {
    let bitmaps = Bitmap {
        primary_bitmap: 1,
        secondary_bitmap: None,
        tertiary_bitmap: Some(1),
    };
    assert_eq!(bitmaps.bytes_consumed(), 128);
    assert_eq!(Bitmap::default().bytes_consumed(), 64);
}
