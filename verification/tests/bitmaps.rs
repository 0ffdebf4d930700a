use iso_8583_message::bitmaps::Bitmaps;
use iso_8583_message::IsoMessageMap;

#[test]
fn should_return_array_with_elements_in_1_bitmap() {
    let bitmaps = Bitmaps {
        maps: [4611686018427387905].to_vec(),
    };

    assert_eq!(bitmaps.items(), [2, 64].to_vec())
}

#[test]
fn should_return_array_with_elements_in_2_bitmap() {
    let bitmaps = Bitmaps {
        maps: [13835058055282163713, 4611686018427387905].to_vec(),
    };

    assert_eq!(bitmaps.items(), [1, 2, 64, 66, 128].to_vec())
}

#[test]
fn should_return_array_with_elements_in_3_bitmap() {
    let bitmaps = Bitmaps {
        maps: [
            13835058055282163713,
            13835058055282163713,
            4611686018427387905,
        ]
        .to_vec(),
    };

    assert_eq!(bitmaps.items(), [1, 2, 64, 65, 66, 128, 130, 192].to_vec())
}

fn words_to_buffer(words: &[u64]) -> Vec<u8> {
    words
        .iter()
        .flat_map(|bitmap| bitmap.to_be_bytes().to_vec())
        .collect()
}

#[test]
fn should_grab_only_1_bit_map() {
    let buffer = words_to_buffer(&[2u64.reverse_bits(), u64::MAX >> 1, u64::MAX >> 1]);

    let bitmaps = Bitmaps::from_buffer(&buffer);

    assert_eq!(bitmaps.maps.len(), 1);
    assert_eq!(bitmaps.byte_length(), 8);
}

#[test]
fn should_grab_only_2_bit_map() {
    let buffer = words_to_buffer(&[3u64.reverse_bits(), u64::MAX >> 1, u64::MAX >> 1]);

    let bitmaps = Bitmaps::from_buffer(&buffer);

    assert_eq!(bitmaps.maps.len(), 2);
    assert_eq!(bitmaps.byte_length(), 16);
}

#[test]
fn should_grab_3_bit_map() {
    let buffer = words_to_buffer(&[3u64.reverse_bits(), u64::MAX, u64::MAX >> 1]);

    let bitmaps = Bitmaps::from_buffer(&buffer);

    assert_eq!(bitmaps.maps.len(), 3);
    assert_eq!(bitmaps.byte_length(), 24);
}

#[test]
fn should_construct_1_bitmap_from_map() {
    let map = IsoMessageMap::from([(2, "".to_owned()), (64, "".to_owned())]);

    let bitmaps = Bitmaps::from_iso_message_map(&map);

    assert_eq!(bitmaps.maps, [4611686018427387905])
}

#[test]
fn should_construct_2_bitmap_from_map() {
    let map = IsoMessageMap::from([(2, "".to_owned()), (64, "".to_owned()), (66, "".to_owned())]);

    let bitmaps = Bitmaps::from_iso_message_map(&map);

    assert_eq!(bitmaps.maps, [13835058055282163713, 4611686018427387904])
}

#[test]
fn should_construct_2_bitmap_from_map_at_both_ends() {
    let map = IsoMessageMap::from([
        (2, "".to_owned()),
        (64, "".to_owned()),
        (66, "".to_owned()),
        (128, "".to_owned()),
    ]);

    let bitmaps = Bitmaps::from_iso_message_map(&map);

    assert_eq!(bitmaps.maps, [13835058055282163713, 4611686018427387905])
}

#[test]
fn should_construct_3_bitmap_from_map() {
    let map = IsoMessageMap::from([
        (2, "".to_owned()),
        (64, "".to_owned()),
        (66, "".to_owned()),
        (128, "".to_owned()),
        (130, "".to_owned()),
    ]);

    let bitmaps = Bitmaps::from_iso_message_map(&map);

    assert_eq!(
        bitmaps.maps,
        [
            13835058055282163713,
            13835058055282163713,
            4611686018427387904
        ]
    )
}

#[test]
fn should_construct_2_bitmap_completely_full() {
    let mut map: IsoMessageMap = (2..=128).map(|key| (key, "".to_owned())).collect();
    map.remove(&65);

    let bitmaps = Bitmaps::from_iso_message_map(&map);

    assert_eq!(bitmaps.maps, [u64::MAX, u64::MAX >> 1])
}

#[test]
fn should_return_buffer_of_3_bitmap() {
    let bitmaps = Bitmaps {
        maps: vec![256u64, 8u64, 1u64],
    };

    assert_eq!(
        bitmaps.to_buffer(),
        vec![
            0u8, 0u8, 0u8, 0u8, 0u8, 0u8, 1u8, 0u8, 0u8, 0u8, 0u8, 0u8, 0u8, 0u8, 0u8, 8u8, 0u8,
            0u8, 0u8, 0u8, 0u8, 0u8, 0u8, 1u8
        ]
    );
}

#[test]
fn should_return_buffer_of_2_bitmap() {
    let bitmaps = Bitmaps {
        maps: vec![2u64, 8u64],
    };

    assert_eq!(
        bitmaps.to_buffer(),
        vec![0u8, 0u8, 0u8, 0u8, 0u8, 0u8, 0u8, 2u8, 0u8, 0u8, 0u8, 0u8, 0u8, 0u8, 0u8, 8u8]
    );
}

#[test]
fn should_return_buffer_of_1_bitmap() {
    let bitmaps = Bitmaps { maps: vec![1u64] };

    assert_eq!(bitmaps.to_buffer(), vec![0u8, 0u8, 0u8, 0u8, 0u8, 0u8, 0u8, 1u8]);
}

#[test]
fn should_return_8_bytes_if_only_contains_1_bitmap() {
    let bitmaps = Bitmaps { maps: vec![1u64] };
    assert_eq!(bitmaps.byte_length(), 8);
}

#[test]
fn should_return_16_bytes_if_contains_2_bitmap() {
    let bitmaps = Bitmaps {
        maps: vec![1u64, 1u64],
    };
    assert_eq!(bitmaps.byte_length(), 16);
}

#[test]
fn should_return_24_bytes_if_contains_3_bitmap() {
    let bitmaps = Bitmaps {
        maps: vec![1u64, 1u64, 1u64],
    };
    assert_eq!(bitmaps.byte_length(), 24);
}

#[test]
fn bitmaps_read_back_from_their_bytes() {
    let chained = vec![
        vec![0x4000_0000_0000_0001u64],
        vec![0xC000_0000_0000_0001u64, 0x4000_0000_0000_0000u64],
        vec![u64::MAX, u64::MAX, 0x0123_4567_89AB_CDEFu64],
    ];
    for words in chained {
        let bitmaps = Bitmaps { maps: words.clone() };
        let mut buffer = bitmaps.to_buffer();
        buffer.extend_from_slice(&[0xFF; 24]);
        let read = Bitmaps::from_buffer(&buffer);
        assert_eq!(read.maps, words);
        assert_eq!(read.byte_length(), 8 * words.len());
    }
}

#[test]
fn built_bitmaps_announce_exactly_the_keys() {
    let keys: Vec<u8> = vec![0, 2, 3, 64, 66, 100, 128, 129, 150, 192];
    let map: IsoMessageMap = keys.iter().map(|k| (*k, "x".to_owned())).collect();
    let bitmaps = Bitmaps::from_iso_message_map(&map);
    assert_eq!(bitmaps.maps.len(), 3);
    let announced: Vec<u8> = bitmaps
        .items()
        .into_iter()
        .filter(|k| *k != 1 && *k != 65)
        .collect();
    assert_eq!(announced, vec![2, 3, 64, 66, 100, 128, 129, 150, 192]);
}

#[test]
fn bitmaps_skip_an_empty_word_between_keys() {
    // Keys in the first and third words only: the second word announces the
    // third, but the first does not announce the second.
    let map = IsoMessageMap::from([(2, "".to_owned()), (130, "".to_owned())]);
    let bitmaps = Bitmaps::from_iso_message_map(&map);
    assert_eq!(
        bitmaps.maps,
        [0x4000_0000_0000_0000u64, 0x8000_0000_0000_0000u64, 0x4000_0000_0000_0000u64]
    );
}

#[test]
fn bitmaps_of_a_map_with_only_the_mti_are_empty() {
    let map = IsoMessageMap::from([(0, "0100".to_owned())]);
    let bitmaps = Bitmaps::from_iso_message_map(&map);
    assert!(bitmaps.maps.is_empty());
    assert!(bitmaps.to_buffer().is_empty());
}

#[test]
fn has_next_bitmap_reads_the_first_bit() {
    assert!(Bitmaps::has_next_bitmap(0x8000_0000_0000_0000));
    assert!(!Bitmaps::has_next_bitmap(0x7FFF_FFFF_FFFF_FFFF));
}

#[test]
fn total_bitmap_entry_points() {
    assert!(Bitmaps::try_from_buffer(&[0u8; 7]).is_none());
    assert!(Bitmaps::try_from_buffer(&[0x80, 0, 0, 0, 0, 0, 0, 0, 1]).is_none());
    assert_eq!(Bitmaps::try_from_buffer(&[0u8; 8]).unwrap().maps, vec![0u64]);
    let four = Bitmaps { maps: vec![0, 0, 0, 0x8000_0000_0000_0000] };
    assert_eq!(four.try_items(), Some(vec![193]));
    let four = Bitmaps { maps: vec![0, 0, 0, 1] };
    assert!(four.try_items().is_none());
    let four = Bitmaps { maps: vec![0, 0, 0, 2] };
    assert_eq!(four.try_items(), Some(vec![255]));
    let five = Bitmaps { maps: vec![0, 0, 0, 0, 1] };
    assert!(five.try_items().is_none());
    assert_eq!(five.checked_byte_length(), Some(40));
}

#[test]
fn bitmaps_written_back_from_what_was_read() {
    let mut buffer = vec![0x80u8, 0, 0, 0, 0, 0, 0, 1, 0x00, 0, 0, 0, 0, 0, 0, 2];
    buffer.extend_from_slice(&[9, 9, 9]);
    let bitmaps = Bitmaps::from_buffer(&buffer);
    assert_eq!(bitmaps.to_buffer(), buffer[..16].to_vec());
    assert_eq!(bitmaps.to_buffer().len(), bitmaps.byte_length());
}
