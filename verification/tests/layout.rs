use mazecode::encode::encode_data;
use mazecode::grid::layout_data;
use mazecode::layout::{can_place, data_layout};
use mazecode::message::construct_message;
use mazecode::versions::{find_version_with_data_capacity, version_groups, Version, VersionRange};

const DATA_CODEWORDS: [usize; 40] = [
    9, 16, 26, 36, 46, 60, 66, 86, 100, 122, 140, 158, 180, 197, 223, 253, 283, 313, 341, 385,
    406, 442, 464, 514, 538, 596, 628, 661, 701, 745, 793, 845, 901, 961, 986, 1054, 1096, 1142,
    1222, 1276,
];

const TOTAL_CODEWORDS: [usize; 40] = [
    26, 44, 70, 100, 134, 172, 196, 242, 292, 346, 404, 466, 532, 581, 655, 733, 815, 901, 991,
    1085, 1156, 1258, 1364, 1474, 1588, 1706, 1828, 1921, 2051, 2185, 2323, 2465, 2611, 2761,
    2876, 3034, 3196, 3362, 3532, 3706,
];

/// The version with the given index, picked out of the second group's search,
/// which looks at the versions from index 9 on and returns relative positions.
fn version_with_index(index: usize) -> Version {
    let r = version_groups()[1].range;
    find_version_with_data_capacity(DATA_CODEWORDS[9 + index], r).unwrap()
}

fn grid_string(data: &[u8], padding: &[u8], version: Version) -> String {
    let grid = layout_data(data, padding, version);
    (0..grid.len()).map(|i| if grid.get(i) { '1' } else { '0' }).collect()
}

#[test]
fn message_of_version_one() {
    let data: Vec<u8> = (1..=9).collect();
    let m = construct_message(&data, version_with_index(0));
    assert_eq!(
        m,
        vec![
            1, 2, 3, 4, 5, 6, 7, 8, 9, 48, 91, 177, 195, 164, 76, 88, 163, 118, 109, 85, 153, 22,
            5, 66, 122, 247
        ]
    );
}

#[test]
fn message_of_version_five_interleaves_blocks() {
    let data: Vec<u8> = (1..=46).collect();
    let m = construct_message(&data, version_with_index(4));
    assert_eq!(m.len(), 134);
    assert_eq!(
        &m[..46],
        &[
            1, 12, 23, 35, 2, 13, 24, 36, 3, 14, 25, 37, 4, 15, 26, 38, 5, 16, 27, 39, 6, 17, 28,
            40, 7, 18, 29, 41, 8, 19, 30, 42, 9, 20, 31, 43, 10, 21, 32, 44, 11, 22, 33, 45, 34,
            46
        ]
    );
    assert_eq!(&m[46..52], &[167, 150, 242, 19, 89, 80]);
    assert_eq!(&m[128..], &[7, 130, 233, 198, 32, 81][..]);
}

#[test]
fn message_length_is_total_codewords() {
    for index in 0..40 {
        let data = vec![0x5Au8; DATA_CODEWORDS[index]];
        let m = construct_message(&data, any_version(index));
        assert_eq!(m.len(), TOTAL_CODEWORDS[index]);
    }
}

#[test]
fn data_layout_fills_every_data_module() {
    assert_eq!(data_layout(version_with_index(0)).len(), 208);
    assert_eq!(data_layout(version_with_index(1)).len(), 359);
    assert_eq!(data_layout(version_with_index(6)).len(), 1568);
    assert_eq!(data_layout(version_with_index(25)).len(), 13652);
}

/// Any version, picked out of a search over all versions from the first on.
fn any_version(index: usize) -> Version {
    let groups = version_groups();
    let all = VersionRange { start: groups[0].range.start, last: groups[2].range.last };
    find_version_with_data_capacity(DATA_CODEWORDS[index], all).unwrap()
}

#[test]
fn data_layout_has_room_for_the_message() {
    for index in 0..40 {
        let v = any_version(index);
        assert_eq!(v.number() as usize, index + 1);
        let positions = data_layout(v);
        assert!(positions.len() >= 8 * TOTAL_CODEWORDS[index]);
        assert!(positions.len() < 8 * TOTAL_CODEWORDS[index] + 8);
    }
}

#[test]
fn data_layout_starts_bottom_right_and_ends_bottom_left() {
    let positions = data_layout(version_with_index(0));
    assert_eq!(&positions[..6], &[(20, 20), (19, 20), (20, 19), (19, 19), (20, 18), (19, 18)]);
    assert_eq!(&positions[205..], &[(0, 11), (1, 12), (0, 12)]);
}

#[test]
fn data_layout_positions_are_distinct_data_modules() {
    let v = version_with_index(0);
    let positions = data_layout(v);
    for (k, &(x, y)) in positions.iter().enumerate() {
        assert!(can_place(x, y, v));
        assert!(!positions[..k].contains(&(x, y)));
    }
    let count = (0..21).flat_map(|x| (0..21).map(move |y| (x, y))).filter(|&(x, y)| can_place(x, y, v)).count();
    assert_eq!(count, positions.len());
}

#[test]
fn can_place_reserved_areas() {
    let v1 = version_with_index(0);
    assert!(!can_place(0, 0, v1));
    assert!(!can_place(8, 8, v1));
    assert!(!can_place(13, 3, v1));
    assert!(!can_place(3, 13, v1));
    assert!(!can_place(6, 10, v1));
    assert!(!can_place(10, 6, v1));
    assert!(!can_place(8, 13, v1));
    assert!(can_place(9, 0, v1));
    assert!(can_place(8, 9, v1));
    assert!(can_place(20, 20, v1));
    let v2 = version_with_index(1);
    assert!(!can_place(16, 16, v2));
    assert!(!can_place(18, 18, v2));
    assert!(!can_place(20, 20, v2));
    assert!(can_place(15, 15, v2));
    assert!(can_place(21, 21, v2));
}

#[test]
fn can_place_version_information_from_seven_on() {
    let v6 = version_with_index(5);
    let v7 = version_with_index(6);
    // size 41 and 45: the areas are columns size-11..size-9 of rows 0..5.
    assert!(can_place(30, 0, v6));
    assert!(!can_place(34, 0, v7));
    assert!(!can_place(0, 34, v7));
    assert!(can_place(33, 0, v7));
}

#[test]
fn layout_of_empty_message_in_version_one() {
    let (data, version) = encode_data(b"").unwrap();
    let padding = vec![0u8; version.data_codewords() - data.len()];
    let expected = [
        "111111100010001111111",
        "100000101001001000001",
        "101110101010001011101",
        "101110101011001011101",
        "101110101101001011101",
        "100000101011001000001",
        "111111101010101111111",
        "000000000111000000000",
        "001001111111110111110",
        "001111001111000000000",
        "101110100000010111111",
        "110111011011111000000",
        "111001110010111111111",
        "000000001101101000000",
        "111111101111110111111",
        "100000101101010000000",
        "101110100011000111111",
        "101110100100110000000",
        "101110101000011111111",
        "100000100101110000000",
        "111111100010001111101",
    ]
    .join("");
    assert_eq!(grid_string(&data, &padding, version), expected);
}

#[test]
fn layout_has_finder_timing_and_dark_module() {
    let v = version_with_index(1);
    let data = vec![0u8; 16];
    let grid = layout_data(&data, &[], v);
    let size = v.size();
    assert_eq!(grid.len(), size * size);
    let at = |x: usize, y: usize| grid.get(x + y * size);
    for (ox, oy) in [(0, 0), (size - 7, 0), (0, size - 7)] {
        for d in 0..7 {
            assert!(at(ox + d, oy));
            assert!(at(ox + d, oy + 6));
            assert!(at(ox, oy + d));
            assert!(at(ox + 6, oy + d));
        }
        assert!(!at(ox + 1, oy + 1));
        assert!(at(ox + 3, oy + 3));
    }
    for i in 8..size - 8 {
        assert_eq!(at(i, 6), i % 2 == 0);
        assert_eq!(at(6, i), i % 2 == 0);
    }
    assert!(at(8, size - 8));
    // alignment pattern centred at (18, 18)
    assert!(at(18, 18));
    assert!(!at(17, 18));
    assert!(at(16, 18));
}

#[test]
fn message_is_additive() {
    let v = version_with_index(4);
    let a: Vec<u8> = (0..46u8).map(|i| i.wrapping_mul(13)).collect();
    let b: Vec<u8> = (0..46u8).map(|i| i.wrapping_mul(101) ^ 0x33).collect();
    let sum: Vec<u8> = a.iter().zip(&b).map(|(&x, &y)| x ^ y).collect();
    let ma = construct_message(&a, v);
    let mb = construct_message(&b, v);
    let expected: Vec<u8> = ma.iter().zip(&mb).map(|(&x, &y)| x ^ y).collect();
    assert_eq!(construct_message(&sum, v), expected);
    assert!(construct_message(&vec![0u8; 46], v).iter().all(|&c| c == 0));
}
