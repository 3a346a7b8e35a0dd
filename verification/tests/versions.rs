use mazecode::versions::{find_version_with_data_capacity, version_groups, Version, VersionRange};

const DATA_CODEWORDS: [usize; 40] = [
    9, 16, 26, 36, 46, 60, 66, 86, 100, 122, 140, 158, 180, 197, 223, 253, 283, 313, 341, 385,
    406, 442, 464, 514, 538, 596, 628, 661, 701, 745, 793, 845, 901, 961, 986, 1054, 1096, 1142,
    1222, 1276,
];

/// Any version, picked out of a search over all versions from the first on.
fn any_version(index: usize) -> Version {
    let groups = version_groups();
    let all = VersionRange { start: groups[0].range.start, last: groups[2].range.last };
    find_version_with_data_capacity(DATA_CODEWORDS[index], all).unwrap()
}

fn second_group_range() -> VersionRange {
    version_groups()[1].range
}

/// The version with the given index, picked out of the second group's search,
/// which looks at the versions from index 9 on and returns relative positions.
fn version_with_index(index: usize) -> Version {
    find_version_with_data_capacity(DATA_CODEWORDS[9 + index], second_group_range()).unwrap()
}

#[test]
fn version_groups_cover_all_versions() {
    let groups = version_groups();
    assert_eq!(groups.len(), 3);
    assert_eq!(groups[0].range.start.number(), 1);
    assert_eq!(groups[0].range.last.number(), 9);
    assert_eq!(groups[1].range.start.number(), 10);
    assert_eq!(groups[1].range.last.number(), 26);
    assert_eq!(groups[2].range.start.number(), 27);
    assert_eq!(groups[2].range.last.number(), 40);
}

#[test]
fn version_groups_count_indicator_lengths() {
    let groups = version_groups();
    let byte: Vec<usize> = groups.iter().map(|g| g.byte_count_indicator_length).collect();
    let numeric: Vec<usize> = groups.iter().map(|g| g.numeric_count_indicator_length).collect();
    let alnum: Vec<usize> = groups.iter().map(|g| g.alphanumeric_count_indicator_length).collect();
    let kanji: Vec<usize> = groups.iter().map(|g| g.kanji_count_indicator_length).collect();
    assert_eq!(byte, vec![8, 16, 16]);
    assert_eq!(numeric, vec![10, 12, 14]);
    assert_eq!(alnum, vec![9, 11, 13]);
    assert_eq!(kanji, vec![8, 10, 12]);
}

#[test]
fn first_version_properties() {
    let v = find_version_with_data_capacity(0, version_groups()[0].range).unwrap();
    assert_eq!(v.number(), 1);
    assert_eq!(v.size(), 21);
    assert_eq!(v.data_codewords(), 9);
    let blocks = v.error_correction_blocks();
    assert_eq!(blocks.len(), 1);
    assert_eq!(blocks[0].total_codewords, 26);
    assert_eq!(blocks[0].data_codewords, 9);
    assert!(v.alignment_pattern_coordinates().is_empty());
}

#[test]
fn version_size_grows_by_four() {
    for index in 0..40 {
        let v = any_version(index);
        assert_eq!(v.number() as usize, index + 1);
        assert_eq!(v.size(), 21 + 4 * index);
        assert_eq!(v.data_codewords(), DATA_CODEWORDS[index]);
    }
}

#[test]
fn blocks_add_up_to_data_codewords() {
    for index in 0..40 {
        let v = any_version(index);
        let blocks = v.error_correction_blocks();
        let data: usize = blocks.iter().map(|b| b.data_codewords).sum();
        assert_eq!(data, v.data_codewords());
        let ec = blocks[0].total_codewords - blocks[0].data_codewords;
        for b in &blocks {
            assert_eq!(b.total_codewords - b.data_codewords, ec);
        }
    }
}

#[test]
fn version_five_has_two_block_sizes() {
    let v = version_with_index(4);
    let blocks: Vec<(usize, usize)> = v
        .error_correction_blocks()
        .iter()
        .map(|b| (b.total_codewords, b.data_codewords))
        .collect();
    assert_eq!(blocks, vec![(33, 11), (33, 11), (34, 12), (34, 12)]);
}

#[test]
fn alignment_coordinates_of_some_versions() {
    assert_eq!(version_with_index(1).alignment_pattern_coordinates(), vec![6, 18]);
    assert_eq!(version_with_index(6).alignment_pattern_coordinates(), vec![6, 22, 38]);
    assert_eq!(version_with_index(13).alignment_pattern_coordinates(), vec![6, 26, 46, 66]);
    assert_eq!(version_with_index(25).alignment_pattern_coordinates(), vec![6, 30, 58, 86, 114]);
    assert_eq!(
        any_version(39).alignment_pattern_coordinates(),
        vec![6, 30, 58, 86, 114, 142, 170]
    );
}

#[test]
fn last_version_properties() {
    let v = any_version(39);
    assert_eq!(v.number(), 40);
    assert_eq!(v.size(), 177);
    assert_eq!(v.data_codewords(), 1276);
    let blocks = v.error_correction_blocks();
    assert_eq!(blocks.len(), 81);
    assert_eq!(blocks.iter().filter(|b| b.total_codewords == 45).count(), 20);
    assert_eq!(blocks.iter().filter(|b| b.total_codewords == 46).count(), 61);
}

#[test]
fn last_alignment_coordinate_is_seven_from_the_edge() {
    for index in 1..40 {
        let v = any_version(index);
        let c = v.alignment_pattern_coordinates();
        assert_eq!(c[0], 6);
        assert_eq!(*c.last().unwrap(), v.size() - 7);
    }
}

#[test]
fn find_version_in_first_group() {
    let r = version_groups()[0].range;
    assert_eq!(find_version_with_data_capacity(9, r).unwrap().number(), 1);
    assert_eq!(find_version_with_data_capacity(10, r).unwrap().number(), 2);
    assert_eq!(find_version_with_data_capacity(100, r).unwrap().number(), 9);
    assert!(find_version_with_data_capacity(101, r).is_none());
}

#[test]
fn find_version_returns_position_within_range() {
    // The second group starts at version 10; the result counts from there.
    let r = second_group_range();
    assert_eq!(find_version_with_data_capacity(0, r).unwrap().number(), 1);
    assert_eq!(find_version_with_data_capacity(122, r).unwrap().number(), 1);
    assert_eq!(find_version_with_data_capacity(123, r).unwrap().number(), 2);
    assert_eq!(find_version_with_data_capacity(204, r).unwrap().number(), 6);
}

#[test]
fn find_version_looks_past_the_range_end() {
    // It takes `last + 1` versions from the start, so the second group's
    // search reaches version 35 (986 data codewords), not only version 26.
    let r = second_group_range();
    assert_eq!(find_version_with_data_capacity(986, r).unwrap().number(), 26);
    assert!(find_version_with_data_capacity(987, r).is_none());
}

#[test]
fn find_version_in_last_group_stops_at_forty() {
    let r = version_groups()[2].range;
    assert_eq!(find_version_with_data_capacity(1276, r).unwrap().number(), 14);
    assert!(find_version_with_data_capacity(1277, r).is_none());
}
