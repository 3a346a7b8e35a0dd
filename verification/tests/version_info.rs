use mazecode::version_info::{
    generate, BlockInfo, VersionEntry, VersionGroupInfo, VersionInfo,
};
use mazecode::versions::{find_version_with_data_capacity, version_groups, Version};
use std::collections::BTreeMap;

/// Data codewords, block groups `(count, total, data)` and alignment pattern
/// coordinates of versions 1 to 40 at error correction level H.
fn level_h_versions() -> Vec<(usize, &'static [(usize, usize, usize)], &'static [usize])> {
    vec![
        (9, &[(1, 26, 9)], &[]),
        (16, &[(1, 44, 16)], &[6, 18]),
        (26, &[(2, 35, 13)], &[6, 22]),
        (36, &[(4, 25, 9)], &[6, 26]),
        (46, &[(2, 33, 11), (2, 34, 12)], &[6, 30]),
        (60, &[(4, 43, 15)], &[6, 34]),
        (66, &[(4, 39, 13), (1, 40, 14)], &[6, 22, 38]),
        (86, &[(4, 40, 14), (2, 41, 15)], &[6, 24, 42]),
        (100, &[(4, 36, 12), (4, 37, 13)], &[6, 26, 46]),
        (122, &[(6, 43, 15), (2, 44, 16)], &[6, 28, 50]),
        (140, &[(3, 36, 12), (8, 37, 13)], &[6, 30, 54]),
        (158, &[(7, 42, 14), (4, 43, 15)], &[6, 32, 58]),
        (180, &[(12, 33, 11), (4, 34, 12)], &[6, 34, 62]),
        (197, &[(11, 36, 12), (5, 37, 13)], &[6, 26, 46, 66]),
        (223, &[(11, 36, 12), (7, 37, 13)], &[6, 26, 48, 70]),
        (253, &[(3, 45, 15), (13, 46, 16)], &[6, 26, 50, 74]),
        (283, &[(2, 42, 14), (17, 43, 15)], &[6, 30, 54, 78]),
        (313, &[(2, 42, 14), (19, 43, 15)], &[6, 30, 56, 82]),
        (341, &[(9, 39, 13), (16, 40, 14)], &[6, 30, 58, 86]),
        (385, &[(15, 43, 15), (10, 44, 16)], &[6, 34, 62, 90]),
        (406, &[(19, 46, 16), (6, 47, 17)], &[6, 28, 50, 72, 94]),
        (442, &[(34, 37, 13)], &[6, 26, 50, 74, 98]),
        (464, &[(16, 45, 15), (14, 46, 16)], &[6, 30, 54, 78, 102]),
        (514, &[(30, 46, 16), (2, 47, 17)], &[6, 28, 54, 80, 106]),
        (538, &[(22, 45, 15), (13, 46, 16)], &[6, 32, 58, 84, 110]),
        (596, &[(33, 46, 16), (4, 47, 17)], &[6, 30, 58, 86, 114]),
        (628, &[(12, 45, 15), (28, 46, 16)], &[6, 34, 62, 90, 118]),
        (661, &[(11, 45, 15), (31, 46, 16)], &[6, 26, 50, 74, 98, 122]),
        (701, &[(19, 45, 15), (26, 46, 16)], &[6, 30, 54, 78, 102, 126]),
        (745, &[(23, 45, 15), (25, 46, 16)], &[6, 26, 52, 78, 104, 130]),
        (793, &[(23, 45, 15), (28, 46, 16)], &[6, 30, 56, 82, 108, 134]),
        (845, &[(19, 45, 15), (35, 46, 16)], &[6, 34, 60, 86, 112, 138]),
        (901, &[(11, 45, 15), (46, 46, 16)], &[6, 30, 58, 86, 114, 142]),
        (961, &[(59, 46, 16), (1, 47, 17)], &[6, 34, 62, 90, 118, 146]),
        (986, &[(22, 45, 15), (41, 46, 16)], &[6, 30, 54, 78, 102, 126, 150]),
        (1054, &[(2, 45, 15), (64, 46, 16)], &[6, 24, 50, 76, 102, 128, 154]),
        (1096, &[(24, 45, 15), (46, 46, 16)], &[6, 28, 54, 80, 106, 132, 158]),
        (1142, &[(42, 45, 15), (32, 46, 16)], &[6, 32, 58, 84, 110, 136, 162]),
        (1222, &[(10, 45, 15), (67, 46, 16)], &[6, 26, 54, 82, 110, 138, 166]),
        (1276, &[(20, 45, 15), (61, 46, 16)], &[6, 30, 58, 86, 114, 142, 170]),
    ]
}

fn group(start: usize, end: usize, numeric: usize, alnum: usize, byte: usize, kanji: usize) -> VersionGroupInfo {
    VersionGroupInfo {
        range_start: start,
        range_end: end,
        numeric_count_indicator_length: numeric,
        alphanumeric_count_indicator_length: alnum,
        byte_count_indicator_length: byte,
        kanji_count_indicator_length: kanji,
    }
}

fn level_h_info() -> VersionInfo {
    let versions = level_h_versions()
        .into_iter()
        .enumerate()
        .map(|(i, (data, blocks, alignment))| {
            (
                i + 1,
                VersionEntry {
                    data_codewords: data,
                    error_correction_blocks: blocks
                        .iter()
                        .map(|&(count, total, data)| BlockInfo {
                            count,
                            total_codewords: total,
                            data_codewords: data,
                        })
                        .collect(),
                    alignment_pattern_coordinates: alignment.to_vec(),
                },
            )
        })
        .collect();
    VersionInfo {
        groups: vec![group(1, 9, 10, 9, 8, 8), group(10, 26, 12, 11, 16, 10), group(27, 40, 14, 13, 16, 12)],
        versions,
    }
}

fn version_with_index(index: usize, data_codewords: &[usize]) -> Version {
    find_version_with_data_capacity(data_codewords[9 + index], version_groups()[1].range).unwrap()
}

#[test]
fn generate_counts_group_ranges_from_zero() {
    let tables = generate(&level_h_info());
    let ranges: Vec<(usize, usize)> = tables.groups.iter().map(|g| (g.start, g.last)).collect();
    assert_eq!(ranges, vec![(0, 8), (9, 25), (26, 39)]);
    let groups = version_groups();
    for (t, g) in tables.groups.iter().zip(groups.iter()) {
        assert_eq!(t.start + 1, g.range.start.number() as usize);
        assert_eq!(t.last + 1, g.range.last.number() as usize);
        assert_eq!(t.numeric_count_indicator_length, g.numeric_count_indicator_length);
        assert_eq!(t.alphanumeric_count_indicator_length, g.alphanumeric_count_indicator_length);
        assert_eq!(t.byte_count_indicator_length, g.byte_count_indicator_length);
        assert_eq!(t.kanji_count_indicator_length, g.kanji_count_indicator_length);
    }
}

#[test]
fn generate_writes_out_each_block() {
    let tables = generate(&level_h_info());
    assert_eq!(tables.error_correction_blocks.len(), 40);
    let v5: Vec<(usize, usize)> = tables.error_correction_blocks[4]
        .iter()
        .map(|b| (b.total_codewords, b.data_codewords))
        .collect();
    assert_eq!(v5, vec![(33, 11), (33, 11), (34, 12), (34, 12)]);
    assert_eq!(tables.error_correction_blocks[39].len(), 81);
}

#[test]
fn generated_tables_match_the_versions() {
    let tables = generate(&level_h_info());
    assert_eq!(tables.data_codewords.len(), 40);
    for index in 0..26 {
        let v = version_with_index(index, &tables.data_codewords);
        assert_eq!(v.data_codewords(), tables.data_codewords[index]);
        let blocks: Vec<(usize, usize)> =
            v.error_correction_blocks().iter().map(|b| (b.total_codewords, b.data_codewords)).collect();
        let generated: Vec<(usize, usize)> = tables.error_correction_blocks[index]
            .iter()
            .map(|b| (b.total_codewords, b.data_codewords))
            .collect();
        assert_eq!(blocks, generated);
        assert_eq!(v.alignment_pattern_coordinates(), tables.alignment_pattern_coordinates[index]);
    }
}

#[test]
fn generate_of_empty_information() {
    let tables = generate(&VersionInfo { groups: Vec::new(), versions: BTreeMap::new() });
    assert!(tables.groups.is_empty());
    assert!(tables.data_codewords.is_empty());
    assert!(tables.error_correction_blocks.is_empty());
    assert!(tables.alignment_pattern_coordinates.is_empty());
}
