//! The version information the tables of the versions are generated from,
//! and their generation: the version groups, and for each version its data
//! capacity, its blocks and its alignment pattern coordinates, with versions
//! numbered from 1 as the information numbers them.
use vstd::prelude::*;
use vstd::slice::slice_to_vec;
use std::collections::BTreeMap;
use crate::versions::{expand_block_groups, expand_groups, ErrorCorrectionBlock};

verus! {

/// A version group as the version information gives it: the versions
/// numbered `range_start` to `range_end` (from 1, inclusive) and the lengths
/// of the character count indicators in each mode.
#[derive(Clone, Copy, Debug)]
pub struct VersionGroupInfo {
    pub range_start: usize,
    pub range_end: usize,
    pub numeric_count_indicator_length: usize,
    pub alphanumeric_count_indicator_length: usize,
    pub byte_count_indicator_length: usize,
    pub kanji_count_indicator_length: usize,
}

/// `count` equal blocks of `total_codewords` codewords, `data_codewords` of
/// which are data.
#[derive(Clone, Copy, Debug)]
pub struct BlockInfo {
    pub count: usize,
    pub total_codewords: usize,
    pub data_codewords: usize,
}

/// What the version information gives of one version.
#[derive(Debug)]
pub struct VersionEntry {
    pub data_codewords: usize,
    pub error_correction_blocks: Vec<BlockInfo>,
    pub alignment_pattern_coordinates: Vec<usize>,
}

/// The version information: the version groups, and the versions keyed by
/// their number.
#[derive(Debug)]
pub struct VersionInfo {
    pub groups: Vec<VersionGroupInfo>,
    pub versions: BTreeMap<usize, VersionEntry>,
}

/// A version group of the generated tables: the versions with indices
/// `start` to `last` (inclusive), and the lengths of the character count
/// indicators.
#[derive(Clone, Copy, Debug)]
pub struct GroupTable {
    pub start: usize,
    pub last: usize,
    pub numeric_count_indicator_length: usize,
    pub alphanumeric_count_indicator_length: usize,
    pub byte_count_indicator_length: usize,
    pub kanji_count_indicator_length: usize,
}

/// The generated tables; the per-version tables are indexed by version
/// index, the version number minus one.
#[derive(Debug)]
pub struct VersionTables {
    pub groups: Vec<GroupTable>,
    pub data_codewords: Vec<usize>,
    pub error_correction_blocks: Vec<Vec<ErrorCorrectionBlock>>,
    pub alignment_pattern_coordinates: Vec<Vec<usize>>,
}

/// The blocks of a version as `(count, total, data)` groups.
pub open spec fn block_groups_of(blocks: Seq<BlockInfo>) -> Seq<(usize, usize, usize)> {
    blocks.map_values(|b: BlockInfo| (b.count, b.total_codewords, b.data_codewords))
}

/// Whether tables can be generated from `info`: every group range starts
/// and ends at a version number of at least 1, and the versions are keyed
/// 1, 2, 3, ... up to their number.
pub open spec fn generatable(info: VersionInfo) -> bool {
    &&& forall|g: int|
        0 <= g < info.groups.len() ==> (#[trigger] info.groups@[g]).range_start >= 1
            && info.groups@[g].range_end >= 1
    &&& forall|k: usize| #[trigger] info.versions@.contains_key(k) <==> 1 <= k <= info.versions.len()
}

/// The keys of the versions, `usize`, are ordered as `BTreeMap` expects.
proof fn lemma_keys_ordered()
    ensures
        vstd::laws_cmp::obeys_cmp::<usize>(),
{
    broadcast use vstd::laws_cmp::group_laws_cmp;

}

/// The entry of the version with the given index in the information.
pub open spec fn entry_at(info: VersionInfo, i: int) -> VersionEntry {
    info.versions@[(i + 1) as usize]
}

/// The group `g` of the information as a group of the tables: its range
/// counted by index rather than by number.
pub open spec fn group_table_of(g: VersionGroupInfo) -> GroupTable {
    GroupTable {
        start: (g.range_start - 1) as usize,
        last: (g.range_end - 1) as usize,
        numeric_count_indicator_length: g.numeric_count_indicator_length,
        alphanumeric_count_indicator_length: g.alphanumeric_count_indicator_length,
        byte_count_indicator_length: g.byte_count_indicator_length,
        kanji_count_indicator_length: g.kanji_count_indicator_length,
    }
}

/// Turns the version information into the tables of the versions: group
/// ranges counted by index, the data codewords of each version, its blocks
/// with each group of equal blocks written out block by block, and its
/// alignment pattern coordinates.
pub fn generate(version_info: &VersionInfo) -> (tables: VersionTables)
    requires
        generatable(*version_info),
    ensures
        tables.groups@ == version_info.groups@.map_values(|g: VersionGroupInfo| group_table_of(g)),
        tables.data_codewords@ == Seq::new(
            version_info.versions.len() as nat,
            |i: int| entry_at(*version_info, i).data_codewords,
        ),
        tables.error_correction_blocks.len() == version_info.versions.len(),
        forall|i: int|
            0 <= i < version_info.versions.len() ==> (#[trigger] tables.error_correction_blocks@[i])@
                == expand_groups(block_groups_of(entry_at(*version_info, i).error_correction_blocks@)),
        tables.alignment_pattern_coordinates.len() == version_info.versions.len(),
        forall|i: int|
            0 <= i < version_info.versions.len() ==> (#[trigger] tables.alignment_pattern_coordinates@[i])@
                == entry_at(*version_info, i).alignment_pattern_coordinates@,
{
    broadcast use vstd::std_specs::btree::group_btree_axioms;

    proof {
        lemma_keys_ordered();
    }

    let mut groups: Vec<GroupTable> = Vec::new();
    let mut g: usize = 0;
    while g < version_info.groups.len()
        invariant
            generatable(*version_info),
            g <= version_info.groups.len(),
            groups@ == version_info.groups@.take(g as int).map_values(
                |gi: VersionGroupInfo| group_table_of(gi),
            ),
        decreases version_info.groups.len() - g,
    {
        let group = version_info.groups[g];
        assert(version_info.groups@[g as int] == group);
        groups.push(
            GroupTable {
                start: group.range_start - 1,
                last: group.range_end - 1,
                numeric_count_indicator_length: group.numeric_count_indicator_length,
                alphanumeric_count_indicator_length: group.alphanumeric_count_indicator_length,
                byte_count_indicator_length: group.byte_count_indicator_length,
                kanji_count_indicator_length: group.kanji_count_indicator_length,
            },
        );
        assert(version_info.groups@.take(g + 1) == version_info.groups@.take(g as int).push(group));
        g += 1;
    }
    assert(version_info.groups@.take(version_info.groups.len() as int) == version_info.groups@);

    let mut data_codewords: Vec<usize> = Vec::new();
    let mut error_correction_blocks: Vec<Vec<ErrorCorrectionBlock>> = Vec::new();
    let mut alignment_pattern_coordinates: Vec<Vec<usize>> = Vec::new();
    let n = version_info.versions.len();
    let mut v: usize = 0;
    while v < n
        invariant
            generatable(*version_info),
            n == version_info.versions.len(),
            v <= n,
            data_codewords@ == Seq::new(v as nat, |i: int| entry_at(*version_info, i).data_codewords),
            error_correction_blocks.len() == v,
            alignment_pattern_coordinates.len() == v,
            forall|i: int|
                0 <= i < v ==> (#[trigger] error_correction_blocks@[i])@ == expand_groups(
                    block_groups_of(entry_at(*version_info, i).error_correction_blocks@),
                ),
            forall|i: int|
                0 <= i < v ==> (#[trigger] alignment_pattern_coordinates@[i])@
                    == entry_at(*version_info, i).alignment_pattern_coordinates@,
        decreases n - v,
    {
        let key = v + 1;
        assert(version_info.versions@.contains_key(key));
        let found = version_info.versions.get(&key);
        match found {
            Some(entry) => {
                assert(*entry == entry_at(*version_info, v as int));
                data_codewords.push(entry.data_codewords);

                let mut block_groups: Vec<(usize, usize, usize)> = Vec::new();
                let mut b: usize = 0;
                while b < entry.error_correction_blocks.len()
                    invariant
                        b <= entry.error_correction_blocks.len(),
                        block_groups@ == block_groups_of(entry.error_correction_blocks@.take(b as int)),
                    decreases entry.error_correction_blocks.len() - b,
                {
                    let block = entry.error_correction_blocks[b];
                    block_groups.push((block.count, block.total_codewords, block.data_codewords));
                    assert(entry.error_correction_blocks@.take(b + 1) == entry.error_correction_blocks@.take(
                        b as int,
                    ).push(block));
                    b += 1;
                }
                assert(entry.error_correction_blocks@.take(entry.error_correction_blocks.len() as int)
                    == entry.error_correction_blocks@);
                error_correction_blocks.push(expand_block_groups(&block_groups));
                alignment_pattern_coordinates.push(slice_to_vec(entry.alignment_pattern_coordinates.as_slice()));
            },
            None => {
                proof {
                    assert(false);
                }
            },
        }
        v += 1;
    }
    VersionTables { groups, data_codewords, error_correction_blocks, alignment_pattern_coordinates }
}

} // verus!
