//! The versions of the symbol, from 1 to 40, and their capacities, block
//! structure and alignment patterns, at error correction level H.
use vstd::prelude::*;

verus! {

/// The number of versions.
pub const VERSION_COUNT: usize = 40;

/// A version of the symbol, identified by its index: version number minus one.
#[derive(Copy, Clone, Debug)]
pub struct Version(usize);

/// A block of codewords: `data_codewords` data codewords followed by
/// `total_codewords - data_codewords` error correction codewords.
#[derive(Copy, Clone, Debug)]
pub struct ErrorCorrectionBlock {
    pub total_codewords: usize,
    pub data_codewords: usize,
}

/// An inclusive range of versions.
#[derive(Copy, Clone, Debug)]
pub struct VersionRange {
    pub start: Version,
    pub last: Version,
}

/// A range of versions that share the lengths of the character count indicators.
#[derive(Copy, Clone, Debug)]
pub struct VersionGroup {
    pub range: VersionRange,
    pub numeric_count_indicator_length: usize,
    pub alphanumeric_count_indicator_length: usize,
    pub byte_count_indicator_length: usize,
    pub kanji_count_indicator_length: usize,
}

/// The number of data codewords of the version with the given index.
pub open spec fn data_codewords_at(index: nat) -> usize {
    if index == 0 {
        9
    } else if index == 1 {
        16
    } else if index == 2 {
        26
    } else if index == 3 {
        36
    } else if index == 4 {
        46
    } else if index == 5 {
        60
    } else if index == 6 {
        66
    } else if index == 7 {
        86
    } else if index == 8 {
        100
    } else if index == 9 {
        122
    } else if index == 10 {
        140
    } else if index == 11 {
        158
    } else if index == 12 {
        180
    } else if index == 13 {
        197
    } else if index == 14 {
        223
    } else if index == 15 {
        253
    } else if index == 16 {
        283
    } else if index == 17 {
        313
    } else if index == 18 {
        341
    } else if index == 19 {
        385
    } else if index == 20 {
        406
    } else if index == 21 {
        442
    } else if index == 22 {
        464
    } else if index == 23 {
        514
    } else if index == 24 {
        538
    } else if index == 25 {
        596
    } else if index == 26 {
        628
    } else if index == 27 {
        661
    } else if index == 28 {
        701
    } else if index == 29 {
        745
    } else if index == 30 {
        793
    } else if index == 31 {
        845
    } else if index == 32 {
        901
    } else if index == 33 {
        961
    } else if index == 34 {
        986
    } else if index == 35 {
        1054
    } else if index == 36 {
        1096
    } else if index == 37 {
        1142
    } else if index == 38 {
        1222
    } else {
        1276
    }
}

/// The number of data codewords of each version, by index.
pub open spec fn data_codewords_table() -> Seq<usize> {
    Seq::new(VERSION_COUNT as nat, |i: int| data_codewords_at(i as nat))
}

/// The number of codewords, data and error correction, of the version with
/// the given index.
pub open spec fn total_codewords_at(index: nat) -> nat {
    if index == 0 {
        26
    } else if index == 1 {
        44
    } else if index == 2 {
        70
    } else if index == 3 {
        100
    } else if index == 4 {
        134
    } else if index == 5 {
        172
    } else if index == 6 {
        196
    } else if index == 7 {
        242
    } else if index == 8 {
        292
    } else if index == 9 {
        346
    } else if index == 10 {
        404
    } else if index == 11 {
        466
    } else if index == 12 {
        532
    } else if index == 13 {
        581
    } else if index == 14 {
        655
    } else if index == 15 {
        733
    } else if index == 16 {
        815
    } else if index == 17 {
        901
    } else if index == 18 {
        991
    } else if index == 19 {
        1085
    } else if index == 20 {
        1156
    } else if index == 21 {
        1258
    } else if index == 22 {
        1364
    } else if index == 23 {
        1474
    } else if index == 24 {
        1588
    } else if index == 25 {
        1706
    } else if index == 26 {
        1828
    } else if index == 27 {
        1921
    } else if index == 28 {
        2051
    } else if index == 29 {
        2185
    } else if index == 30 {
        2323
    } else if index == 31 {
        2465
    } else if index == 32 {
        2611
    } else if index == 33 {
        2761
    } else if index == 34 {
        2876
    } else if index == 35 {
        3034
    } else if index == 36 {
        3196
    } else if index == 37 {
        3362
    } else if index == 38 {
        3532
    } else {
        3706
    }
}

/// The block groups `(count, total_codewords, data_codewords)` of each version, by index.
pub open spec fn block_groups_table(index: nat) -> Seq<(usize, usize, usize)> {
    if index == 0 {
        seq![(1usize, 26usize, 9usize)]
    } else if index == 1 {
        seq![(1usize, 44usize, 16usize)]
    } else if index == 2 {
        seq![(2usize, 35usize, 13usize)]
    } else if index == 3 {
        seq![(4usize, 25usize, 9usize)]
    } else if index == 4 {
        seq![(2usize, 33usize, 11usize), (2usize, 34usize, 12usize)]
    } else if index == 5 {
        seq![(4usize, 43usize, 15usize)]
    } else if index == 6 {
        seq![(4usize, 39usize, 13usize), (1usize, 40usize, 14usize)]
    } else if index == 7 {
        seq![(4usize, 40usize, 14usize), (2usize, 41usize, 15usize)]
    } else if index == 8 {
        seq![(4usize, 36usize, 12usize), (4usize, 37usize, 13usize)]
    } else if index == 9 {
        seq![(6usize, 43usize, 15usize), (2usize, 44usize, 16usize)]
    } else if index == 10 {
        seq![(3usize, 36usize, 12usize), (8usize, 37usize, 13usize)]
    } else if index == 11 {
        seq![(7usize, 42usize, 14usize), (4usize, 43usize, 15usize)]
    } else if index == 12 {
        seq![(12usize, 33usize, 11usize), (4usize, 34usize, 12usize)]
    } else if index == 13 {
        seq![(11usize, 36usize, 12usize), (5usize, 37usize, 13usize)]
    } else if index == 14 {
        seq![(11usize, 36usize, 12usize), (7usize, 37usize, 13usize)]
    } else if index == 15 {
        seq![(3usize, 45usize, 15usize), (13usize, 46usize, 16usize)]
    } else if index == 16 {
        seq![(2usize, 42usize, 14usize), (17usize, 43usize, 15usize)]
    } else if index == 17 {
        seq![(2usize, 42usize, 14usize), (19usize, 43usize, 15usize)]
    } else if index == 18 {
        seq![(9usize, 39usize, 13usize), (16usize, 40usize, 14usize)]
    } else if index == 19 {
        seq![(15usize, 43usize, 15usize), (10usize, 44usize, 16usize)]
    } else if index == 20 {
        seq![(19usize, 46usize, 16usize), (6usize, 47usize, 17usize)]
    } else if index == 21 {
        seq![(34usize, 37usize, 13usize)]
    } else if index == 22 {
        seq![(16usize, 45usize, 15usize), (14usize, 46usize, 16usize)]
    } else if index == 23 {
        seq![(30usize, 46usize, 16usize), (2usize, 47usize, 17usize)]
    } else if index == 24 {
        seq![(22usize, 45usize, 15usize), (13usize, 46usize, 16usize)]
    } else if index == 25 {
        seq![(33usize, 46usize, 16usize), (4usize, 47usize, 17usize)]
    } else if index == 26 {
        seq![(12usize, 45usize, 15usize), (28usize, 46usize, 16usize)]
    } else if index == 27 {
        seq![(11usize, 45usize, 15usize), (31usize, 46usize, 16usize)]
    } else if index == 28 {
        seq![(19usize, 45usize, 15usize), (26usize, 46usize, 16usize)]
    } else if index == 29 {
        seq![(23usize, 45usize, 15usize), (25usize, 46usize, 16usize)]
    } else if index == 30 {
        seq![(23usize, 45usize, 15usize), (28usize, 46usize, 16usize)]
    } else if index == 31 {
        seq![(19usize, 45usize, 15usize), (35usize, 46usize, 16usize)]
    } else if index == 32 {
        seq![(11usize, 45usize, 15usize), (46usize, 46usize, 16usize)]
    } else if index == 33 {
        seq![(59usize, 46usize, 16usize), (1usize, 47usize, 17usize)]
    } else if index == 34 {
        seq![(22usize, 45usize, 15usize), (41usize, 46usize, 16usize)]
    } else if index == 35 {
        seq![(2usize, 45usize, 15usize), (64usize, 46usize, 16usize)]
    } else if index == 36 {
        seq![(24usize, 45usize, 15usize), (46usize, 46usize, 16usize)]
    } else if index == 37 {
        seq![(42usize, 45usize, 15usize), (32usize, 46usize, 16usize)]
    } else if index == 38 {
        seq![(10usize, 45usize, 15usize), (67usize, 46usize, 16usize)]
    } else {
        seq![(20usize, 45usize, 15usize), (61usize, 46usize, 16usize)]
    }
}

/// The alignment pattern coordinates of each version, by index.
pub open spec fn alignment_table(index: nat) -> Seq<usize> {
    if index == 0 {
        Seq::empty()
    } else if index == 1 {
        seq![6usize, 18usize]
    } else if index == 2 {
        seq![6usize, 22usize]
    } else if index == 3 {
        seq![6usize, 26usize]
    } else if index == 4 {
        seq![6usize, 30usize]
    } else if index == 5 {
        seq![6usize, 34usize]
    } else if index == 6 {
        seq![6usize, 22usize, 38usize]
    } else if index == 7 {
        seq![6usize, 24usize, 42usize]
    } else if index == 8 {
        seq![6usize, 26usize, 46usize]
    } else if index == 9 {
        seq![6usize, 28usize, 50usize]
    } else if index == 10 {
        seq![6usize, 30usize, 54usize]
    } else if index == 11 {
        seq![6usize, 32usize, 58usize]
    } else if index == 12 {
        seq![6usize, 34usize, 62usize]
    } else if index == 13 {
        seq![6usize, 26usize, 46usize, 66usize]
    } else if index == 14 {
        seq![6usize, 26usize, 48usize, 70usize]
    } else if index == 15 {
        seq![6usize, 26usize, 50usize, 74usize]
    } else if index == 16 {
        seq![6usize, 30usize, 54usize, 78usize]
    } else if index == 17 {
        seq![6usize, 30usize, 56usize, 82usize]
    } else if index == 18 {
        seq![6usize, 30usize, 58usize, 86usize]
    } else if index == 19 {
        seq![6usize, 34usize, 62usize, 90usize]
    } else if index == 20 {
        seq![6usize, 28usize, 50usize, 72usize, 94usize]
    } else if index == 21 {
        seq![6usize, 26usize, 50usize, 74usize, 98usize]
    } else if index == 22 {
        seq![6usize, 30usize, 54usize, 78usize, 102usize]
    } else if index == 23 {
        seq![6usize, 28usize, 54usize, 80usize, 106usize]
    } else if index == 24 {
        seq![6usize, 32usize, 58usize, 84usize, 110usize]
    } else if index == 25 {
        seq![6usize, 30usize, 58usize, 86usize, 114usize]
    } else if index == 26 {
        seq![6usize, 34usize, 62usize, 90usize, 118usize]
    } else if index == 27 {
        seq![6usize, 26usize, 50usize, 74usize, 98usize, 122usize]
    } else if index == 28 {
        seq![6usize, 30usize, 54usize, 78usize, 102usize, 126usize]
    } else if index == 29 {
        seq![6usize, 26usize, 52usize, 78usize, 104usize, 130usize]
    } else if index == 30 {
        seq![6usize, 30usize, 56usize, 82usize, 108usize, 134usize]
    } else if index == 31 {
        seq![6usize, 34usize, 60usize, 86usize, 112usize, 138usize]
    } else if index == 32 {
        seq![6usize, 30usize, 58usize, 86usize, 114usize, 142usize]
    } else if index == 33 {
        seq![6usize, 34usize, 62usize, 90usize, 118usize, 146usize]
    } else if index == 34 {
        seq![6usize, 30usize, 54usize, 78usize, 102usize, 126usize, 150usize]
    } else if index == 35 {
        seq![6usize, 24usize, 50usize, 76usize, 102usize, 128usize, 154usize]
    } else if index == 36 {
        seq![6usize, 28usize, 54usize, 80usize, 106usize, 132usize, 158usize]
    } else if index == 37 {
        seq![6usize, 32usize, 58usize, 84usize, 110usize, 136usize, 162usize]
    } else if index == 38 {
        seq![6usize, 26usize, 54usize, 82usize, 110usize, 138usize, 166usize]
    } else {
        seq![6usize, 30usize, 58usize, 86usize, 114usize, 142usize, 170usize]
    }
}

fn data_codewords_vec() -> (t: Vec<usize>)
    ensures
        t@ == data_codewords_table(),
{
    let t: Vec<usize> = vec![9, 16, 26, 36, 46, 60, 66, 86, 100, 122, 140, 158, 180, 197, 223, 253, 283, 313, 341, 385, 406, 442, 464, 514, 538, 596, 628, 661, 701, 745, 793, 845, 901, 961, 986, 1054, 1096, 1142, 1222, 1276];
    assert(t@ == data_codewords_table());
    t
}

fn block_groups_vec(index: usize) -> (t: Vec<(usize, usize, usize)>)
    requires
        index < VERSION_COUNT,
    ensures
        t@ == block_groups_table(index as nat),
{
    let t: Vec<(usize, usize, usize)> = match index {
        0 => vec![(1, 26, 9)],
        1 => vec![(1, 44, 16)],
        2 => vec![(2, 35, 13)],
        3 => vec![(4, 25, 9)],
        4 => vec![(2, 33, 11), (2, 34, 12)],
        5 => vec![(4, 43, 15)],
        6 => vec![(4, 39, 13), (1, 40, 14)],
        7 => vec![(4, 40, 14), (2, 41, 15)],
        8 => vec![(4, 36, 12), (4, 37, 13)],
        9 => vec![(6, 43, 15), (2, 44, 16)],
        10 => vec![(3, 36, 12), (8, 37, 13)],
        11 => vec![(7, 42, 14), (4, 43, 15)],
        12 => vec![(12, 33, 11), (4, 34, 12)],
        13 => vec![(11, 36, 12), (5, 37, 13)],
        14 => vec![(11, 36, 12), (7, 37, 13)],
        15 => vec![(3, 45, 15), (13, 46, 16)],
        16 => vec![(2, 42, 14), (17, 43, 15)],
        17 => vec![(2, 42, 14), (19, 43, 15)],
        18 => vec![(9, 39, 13), (16, 40, 14)],
        19 => vec![(15, 43, 15), (10, 44, 16)],
        20 => vec![(19, 46, 16), (6, 47, 17)],
        21 => vec![(34, 37, 13)],
        22 => vec![(16, 45, 15), (14, 46, 16)],
        23 => vec![(30, 46, 16), (2, 47, 17)],
        24 => vec![(22, 45, 15), (13, 46, 16)],
        25 => vec![(33, 46, 16), (4, 47, 17)],
        26 => vec![(12, 45, 15), (28, 46, 16)],
        27 => vec![(11, 45, 15), (31, 46, 16)],
        28 => vec![(19, 45, 15), (26, 46, 16)],
        29 => vec![(23, 45, 15), (25, 46, 16)],
        30 => vec![(23, 45, 15), (28, 46, 16)],
        31 => vec![(19, 45, 15), (35, 46, 16)],
        32 => vec![(11, 45, 15), (46, 46, 16)],
        33 => vec![(59, 46, 16), (1, 47, 17)],
        34 => vec![(22, 45, 15), (41, 46, 16)],
        35 => vec![(2, 45, 15), (64, 46, 16)],
        36 => vec![(24, 45, 15), (46, 46, 16)],
        37 => vec![(42, 45, 15), (32, 46, 16)],
        38 => vec![(10, 45, 15), (67, 46, 16)],
        _ => vec![(20, 45, 15), (61, 46, 16)],
    };
    assert(t@ == block_groups_table(index as nat));
    t
}

fn alignment_vec(index: usize) -> (t: Vec<usize>)
    requires
        index < VERSION_COUNT,
    ensures
        t@ == alignment_table(index as nat),
{
    let t: Vec<usize> = match index {
        0 => Vec::new(),
        1 => vec![6, 18],
        2 => vec![6, 22],
        3 => vec![6, 26],
        4 => vec![6, 30],
        5 => vec![6, 34],
        6 => vec![6, 22, 38],
        7 => vec![6, 24, 42],
        8 => vec![6, 26, 46],
        9 => vec![6, 28, 50],
        10 => vec![6, 30, 54],
        11 => vec![6, 32, 58],
        12 => vec![6, 34, 62],
        13 => vec![6, 26, 46, 66],
        14 => vec![6, 26, 48, 70],
        15 => vec![6, 26, 50, 74],
        16 => vec![6, 30, 54, 78],
        17 => vec![6, 30, 56, 82],
        18 => vec![6, 30, 58, 86],
        19 => vec![6, 34, 62, 90],
        20 => vec![6, 28, 50, 72, 94],
        21 => vec![6, 26, 50, 74, 98],
        22 => vec![6, 30, 54, 78, 102],
        23 => vec![6, 28, 54, 80, 106],
        24 => vec![6, 32, 58, 84, 110],
        25 => vec![6, 30, 58, 86, 114],
        26 => vec![6, 34, 62, 90, 118],
        27 => vec![6, 26, 50, 74, 98, 122],
        28 => vec![6, 30, 54, 78, 102, 126],
        29 => vec![6, 26, 52, 78, 104, 130],
        30 => vec![6, 30, 56, 82, 108, 134],
        31 => vec![6, 34, 60, 86, 112, 138],
        32 => vec![6, 30, 58, 86, 114, 142],
        33 => vec![6, 34, 62, 90, 118, 146],
        34 => vec![6, 30, 54, 78, 102, 126, 150],
        35 => vec![6, 24, 50, 76, 102, 128, 154],
        36 => vec![6, 28, 54, 80, 106, 132, 158],
        37 => vec![6, 32, 58, 84, 110, 136, 162],
        38 => vec![6, 26, 54, 82, 110, 138, 166],
        _ => vec![6, 30, 58, 86, 114, 142, 170],
    };
    assert(t@ == alignment_table(index as nat));
    t
}

/// `count` copies of the block `b`.
pub open spec fn repeat_block(b: ErrorCorrectionBlock, count: nat) -> Seq<ErrorCorrectionBlock> {
    Seq::new(count, |i: int| b)
}

/// The blocks described by `groups`: each group `(count, total, data)` stands
/// for `count` equal blocks.
pub open spec fn expand_groups(groups: Seq<(usize, usize, usize)>) -> Seq<ErrorCorrectionBlock>
    decreases groups.len(),
{
    if groups.len() == 0 {
        Seq::empty()
    } else {
        let (count, total, data) = groups.last();
        expand_groups(groups.drop_last()) + repeat_block(
            ErrorCorrectionBlock { total_codewords: total, data_codewords: data },
            count as nat,
        )
    }
}

/// The error correction blocks of each version, by index.
pub open spec fn blocks_table(index: nat) -> Seq<ErrorCorrectionBlock> {
    expand_groups(block_groups_table(index))
}

/// The number of version groups.
pub open spec fn group_count() -> nat {
    3
}

/// Index of the first version of each version group.
pub open spec fn group_start(g: nat) -> nat {
    if g == 0 { 0 } else if g == 1 { 9 } else { 26 }
}

/// Index of the last version of each version group.
pub open spec fn group_last(g: nat) -> nat {
    if g == 0 { 8 } else if g == 1 { 25 } else { 39 }
}

/// Length in bits of the character count indicator in byte mode, per version group.
pub open spec fn group_byte_count_bits(g: nat) -> nat {
    if g == 0 { 8 } else { 16 }
}

/// Length in bits of the character count indicator in numeric mode, per version group.
pub open spec fn group_numeric_count_bits(g: nat) -> nat {
    if g == 0 { 10 } else if g == 1 { 12 } else { 14 }
}

/// Length in bits of the character count indicator in alphanumeric mode, per version group.
pub open spec fn group_alphanumeric_count_bits(g: nat) -> nat {
    if g == 0 { 9 } else if g == 1 { 11 } else { 13 }
}

/// Length in bits of the character count indicator in kanji mode, per version group.
pub open spec fn group_kanji_count_bits(g: nat) -> nat {
    if g == 0 { 8 } else if g == 1 { 10 } else { 12 }
}

impl Version {
    #[verifier::type_invariant]
    spec fn is_valid(self) -> bool {
        self.0 < VERSION_COUNT
    }

    /// The index of this version: its number minus one.
    pub closed spec fn index(self) -> nat {
        self.0 as nat
    }

    /// The version number, from 1 to 40.
    pub fn number(&self) -> (n: u32)
        ensures
            n == self.index() + 1,
            self.index() < VERSION_COUNT,
    {
        proof {
            use_type_invariant(self);
        }
        self.0 as u32 + 1
    }

    /// The width and height of the symbol, in modules.
    pub fn size(&self) -> (s: usize)
        ensures
            s == 21 + 4 * self.index(),
            self.index() < VERSION_COUNT,
    {
        proof {
            use_type_invariant(self);
        }
        21 + self.0 * 4
    }

    /// The number of data codewords the symbol holds.
    pub fn data_codewords(&self) -> (c: usize)
        ensures
            c == data_codewords_table()[self.index() as int],
            self.index() < VERSION_COUNT,
    {
        proof {
            use_type_invariant(self);
        }
        let table = data_codewords_vec();
        table[self.0]
    }

    /// The error correction blocks the codewords are divided into.
    pub fn error_correction_blocks(&self) -> (blocks: Vec<ErrorCorrectionBlock>)
        ensures
            blocks@ == blocks_table(self.index()),
            self.index() < VERSION_COUNT,
    {
        proof {
            use_type_invariant(self);
        }
        let groups = block_groups_vec(self.0);
        expand_block_groups(&groups)
    }

    /// The row and column coordinates of the centres of the alignment patterns.
    pub fn alignment_pattern_coordinates(&self) -> (c: Vec<usize>)
        ensures
            c@ == alignment_table(self.index()),
            self.index() < VERSION_COUNT,
    {
        proof {
            use_type_invariant(self);
        }
        alignment_vec(self.0)
    }
}

/// The blocks described by `groups`, each group `(count, total, data)`
/// standing for `count` equal blocks, in order.
pub(crate) fn expand_block_groups(groups: &Vec<(usize, usize, usize)>) -> (blocks: Vec<ErrorCorrectionBlock>)
    ensures
        blocks@ == expand_groups(groups@),
{
    let mut blocks: Vec<ErrorCorrectionBlock> = Vec::new();
    let mut g: usize = 0;
    while g < groups.len()
        invariant
            g <= groups.len(),
            blocks@ == expand_groups(groups@.take(g as int)),
        decreases groups.len() - g,
    {
        let (count, total, data) = groups[g];
        let ghost before = blocks@;
        let mut i: usize = 0;
        while i < count
            invariant
                i <= count,
                blocks@ == before + repeat_block(
                    ErrorCorrectionBlock { total_codewords: total, data_codewords: data },
                    i as nat,
                ),
            decreases count - i,
        {
            blocks.push(ErrorCorrectionBlock { total_codewords: total, data_codewords: data });
            i += 1;
        }
        assert(groups@.take(g + 1).drop_last() == groups@.take(g as int));
        g += 1;
    }
    assert(groups@.take(groups.len() as int) == groups@);
    blocks
}

/// The version groups, in order of increasing versions.
pub fn version_groups() -> (groups: Vec<VersionGroup>)
    ensures
        groups.len() == group_count(),
        forall|g: int|
            0 <= g < group_count() ==> {
                &&& (#[trigger] groups@[g]).range.start.index() == group_start(g as nat)
                &&& groups@[g].range.last.index() == group_last(g as nat)
                &&& groups@[g].byte_count_indicator_length == group_byte_count_bits(g as nat)
                &&& groups@[g].numeric_count_indicator_length == group_numeric_count_bits(g as nat)
                &&& groups@[g].alphanumeric_count_indicator_length == group_alphanumeric_count_bits(g as nat)
                &&& groups@[g].kanji_count_indicator_length == group_kanji_count_bits(g as nat)
            },
{
    vec![
        VersionGroup {
            range: VersionRange { start: Version(0), last: Version(8) },
            numeric_count_indicator_length: 10,
            alphanumeric_count_indicator_length: 9,
            byte_count_indicator_length: 8,
            kanji_count_indicator_length: 8,
        },
        VersionGroup {
            range: VersionRange { start: Version(9), last: Version(25) },
            numeric_count_indicator_length: 12,
            alphanumeric_count_indicator_length: 11,
            byte_count_indicator_length: 16,
            kanji_count_indicator_length: 10,
        },
        VersionGroup {
            range: VersionRange { start: Version(26), last: Version(39) },
            numeric_count_indicator_length: 14,
            alphanumeric_count_indicator_length: 13,
            byte_count_indicator_length: 16,
            kanji_count_indicator_length: 12,
        },
    ]
}

/// The number of data codewords of the version `q` places after index `start`.
pub open spec fn skipped_capacity(start: nat, q: int) -> usize {
    data_codewords_table()[start + q]
}

/// The number of versions that `find_version_with_data_capacity` looks at
/// when given a range from index `start` to index `last`: it takes `last + 1`
/// versions from `start` on, as far as there are any.
pub open spec fn search_len(start: nat, last: nat) -> nat {
    if last + 1 <= VERSION_COUNT - start {
        last + 1
    } else {
        (VERSION_COUNT - start) as nat
    }
}

/// The position, among the `n` versions from index `start` on, of the first
/// with at least `capacity` data codewords, looking from position `p` on.
pub open spec fn capacity_search(capacity: nat, start: nat, n: nat, p: nat) -> Option<nat>
    decreases n - p,
{
    if p >= n {
        None
    } else if skipped_capacity(start, p as int) >= capacity {
        Some(p)
    } else {
        capacity_search(capacity, start, n, p + 1)
    }
}

/// The index of the version `find_version_with_data_capacity` returns for
/// `capacity` and the range from index `start` to index `last`, if any.
pub open spec fn find_version_spec(capacity: nat, start: nat, last: nat) -> Option<nat> {
    capacity_search(capacity, start, search_len(start, last), 0)
}

proof fn lemma_capacity_search_skip(capacity: nat, start: nat, n: nat, p: nat)
    requires
        p <= n,
        forall|q: int| 0 <= q < p ==> #[trigger] skipped_capacity(start, q) < capacity,
    ensures
        capacity_search(capacity, start, n, 0) == capacity_search(capacity, start, n, p),
    decreases p,
{
    if p > 0 {
        lemma_capacity_search_skip(capacity, start, n, (p - 1) as nat);
        assert(skipped_capacity(start, (p - 1) as int) < capacity);
    }
}

/// The search finds a version as soon as one of the versions it looks at
/// has the capacity.
pub proof fn lemma_capacity_search_finds(capacity: nat, start: nat, n: nat, p: nat, q: nat)
    requires
        p <= q < n,
        skipped_capacity(start, q as int) >= capacity,
    ensures
        capacity_search(capacity, start, n, p) is Some,
    decreases q - p,
{
    if p < q && skipped_capacity(start, p as int) < capacity {
        lemma_capacity_search_finds(capacity, start, n, p + 1, q);
    }
}

/// Looks through the versions from `version_range.start` on, at most
/// `version_range.last + 1` of them, for the first with at least `capacity`
/// data codewords, and returns the version whose index is the position of
/// that one among those looked at.
pub fn find_version_with_data_capacity(capacity: usize, version_range: VersionRange) -> (r: Option<
    Version,
>)
    ensures
        ({
            let s = version_range.start.index();
            let n = search_len(s, version_range.last.index());
            &&& match r {
                Some(v) => find_version_spec(capacity as nat, s, version_range.last.index()) == Some(v.index()),
                None => find_version_spec(capacity as nat, s, version_range.last.index()) is None,
            }
            &&& match r {
                Some(v) => {
                    &&& v.index() < n
                    &&& skipped_capacity(s, v.index() as int) >= capacity
                    &&& forall|q: int| 0 <= q < v.index() ==> #[trigger] skipped_capacity(s, q) < capacity
                },
                None => forall|q: int| 0 <= q < n ==> #[trigger] skipped_capacity(s, q) < capacity,
            }
        }),
{
    proof {
        use_type_invariant(&version_range.start);
        use_type_invariant(&version_range.last);
    }
    let table = data_codewords_vec();
    let start = version_range.start.0;
    let take = version_range.last.0 + 1;
    let mut p: usize = 0;
    while p < take && start + p < VERSION_COUNT
        invariant
            start < VERSION_COUNT,
            take <= VERSION_COUNT,
            start == version_range.start.index(),
            take == version_range.last.index() + 1,
            p <= take,
            start + p <= VERSION_COUNT,
            table@ == data_codewords_table(),
            forall|q: int| 0 <= q < p ==> #[trigger] skipped_capacity(start as nat, q) < capacity,
        decreases take - p,
    {
        if table[start + p] >= capacity {
            proof {
                lemma_capacity_search_skip(capacity as nat, start as nat, search_len(start as nat, (take - 1) as nat), p as nat);
            }
            return Some(Version(p));
        }
        p += 1;
    }
    proof {
        lemma_capacity_search_skip(capacity as nat, start as nat, search_len(start as nat, (take - 1) as nat), p as nat);
    }
    None
}

/// The sum of the data codewords of `blocks`.
pub open spec fn total_data(blocks: Seq<ErrorCorrectionBlock>) -> nat
    decreases blocks.len(),
{
    if blocks.len() == 0 {
        0
    } else {
        total_data(blocks.drop_last()) + blocks.last().data_codewords as nat
    }
}

/// Every block holds at least one data codeword and a supported number of
/// error correction codewords.
pub open spec fn block_ok(b: ErrorCorrectionBlock) -> bool {
    &&& b.total_codewords <= 47
    &&& b.data_codewords >= 1
    &&& b.total_codewords > b.data_codewords
    &&& crate::gf::is_supported_degree((b.total_codewords - b.data_codewords) as usize)
}

spec fn groups_ok(groups: Seq<(usize, usize, usize)>) -> bool
    decreases groups.len(),
{
    if groups.len() == 0 {
        true
    } else {
        let (count, total, data) = groups.last();
        &&& groups_ok(groups.drop_last())
        &&& count >= 1
        &&& block_ok(ErrorCorrectionBlock { total_codewords: total, data_codewords: data })
    }
}

spec fn groups_count(groups: Seq<(usize, usize, usize)>) -> nat
    decreases groups.len(),
{
    if groups.len() == 0 {
        0
    } else {
        groups_count(groups.drop_last()) + groups.last().0 as nat
    }
}

spec fn groups_data(groups: Seq<(usize, usize, usize)>) -> nat
    decreases groups.len(),
{
    if groups.len() == 0 {
        0
    } else {
        let (count, total, data) = groups.last();
        groups_data(groups.drop_last()) + (count * data) as nat
    }
}

spec fn groups_total(groups: Seq<(usize, usize, usize)>) -> nat
    decreases groups.len(),
{
    if groups.len() == 0 {
        0
    } else {
        let (count, total, data) = groups.last();
        groups_total(groups.drop_last()) + (count * total) as nat
    }
}

/// A table row of one group, or of two groups whose blocks have the same
/// number of error correction codewords and where the second group's blocks
/// hold one data codeword more.
spec fn groups_shaped(groups: Seq<(usize, usize, usize)>) -> bool {
    ||| groups.len() == 1
    ||| groups.len() == 2 && groups[0].1 - groups[0].2 == groups[1].1 - groups[1].2 && groups[0].2 + 1
        == groups[1].2
}

/// Every block has as many error correction codewords as the last block,
/// and at most as many data codewords.
pub open spec fn blocks_shaped(blocks: Seq<ErrorCorrectionBlock>) -> bool {
    forall|b: int|
        0 <= b < blocks.len() ==> {
            &&& (#[trigger] blocks[b]).total_codewords - blocks[b].data_codewords
                == blocks.last().total_codewords - blocks.last().data_codewords
            &&& blocks[b].data_codewords <= blocks.last().data_codewords
        }
}

/// The sum of the codewords, data and error correction, of `blocks`.
pub open spec fn total_codewords(blocks: Seq<ErrorCorrectionBlock>) -> nat
    decreases blocks.len(),
{
    if blocks.len() == 0 {
        0
    } else {
        total_codewords(blocks.drop_last()) + blocks.last().total_codewords as nat
    }
}

proof fn lemma_expand_shaped(groups: Seq<(usize, usize, usize)>)
    requires
        groups_ok(groups),
        groups_shaped(groups),
    ensures
        blocks_shaped(expand_groups(groups)),
{
    reveal_with_fuel(groups_ok, 3);
    let (c1, t1, d1) = groups[0];
    let b1 = ErrorCorrectionBlock { total_codewords: t1, data_codewords: d1 };
    if groups.len() == 1 {
        assert(groups.drop_last().len() == 0);
        assert(expand_groups(groups.drop_last()) == Seq::<ErrorCorrectionBlock>::empty());
        assert(expand_groups(groups) =~= repeat_block(b1, c1 as nat));
    } else {
        let (c2, t2, d2) = groups[1];
        let b2 = ErrorCorrectionBlock { total_codewords: t2, data_codewords: d2 };
        let first = groups.drop_last();
        assert(first.len() == 1 && first[0] == groups[0]);
        assert(first.drop_last().len() == 0);
        assert(expand_groups(first.drop_last()) == Seq::<ErrorCorrectionBlock>::empty());
        assert(expand_groups(first) =~= repeat_block(b1, c1 as nat));
        let e = expand_groups(groups);
        assert(e == repeat_block(b1, c1 as nat) + repeat_block(b2, c2 as nat));
        assert(e.last() == b2);
        assert forall|b: int| 0 <= b < e.len() implies #[trigger] e[b] == b1 || e[b] == b2 by {
            if b < c1 {
                assert(e[b] == b1);
            } else {
                assert(e[b] == b2);
            }
        }
    }
}

pub proof fn lemma_total_data_append(a: Seq<ErrorCorrectionBlock>, b: Seq<ErrorCorrectionBlock>)
    ensures
        total_data(a + b) == total_data(a) + total_data(b),
    decreases b.len(),
{
    if b.len() == 0 {
        assert(a + b == a);
    } else {
        lemma_total_data_append(a, b.drop_last());
        assert((a + b).drop_last() == a + b.drop_last());
    }
}

proof fn lemma_total_data_repeat(count: nat, b: ErrorCorrectionBlock)
    ensures
        total_data(repeat_block(b, count)) == count * b.data_codewords,
    decreases count,
{
    if count > 0 {
        lemma_total_data_repeat((count - 1) as nat, b);
        assert(repeat_block(b, count).drop_last() == repeat_block(b, (count - 1) as nat));
        assert(repeat_block(b, count).last() == b);
        assert(total_data(repeat_block(b, count)) == total_data(repeat_block(b, (count - 1) as nat))
            + b.data_codewords);
        let c1 = (count - 1) as nat;
        let d = b.data_codewords as nat;
        assert(count * d == c1 * d + d) by (nonlinear_arith)
            requires
                c1 == count - 1,
        ;
        assert(total_data(repeat_block(b, c1)) == c1 * d);
        assert(total_data(repeat_block(b, count)) == c1 * d + d);
    } else {
        assert(total_data(repeat_block(b, count)) == 0);
    }
}

proof fn lemma_expand_groups(groups: Seq<(usize, usize, usize)>)
    requires
        groups_ok(groups),
    ensures
        total_data(expand_groups(groups)) == groups_data(groups),
        expand_groups(groups).len() == groups_count(groups),
        forall|b: int| 0 <= b < expand_groups(groups).len() ==> block_ok(#[trigger] expand_groups(groups)[b]),
        groups.len() > 0 ==> expand_groups(groups).len() > 0,
    decreases groups.len(),
{
    if groups.len() > 0 {
        let (count, total, data) = groups.last();
        let blk = ErrorCorrectionBlock { total_codewords: total, data_codewords: data };
        lemma_expand_groups(groups.drop_last());
        lemma_total_data_append(expand_groups(groups.drop_last()), repeat_block(blk, count as nat));
        lemma_total_data_repeat(count as nat, blk);
    }
}

proof fn lemma_group_list(g: Seq<(usize, usize, usize)>, first: (usize, usize, usize), second: Option<(usize, usize, usize)>)
    requires
        g.len() == if second is Some { 2nat } else { 1nat },
        g[0] == first,
        second matches Some(s) ==> g[1] == s,
    ensures
        groups_ok(g) <==> {
            &&& first.0 >= 1
            &&& block_ok(ErrorCorrectionBlock { total_codewords: first.1, data_codewords: first.2 })
            &&& second matches Some(s) ==> s.0 >= 1
                && block_ok(ErrorCorrectionBlock { total_codewords: s.1, data_codewords: s.2 })
        },
        groups_count(g) == match second {
            Some(s) => (first.0 + s.0) as nat,
            None => first.0 as nat,
        },
        groups_data(g) == match second {
            Some(s) => (first.0 * first.2 + s.0 * s.2) as nat,
            None => (first.0 * first.2) as nat,
        },
{
    reveal_with_fuel(groups_ok, 3);
    reveal_with_fuel(groups_data, 3);
    reveal_with_fuel(groups_count, 3);
    if g.len() == 2 {
        assert(g.drop_last().len() == 1);
        assert(g.drop_last()[0] == g[0]);
        assert(g.drop_last().drop_last().len() == 0);
    } else {
        assert(g.drop_last().len() == 0);
    }
}

#[verifier::spinoff_prover]
proof fn lemma_groups_table_0_9(index: nat)
    requires
        0 <= index <= 9,
    ensures
        groups_ok(block_groups_table(index)),
        groups_data(block_groups_table(index)) == data_codewords_table()[index as int],
        groups_count(block_groups_table(index)) <= 81,
        block_groups_table(index).len() > 0,
{
    assert(data_codewords_table()[index as int] == data_codewords_at(index));
    if index == 0 {
        let g = block_groups_table(index);
        lemma_group_list(g, (1usize, 26usize, 9usize), None);
        assert(g[0] == (1usize, 26usize, 9usize));
        assert(groups_data(g) == 1 * 9);
    } else if index == 1 {
        lemma_group_list(block_groups_table(index), (1usize, 44usize, 16usize), None);
    } else if index == 2 {
        lemma_group_list(block_groups_table(index), (2usize, 35usize, 13usize), None);
    } else if index == 3 {
        lemma_group_list(block_groups_table(index), (4usize, 25usize, 9usize), None);
    } else if index == 4 {
        lemma_group_list(block_groups_table(index), (2usize, 33usize, 11usize), Some((2usize, 34usize, 12usize)));
    } else if index == 5 {
        lemma_group_list(block_groups_table(index), (4usize, 43usize, 15usize), None);
    } else if index == 6 {
        lemma_group_list(block_groups_table(index), (4usize, 39usize, 13usize), Some((1usize, 40usize, 14usize)));
    } else if index == 7 {
        lemma_group_list(block_groups_table(index), (4usize, 40usize, 14usize), Some((2usize, 41usize, 15usize)));
    } else if index == 8 {
        lemma_group_list(block_groups_table(index), (4usize, 36usize, 12usize), Some((4usize, 37usize, 13usize)));
    } else if index == 9 {
        lemma_group_list(block_groups_table(index), (6usize, 43usize, 15usize), Some((2usize, 44usize, 16usize)));
    }
}

#[verifier::spinoff_prover]
proof fn lemma_groups_table_10_19(index: nat)
    requires
        10 <= index <= 19,
    ensures
        groups_ok(block_groups_table(index)),
        groups_data(block_groups_table(index)) == data_codewords_table()[index as int],
        groups_count(block_groups_table(index)) <= 81,
        block_groups_table(index).len() > 0,
{
    assert(data_codewords_table()[index as int] == data_codewords_at(index));
    if index == 10 {
        lemma_group_list(block_groups_table(index), (3usize, 36usize, 12usize), Some((8usize, 37usize, 13usize)));
    } else if index == 11 {
        lemma_group_list(block_groups_table(index), (7usize, 42usize, 14usize), Some((4usize, 43usize, 15usize)));
    } else if index == 12 {
        lemma_group_list(block_groups_table(index), (12usize, 33usize, 11usize), Some((4usize, 34usize, 12usize)));
    } else if index == 13 {
        lemma_group_list(block_groups_table(index), (11usize, 36usize, 12usize), Some((5usize, 37usize, 13usize)));
    } else if index == 14 {
        lemma_group_list(block_groups_table(index), (11usize, 36usize, 12usize), Some((7usize, 37usize, 13usize)));
    } else if index == 15 {
        lemma_group_list(block_groups_table(index), (3usize, 45usize, 15usize), Some((13usize, 46usize, 16usize)));
    } else if index == 16 {
        lemma_group_list(block_groups_table(index), (2usize, 42usize, 14usize), Some((17usize, 43usize, 15usize)));
    } else if index == 17 {
        lemma_group_list(block_groups_table(index), (2usize, 42usize, 14usize), Some((19usize, 43usize, 15usize)));
    } else if index == 18 {
        lemma_group_list(block_groups_table(index), (9usize, 39usize, 13usize), Some((16usize, 40usize, 14usize)));
    } else if index == 19 {
        lemma_group_list(block_groups_table(index), (15usize, 43usize, 15usize), Some((10usize, 44usize, 16usize)));
    }
}

#[verifier::spinoff_prover]
proof fn lemma_groups_table_20_29(index: nat)
    requires
        20 <= index <= 29,
    ensures
        groups_ok(block_groups_table(index)),
        groups_data(block_groups_table(index)) == data_codewords_table()[index as int],
        groups_count(block_groups_table(index)) <= 81,
        block_groups_table(index).len() > 0,
{
    assert(data_codewords_table()[index as int] == data_codewords_at(index));
    if index == 20 {
        lemma_group_list(block_groups_table(index), (19usize, 46usize, 16usize), Some((6usize, 47usize, 17usize)));
    } else if index == 21 {
        lemma_group_list(block_groups_table(index), (34usize, 37usize, 13usize), None);
    } else if index == 22 {
        lemma_group_list(block_groups_table(index), (16usize, 45usize, 15usize), Some((14usize, 46usize, 16usize)));
    } else if index == 23 {
        lemma_group_list(block_groups_table(index), (30usize, 46usize, 16usize), Some((2usize, 47usize, 17usize)));
    } else if index == 24 {
        lemma_group_list(block_groups_table(index), (22usize, 45usize, 15usize), Some((13usize, 46usize, 16usize)));
    } else if index == 25 {
        lemma_group_list(block_groups_table(index), (33usize, 46usize, 16usize), Some((4usize, 47usize, 17usize)));
    } else if index == 26 {
        lemma_group_list(block_groups_table(index), (12usize, 45usize, 15usize), Some((28usize, 46usize, 16usize)));
    } else if index == 27 {
        lemma_group_list(block_groups_table(index), (11usize, 45usize, 15usize), Some((31usize, 46usize, 16usize)));
    } else if index == 28 {
        lemma_group_list(block_groups_table(index), (19usize, 45usize, 15usize), Some((26usize, 46usize, 16usize)));
    } else if index == 29 {
        lemma_group_list(block_groups_table(index), (23usize, 45usize, 15usize), Some((25usize, 46usize, 16usize)));
    }
}

#[verifier::spinoff_prover]
proof fn lemma_groups_table_30_39(index: nat)
    requires
        30 <= index <= 39,
    ensures
        groups_ok(block_groups_table(index)),
        groups_data(block_groups_table(index)) == data_codewords_table()[index as int],
        groups_count(block_groups_table(index)) <= 81,
        block_groups_table(index).len() > 0,
{
    assert(data_codewords_table()[index as int] == data_codewords_at(index));
    if index == 30 {
        lemma_group_list(block_groups_table(index), (23usize, 45usize, 15usize), Some((28usize, 46usize, 16usize)));
    } else if index == 31 {
        lemma_group_list(block_groups_table(index), (19usize, 45usize, 15usize), Some((35usize, 46usize, 16usize)));
    } else if index == 32 {
        lemma_group_list(block_groups_table(index), (11usize, 45usize, 15usize), Some((46usize, 46usize, 16usize)));
    } else if index == 33 {
        lemma_group_list(block_groups_table(index), (59usize, 46usize, 16usize), Some((1usize, 47usize, 17usize)));
    } else if index == 34 {
        lemma_group_list(block_groups_table(index), (22usize, 45usize, 15usize), Some((41usize, 46usize, 16usize)));
    } else if index == 35 {
        lemma_group_list(block_groups_table(index), (2usize, 45usize, 15usize), Some((64usize, 46usize, 16usize)));
    } else if index == 36 {
        lemma_group_list(block_groups_table(index), (24usize, 45usize, 15usize), Some((46usize, 46usize, 16usize)));
    } else if index == 37 {
        lemma_group_list(block_groups_table(index), (42usize, 45usize, 15usize), Some((32usize, 46usize, 16usize)));
    } else if index == 38 {
        lemma_group_list(block_groups_table(index), (10usize, 45usize, 15usize), Some((67usize, 46usize, 16usize)));
    } else if index == 39 {
        lemma_group_list(block_groups_table(index), (20usize, 45usize, 15usize), Some((61usize, 46usize, 16usize)));
    }
}

proof fn lemma_groups_table(index: nat)
    requires
        index < VERSION_COUNT,
    ensures
        groups_ok(block_groups_table(index)),
        groups_data(block_groups_table(index)) == data_codewords_table()[index as int],
        groups_count(block_groups_table(index)) <= 81,
        block_groups_table(index).len() > 0,
{
    if index < 10 {
        lemma_groups_table_0_9(index);
    } else if index < 20 {
        lemma_groups_table_10_19(index);
    } else if index < 30 {
        lemma_groups_table_20_29(index);
    } else {
        lemma_groups_table_30_39(index);
    }
}

proof fn lemma_groups_shaped(index: nat)
    requires
        index < VERSION_COUNT,
    ensures
        groups_shaped(block_groups_table(index)),
{
    if index == 0 {
        assert(groups_shaped(block_groups_table(index)));
    } else if index == 1 {
        assert(groups_shaped(block_groups_table(index)));
    } else if index == 2 {
        assert(groups_shaped(block_groups_table(index)));
    } else if index == 3 {
        assert(groups_shaped(block_groups_table(index)));
    } else if index == 4 {
        assert(groups_shaped(block_groups_table(index)));
    } else if index == 5 {
        assert(groups_shaped(block_groups_table(index)));
    } else if index == 6 {
        assert(groups_shaped(block_groups_table(index)));
    } else if index == 7 {
        assert(groups_shaped(block_groups_table(index)));
    } else if index == 8 {
        assert(groups_shaped(block_groups_table(index)));
    } else if index == 9 {
        assert(groups_shaped(block_groups_table(index)));
    } else if index == 10 {
        assert(groups_shaped(block_groups_table(index)));
    } else if index == 11 {
        assert(groups_shaped(block_groups_table(index)));
    } else if index == 12 {
        assert(groups_shaped(block_groups_table(index)));
    } else if index == 13 {
        assert(groups_shaped(block_groups_table(index)));
    } else if index == 14 {
        assert(groups_shaped(block_groups_table(index)));
    } else if index == 15 {
        assert(groups_shaped(block_groups_table(index)));
    } else if index == 16 {
        assert(groups_shaped(block_groups_table(index)));
    } else if index == 17 {
        assert(groups_shaped(block_groups_table(index)));
    } else if index == 18 {
        assert(groups_shaped(block_groups_table(index)));
    } else if index == 19 {
        assert(groups_shaped(block_groups_table(index)));
    } else if index == 20 {
        assert(groups_shaped(block_groups_table(index)));
    } else if index == 21 {
        assert(groups_shaped(block_groups_table(index)));
    } else if index == 22 {
        assert(groups_shaped(block_groups_table(index)));
    } else if index == 23 {
        assert(groups_shaped(block_groups_table(index)));
    } else if index == 24 {
        assert(groups_shaped(block_groups_table(index)));
    } else if index == 25 {
        assert(groups_shaped(block_groups_table(index)));
    } else if index == 26 {
        assert(groups_shaped(block_groups_table(index)));
    } else if index == 27 {
        assert(groups_shaped(block_groups_table(index)));
    } else if index == 28 {
        assert(groups_shaped(block_groups_table(index)));
    } else if index == 29 {
        assert(groups_shaped(block_groups_table(index)));
    } else if index == 30 {
        assert(groups_shaped(block_groups_table(index)));
    } else if index == 31 {
        assert(groups_shaped(block_groups_table(index)));
    } else if index == 32 {
        assert(groups_shaped(block_groups_table(index)));
    } else if index == 33 {
        assert(groups_shaped(block_groups_table(index)));
    } else if index == 34 {
        assert(groups_shaped(block_groups_table(index)));
    } else if index == 35 {
        assert(groups_shaped(block_groups_table(index)));
    } else if index == 36 {
        assert(groups_shaped(block_groups_table(index)));
    } else if index == 37 {
        assert(groups_shaped(block_groups_table(index)));
    } else if index == 38 {
        assert(groups_shaped(block_groups_table(index)));
    } else if index == 39 {
        assert(groups_shaped(block_groups_table(index)));
    }
}

proof fn lemma_total_codewords_append(a: Seq<ErrorCorrectionBlock>, b: Seq<ErrorCorrectionBlock>)
    ensures
        total_codewords(a + b) == total_codewords(a) + total_codewords(b),
    decreases b.len(),
{
    if b.len() == 0 {
        assert(a + b == a);
    } else {
        lemma_total_codewords_append(a, b.drop_last());
        assert((a + b).drop_last() == a + b.drop_last());
    }
}

proof fn lemma_total_codewords_repeat(count: nat, b: ErrorCorrectionBlock)
    ensures
        total_codewords(repeat_block(b, count)) == count * b.total_codewords,
    decreases count,
{
    if count > 0 {
        let c1 = (count - 1) as nat;
        lemma_total_codewords_repeat(c1, b);
        assert(repeat_block(b, count).drop_last() == repeat_block(b, c1));
        let t = b.total_codewords as nat;
        assert(count * t == c1 * t + t) by (nonlinear_arith)
            requires
                c1 == count - 1,
        ;
    } else {
        assert(total_codewords(repeat_block(b, count)) == 0);
    }
}

proof fn lemma_expand_totals(groups: Seq<(usize, usize, usize)>)
    ensures
        total_codewords(expand_groups(groups)) == groups_total(groups),
    decreases groups.len(),
{
    if groups.len() > 0 {
        let (count, total, data) = groups.last();
        let blk = ErrorCorrectionBlock { total_codewords: total, data_codewords: data };
        lemma_expand_totals(groups.drop_last());
        lemma_total_codewords_append(expand_groups(groups.drop_last()), repeat_block(blk, count as nat));
        lemma_total_codewords_repeat(count as nat, blk);
    }
}

proof fn lemma_group_totals(g: Seq<(usize, usize, usize)>, first: (usize, usize, usize), second: Option<(usize, usize, usize)>)
    requires
        g.len() == if second is Some { 2nat } else { 1nat },
        g[0] == first,
        second matches Some(s) ==> g[1] == s,
    ensures
        groups_total(g) == match second {
            Some(s) => (first.0 * first.1 + s.0 * s.1) as nat,
            None => (first.0 * first.1) as nat,
        },
{
    reveal_with_fuel(groups_total, 3);
    if g.len() == 2 {
        assert(g.drop_last().len() == 1);
        assert(g.drop_last()[0] == g[0]);
        assert(g.drop_last().drop_last().len() == 0);
    } else {
        assert(g.drop_last().len() == 0);
    }
}

#[verifier::spinoff_prover]
proof fn lemma_groups_total_0_9(index: nat)
    requires
        0 <= index <= 9,
    ensures
        groups_total(block_groups_table(index)) == total_codewords_at(index),
{
    if index == 0 {
        lemma_group_totals(block_groups_table(index), (1usize, 26usize, 9usize), None);
    } else if index == 1 {
        lemma_group_totals(block_groups_table(index), (1usize, 44usize, 16usize), None);
    } else if index == 2 {
        lemma_group_totals(block_groups_table(index), (2usize, 35usize, 13usize), None);
    } else if index == 3 {
        lemma_group_totals(block_groups_table(index), (4usize, 25usize, 9usize), None);
    } else if index == 4 {
        lemma_group_totals(block_groups_table(index), (2usize, 33usize, 11usize), Some((2usize, 34usize, 12usize)));
    } else if index == 5 {
        lemma_group_totals(block_groups_table(index), (4usize, 43usize, 15usize), None);
    } else if index == 6 {
        lemma_group_totals(block_groups_table(index), (4usize, 39usize, 13usize), Some((1usize, 40usize, 14usize)));
    } else if index == 7 {
        lemma_group_totals(block_groups_table(index), (4usize, 40usize, 14usize), Some((2usize, 41usize, 15usize)));
    } else if index == 8 {
        lemma_group_totals(block_groups_table(index), (4usize, 36usize, 12usize), Some((4usize, 37usize, 13usize)));
    } else if index == 9 {
        lemma_group_totals(block_groups_table(index), (6usize, 43usize, 15usize), Some((2usize, 44usize, 16usize)));
    }
}

#[verifier::spinoff_prover]
proof fn lemma_groups_total_10_19(index: nat)
    requires
        10 <= index <= 19,
    ensures
        groups_total(block_groups_table(index)) == total_codewords_at(index),
{
    if index == 10 {
        lemma_group_totals(block_groups_table(index), (3usize, 36usize, 12usize), Some((8usize, 37usize, 13usize)));
    } else if index == 11 {
        lemma_group_totals(block_groups_table(index), (7usize, 42usize, 14usize), Some((4usize, 43usize, 15usize)));
    } else if index == 12 {
        lemma_group_totals(block_groups_table(index), (12usize, 33usize, 11usize), Some((4usize, 34usize, 12usize)));
    } else if index == 13 {
        lemma_group_totals(block_groups_table(index), (11usize, 36usize, 12usize), Some((5usize, 37usize, 13usize)));
    } else if index == 14 {
        lemma_group_totals(block_groups_table(index), (11usize, 36usize, 12usize), Some((7usize, 37usize, 13usize)));
    } else if index == 15 {
        lemma_group_totals(block_groups_table(index), (3usize, 45usize, 15usize), Some((13usize, 46usize, 16usize)));
    } else if index == 16 {
        lemma_group_totals(block_groups_table(index), (2usize, 42usize, 14usize), Some((17usize, 43usize, 15usize)));
    } else if index == 17 {
        lemma_group_totals(block_groups_table(index), (2usize, 42usize, 14usize), Some((19usize, 43usize, 15usize)));
    } else if index == 18 {
        lemma_group_totals(block_groups_table(index), (9usize, 39usize, 13usize), Some((16usize, 40usize, 14usize)));
    } else if index == 19 {
        lemma_group_totals(block_groups_table(index), (15usize, 43usize, 15usize), Some((10usize, 44usize, 16usize)));
    }
}

#[verifier::spinoff_prover]
proof fn lemma_groups_total_20_29(index: nat)
    requires
        20 <= index <= 29,
    ensures
        groups_total(block_groups_table(index)) == total_codewords_at(index),
{
    if index == 20 {
        lemma_group_totals(block_groups_table(index), (19usize, 46usize, 16usize), Some((6usize, 47usize, 17usize)));
    } else if index == 21 {
        lemma_group_totals(block_groups_table(index), (34usize, 37usize, 13usize), None);
    } else if index == 22 {
        lemma_group_totals(block_groups_table(index), (16usize, 45usize, 15usize), Some((14usize, 46usize, 16usize)));
    } else if index == 23 {
        lemma_group_totals(block_groups_table(index), (30usize, 46usize, 16usize), Some((2usize, 47usize, 17usize)));
    } else if index == 24 {
        lemma_group_totals(block_groups_table(index), (22usize, 45usize, 15usize), Some((13usize, 46usize, 16usize)));
    } else if index == 25 {
        lemma_group_totals(block_groups_table(index), (33usize, 46usize, 16usize), Some((4usize, 47usize, 17usize)));
    } else if index == 26 {
        lemma_group_totals(block_groups_table(index), (12usize, 45usize, 15usize), Some((28usize, 46usize, 16usize)));
    } else if index == 27 {
        lemma_group_totals(block_groups_table(index), (11usize, 45usize, 15usize), Some((31usize, 46usize, 16usize)));
    } else if index == 28 {
        lemma_group_totals(block_groups_table(index), (19usize, 45usize, 15usize), Some((26usize, 46usize, 16usize)));
    } else if index == 29 {
        lemma_group_totals(block_groups_table(index), (23usize, 45usize, 15usize), Some((25usize, 46usize, 16usize)));
    }
}

#[verifier::spinoff_prover]
proof fn lemma_groups_total_30_39(index: nat)
    requires
        30 <= index <= 39,
    ensures
        groups_total(block_groups_table(index)) == total_codewords_at(index),
{
    if index == 30 {
        lemma_group_totals(block_groups_table(index), (23usize, 45usize, 15usize), Some((28usize, 46usize, 16usize)));
    } else if index == 31 {
        lemma_group_totals(block_groups_table(index), (19usize, 45usize, 15usize), Some((35usize, 46usize, 16usize)));
    } else if index == 32 {
        lemma_group_totals(block_groups_table(index), (11usize, 45usize, 15usize), Some((46usize, 46usize, 16usize)));
    } else if index == 33 {
        lemma_group_totals(block_groups_table(index), (59usize, 46usize, 16usize), Some((1usize, 47usize, 17usize)));
    } else if index == 34 {
        lemma_group_totals(block_groups_table(index), (22usize, 45usize, 15usize), Some((41usize, 46usize, 16usize)));
    } else if index == 35 {
        lemma_group_totals(block_groups_table(index), (2usize, 45usize, 15usize), Some((64usize, 46usize, 16usize)));
    } else if index == 36 {
        lemma_group_totals(block_groups_table(index), (24usize, 45usize, 15usize), Some((46usize, 46usize, 16usize)));
    } else if index == 37 {
        lemma_group_totals(block_groups_table(index), (42usize, 45usize, 15usize), Some((32usize, 46usize, 16usize)));
    } else if index == 38 {
        lemma_group_totals(block_groups_table(index), (10usize, 45usize, 15usize), Some((67usize, 46usize, 16usize)));
    } else if index == 39 {
        lemma_group_totals(block_groups_table(index), (20usize, 45usize, 15usize), Some((61usize, 46usize, 16usize)));
    }
}

/// The blocks of every version hold the number of codewords of the version.
pub proof fn lemma_total_codewords_table(index: nat)
    requires
        index < VERSION_COUNT,
    ensures
        total_codewords(blocks_table(index)) == total_codewords_at(index),
{
    if index < 10 {
        lemma_groups_total_0_9(index);
    } else if index < 20 {
        lemma_groups_total_10_19(index);
    } else if index < 30 {
        lemma_groups_total_20_29(index);
    } else {
        lemma_groups_total_30_39(index);
    }
    lemma_expand_totals(block_groups_table(index));
}

/// The blocks of every version come in one or two sizes: the first `ns`
/// blocks hold `ds` data codewords, the others `ds + 1`, where `ds` is the
/// size of the first block and `ns = n * (ds + 1) - data` for `n` blocks
/// holding `data` data codewords; all have as many error correction
/// codewords.
pub proof fn lemma_blocks_sizes(index: nat)
    requires
        index < VERSION_COUNT,
    ensures
        ({
            let blocks = blocks_table(index);
            let n = blocks.len() as int;
            let ds = blocks[0].data_codewords as int;
            let ns = n * (ds + 1) - data_codewords_table()[index as int];
            &&& 0 < ns <= n
            &&& forall|b: int|
                0 <= b < n ==> (#[trigger] blocks[b]).data_codewords == if b < ns { ds } else { ds + 1 }
            &&& forall|b: int|
                0 <= b < n ==> (#[trigger] blocks[b]).total_codewords - blocks[b].data_codewords
                    == blocks[0].total_codewords - blocks[0].data_codewords
        }),
{
    let g = block_groups_table(index);
    let blocks = blocks_table(index);
    lemma_groups_table(index);
    lemma_groups_shaped(index);
    lemma_expand_groups(g);
    let (c1, t1, d1) = g[0];
    let b1 = ErrorCorrectionBlock { total_codewords: t1, data_codewords: d1 };
    if g.len() == 1 {
        lemma_group_list(g, g[0], None);
        assert(g.drop_last().len() == 0);
        assert(expand_groups(g.drop_last()) == Seq::<ErrorCorrectionBlock>::empty());
        assert(blocks =~= repeat_block(b1, c1 as nat));
        let n = c1 as int;
        let ds = d1 as int;
        assert(n * (ds + 1) - n * ds == n) by (nonlinear_arith);
    } else {
        let (c2, t2, d2) = g[1];
        let b2 = ErrorCorrectionBlock { total_codewords: t2, data_codewords: d2 };
        lemma_group_list(g, g[0], Some(g[1]));
        let first = g.drop_last();
        assert(first.len() == 1 && first[0] == g[0]);
        assert(first.drop_last().len() == 0);
        assert(expand_groups(first.drop_last()) == Seq::<ErrorCorrectionBlock>::empty());
        assert(expand_groups(first) =~= repeat_block(b1, c1 as nat));
        assert(blocks == repeat_block(b1, c1 as nat) + repeat_block(b2, c2 as nat));
        assert(blocks[0] == b1);
        let n1 = c1 as int;
        let n2 = c2 as int;
        let ds = d1 as int;
        assert((n1 + n2) * (ds + 1) - (n1 * ds + n2 * (ds + 1)) == n1) by (nonlinear_arith);
        assert forall|b: int| 0 <= b < blocks.len() implies (#[trigger] blocks[b]) == if b < n1 { b1 } else { b2 } by {
        }
    }
}

/// The blocks of every version are nonempty, hold together exactly the
/// data codewords of the version, and each has a supported number of error
/// correction codewords.
pub proof fn lemma_blocks_table(index: nat)
    requires
        index < VERSION_COUNT,
    ensures
        blocks_table(index).len() > 0,
        total_data(blocks_table(index)) == data_codewords_table()[index as int],
        forall|b: int| 0 <= b < blocks_table(index).len() ==> block_ok(#[trigger] blocks_table(index)[b]),
        blocks_table(index).len() <= 81,
        blocks_shaped(blocks_table(index)),
{
    lemma_groups_table(index);
    lemma_expand_groups(block_groups_table(index));
    lemma_groups_shaped(index);
    lemma_expand_shaped(block_groups_table(index));
}

/// The alignment pattern coordinates of every version lie between 6 and
/// `size - 7`, where `size` is the width of the symbol.
pub proof fn lemma_alignment_table(index: nat)
    requires
        index < VERSION_COUNT,
    ensures
        forall|k: int|
            0 <= k < alignment_table(index).len() ==> 6 <= #[trigger] alignment_table(index)[k]
                && alignment_table(index)[k] + 7 <= 21 + 4 * index,
{
    if index == 0 {
        assert(alignment_table(index).len() == 0);
    } else if index == 1 {
        assert(alignment_table(index).len() == 2);
        assert(alignment_table(index)[0] == 6);
        assert(alignment_table(index)[1] == 18);
    } else if index == 2 {
        assert(alignment_table(index).len() == 2);
        assert(alignment_table(index)[0] == 6);
        assert(alignment_table(index)[1] == 22);
    } else if index == 3 {
        assert(alignment_table(index).len() == 2);
        assert(alignment_table(index)[0] == 6);
        assert(alignment_table(index)[1] == 26);
    } else if index == 4 {
        assert(alignment_table(index).len() == 2);
        assert(alignment_table(index)[0] == 6);
        assert(alignment_table(index)[1] == 30);
    } else if index == 5 {
        assert(alignment_table(index).len() == 2);
        assert(alignment_table(index)[0] == 6);
        assert(alignment_table(index)[1] == 34);
    } else if index == 6 {
        assert(alignment_table(index).len() == 3);
        assert(alignment_table(index)[0] == 6);
        assert(alignment_table(index)[1] == 22);
        assert(alignment_table(index)[2] == 38);
    } else if index == 7 {
        assert(alignment_table(index).len() == 3);
        assert(alignment_table(index)[0] == 6);
        assert(alignment_table(index)[1] == 24);
        assert(alignment_table(index)[2] == 42);
    } else if index == 8 {
        assert(alignment_table(index).len() == 3);
        assert(alignment_table(index)[0] == 6);
        assert(alignment_table(index)[1] == 26);
        assert(alignment_table(index)[2] == 46);
    } else if index == 9 {
        assert(alignment_table(index).len() == 3);
        assert(alignment_table(index)[0] == 6);
        assert(alignment_table(index)[1] == 28);
        assert(alignment_table(index)[2] == 50);
    } else if index == 10 {
        assert(alignment_table(index).len() == 3);
        assert(alignment_table(index)[0] == 6);
        assert(alignment_table(index)[1] == 30);
        assert(alignment_table(index)[2] == 54);
    } else if index == 11 {
        assert(alignment_table(index).len() == 3);
        assert(alignment_table(index)[0] == 6);
        assert(alignment_table(index)[1] == 32);
        assert(alignment_table(index)[2] == 58);
    } else if index == 12 {
        assert(alignment_table(index).len() == 3);
        assert(alignment_table(index)[0] == 6);
        assert(alignment_table(index)[1] == 34);
        assert(alignment_table(index)[2] == 62);
    } else if index == 13 {
        assert(alignment_table(index).len() == 4);
        assert(alignment_table(index)[0] == 6);
        assert(alignment_table(index)[1] == 26);
        assert(alignment_table(index)[2] == 46);
        assert(alignment_table(index)[3] == 66);
    } else if index == 14 {
        assert(alignment_table(index).len() == 4);
        assert(alignment_table(index)[0] == 6);
        assert(alignment_table(index)[1] == 26);
        assert(alignment_table(index)[2] == 48);
        assert(alignment_table(index)[3] == 70);
    } else if index == 15 {
        assert(alignment_table(index).len() == 4);
        assert(alignment_table(index)[0] == 6);
        assert(alignment_table(index)[1] == 26);
        assert(alignment_table(index)[2] == 50);
        assert(alignment_table(index)[3] == 74);
    } else if index == 16 {
        assert(alignment_table(index).len() == 4);
        assert(alignment_table(index)[0] == 6);
        assert(alignment_table(index)[1] == 30);
        assert(alignment_table(index)[2] == 54);
        assert(alignment_table(index)[3] == 78);
    } else if index == 17 {
        assert(alignment_table(index).len() == 4);
        assert(alignment_table(index)[0] == 6);
        assert(alignment_table(index)[1] == 30);
        assert(alignment_table(index)[2] == 56);
        assert(alignment_table(index)[3] == 82);
    } else if index == 18 {
        assert(alignment_table(index).len() == 4);
        assert(alignment_table(index)[0] == 6);
        assert(alignment_table(index)[1] == 30);
        assert(alignment_table(index)[2] == 58);
        assert(alignment_table(index)[3] == 86);
    } else if index == 19 {
        assert(alignment_table(index).len() == 4);
        assert(alignment_table(index)[0] == 6);
        assert(alignment_table(index)[1] == 34);
        assert(alignment_table(index)[2] == 62);
        assert(alignment_table(index)[3] == 90);
    } else if index == 20 {
        assert(alignment_table(index).len() == 5);
        assert(alignment_table(index)[0] == 6);
        assert(alignment_table(index)[1] == 28);
        assert(alignment_table(index)[2] == 50);
        assert(alignment_table(index)[3] == 72);
        assert(alignment_table(index)[4] == 94);
    } else if index == 21 {
        assert(alignment_table(index).len() == 5);
        assert(alignment_table(index)[0] == 6);
        assert(alignment_table(index)[1] == 26);
        assert(alignment_table(index)[2] == 50);
        assert(alignment_table(index)[3] == 74);
        assert(alignment_table(index)[4] == 98);
    } else if index == 22 {
        assert(alignment_table(index).len() == 5);
        assert(alignment_table(index)[0] == 6);
        assert(alignment_table(index)[1] == 30);
        assert(alignment_table(index)[2] == 54);
        assert(alignment_table(index)[3] == 78);
        assert(alignment_table(index)[4] == 102);
    } else if index == 23 {
        assert(alignment_table(index).len() == 5);
        assert(alignment_table(index)[0] == 6);
        assert(alignment_table(index)[1] == 28);
        assert(alignment_table(index)[2] == 54);
        assert(alignment_table(index)[3] == 80);
        assert(alignment_table(index)[4] == 106);
    } else if index == 24 {
        assert(alignment_table(index).len() == 5);
        assert(alignment_table(index)[0] == 6);
        assert(alignment_table(index)[1] == 32);
        assert(alignment_table(index)[2] == 58);
        assert(alignment_table(index)[3] == 84);
        assert(alignment_table(index)[4] == 110);
    } else if index == 25 {
        assert(alignment_table(index).len() == 5);
        assert(alignment_table(index)[0] == 6);
        assert(alignment_table(index)[1] == 30);
        assert(alignment_table(index)[2] == 58);
        assert(alignment_table(index)[3] == 86);
        assert(alignment_table(index)[4] == 114);
    } else if index == 26 {
        assert(alignment_table(index).len() == 5);
        assert(alignment_table(index)[0] == 6);
        assert(alignment_table(index)[1] == 34);
        assert(alignment_table(index)[2] == 62);
        assert(alignment_table(index)[3] == 90);
        assert(alignment_table(index)[4] == 118);
    } else if index == 27 {
        assert(alignment_table(index).len() == 6);
        assert(alignment_table(index)[0] == 6);
        assert(alignment_table(index)[1] == 26);
        assert(alignment_table(index)[2] == 50);
        assert(alignment_table(index)[3] == 74);
        assert(alignment_table(index)[4] == 98);
        assert(alignment_table(index)[5] == 122);
    } else if index == 28 {
        assert(alignment_table(index).len() == 6);
        assert(alignment_table(index)[0] == 6);
        assert(alignment_table(index)[1] == 30);
        assert(alignment_table(index)[2] == 54);
        assert(alignment_table(index)[3] == 78);
        assert(alignment_table(index)[4] == 102);
        assert(alignment_table(index)[5] == 126);
    } else if index == 29 {
        assert(alignment_table(index).len() == 6);
        assert(alignment_table(index)[0] == 6);
        assert(alignment_table(index)[1] == 26);
        assert(alignment_table(index)[2] == 52);
        assert(alignment_table(index)[3] == 78);
        assert(alignment_table(index)[4] == 104);
        assert(alignment_table(index)[5] == 130);
    } else if index == 30 {
        assert(alignment_table(index).len() == 6);
        assert(alignment_table(index)[0] == 6);
        assert(alignment_table(index)[1] == 30);
        assert(alignment_table(index)[2] == 56);
        assert(alignment_table(index)[3] == 82);
        assert(alignment_table(index)[4] == 108);
        assert(alignment_table(index)[5] == 134);
    } else if index == 31 {
        assert(alignment_table(index).len() == 6);
        assert(alignment_table(index)[0] == 6);
        assert(alignment_table(index)[1] == 34);
        assert(alignment_table(index)[2] == 60);
        assert(alignment_table(index)[3] == 86);
        assert(alignment_table(index)[4] == 112);
        assert(alignment_table(index)[5] == 138);
    } else if index == 32 {
        assert(alignment_table(index).len() == 6);
        assert(alignment_table(index)[0] == 6);
        assert(alignment_table(index)[1] == 30);
        assert(alignment_table(index)[2] == 58);
        assert(alignment_table(index)[3] == 86);
        assert(alignment_table(index)[4] == 114);
        assert(alignment_table(index)[5] == 142);
    } else if index == 33 {
        assert(alignment_table(index).len() == 6);
        assert(alignment_table(index)[0] == 6);
        assert(alignment_table(index)[1] == 34);
        assert(alignment_table(index)[2] == 62);
        assert(alignment_table(index)[3] == 90);
        assert(alignment_table(index)[4] == 118);
        assert(alignment_table(index)[5] == 146);
    } else if index == 34 {
        assert(alignment_table(index).len() == 7);
        assert(alignment_table(index)[0] == 6);
        assert(alignment_table(index)[1] == 30);
        assert(alignment_table(index)[2] == 54);
        assert(alignment_table(index)[3] == 78);
        assert(alignment_table(index)[4] == 102);
        assert(alignment_table(index)[5] == 126);
        assert(alignment_table(index)[6] == 150);
    } else if index == 35 {
        assert(alignment_table(index).len() == 7);
        assert(alignment_table(index)[0] == 6);
        assert(alignment_table(index)[1] == 24);
        assert(alignment_table(index)[2] == 50);
        assert(alignment_table(index)[3] == 76);
        assert(alignment_table(index)[4] == 102);
        assert(alignment_table(index)[5] == 128);
        assert(alignment_table(index)[6] == 154);
    } else if index == 36 {
        assert(alignment_table(index).len() == 7);
        assert(alignment_table(index)[0] == 6);
        assert(alignment_table(index)[1] == 28);
        assert(alignment_table(index)[2] == 54);
        assert(alignment_table(index)[3] == 80);
        assert(alignment_table(index)[4] == 106);
        assert(alignment_table(index)[5] == 132);
        assert(alignment_table(index)[6] == 158);
    } else if index == 37 {
        assert(alignment_table(index).len() == 7);
        assert(alignment_table(index)[0] == 6);
        assert(alignment_table(index)[1] == 32);
        assert(alignment_table(index)[2] == 58);
        assert(alignment_table(index)[3] == 84);
        assert(alignment_table(index)[4] == 110);
        assert(alignment_table(index)[5] == 136);
        assert(alignment_table(index)[6] == 162);
    } else if index == 38 {
        assert(alignment_table(index).len() == 7);
        assert(alignment_table(index)[0] == 6);
        assert(alignment_table(index)[1] == 26);
        assert(alignment_table(index)[2] == 54);
        assert(alignment_table(index)[3] == 82);
        assert(alignment_table(index)[4] == 110);
        assert(alignment_table(index)[5] == 138);
        assert(alignment_table(index)[6] == 166);
    } else if index == 39 {
        assert(alignment_table(index).len() == 7);
        assert(alignment_table(index)[0] == 6);
        assert(alignment_table(index)[1] == 30);
        assert(alignment_table(index)[2] == 58);
        assert(alignment_table(index)[3] == 86);
        assert(alignment_table(index)[4] == 114);
        assert(alignment_table(index)[5] == 142);
        assert(alignment_table(index)[6] == 170);
    }
}

} // verus!
