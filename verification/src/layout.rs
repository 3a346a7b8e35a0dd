//! Placement of the modules of the symbol: which modules hold data, the
//! order in which data fills them, and the function patterns.
use vstd::prelude::*;
use crate::capacity::{data_module_count, lemma_data_module_count};
use crate::versions::{alignment_table, lemma_alignment_table, Version, VERSION_COUNT};

verus! {

/// The width of the symbol of the version with the given index.
pub open spec fn symbol_size(index: nat) -> int {
    (21 + 4 * index) as int
}

/// Whether an alignment pattern is drawn at `(cx, cy)`: all but the three
/// that would overlap a finder pattern.
pub open spec fn alignment_kept(cx: int, cy: int, size: int) -> bool {
    !((cx <= 8 && cy <= 8) || (cx >= size - 8 && cy <= 8) || (cx <= 8 && cy >= size - 8))
}

/// `a` and `c` are at most two apart.
pub open spec fn within_two(a: int, c: int) -> bool {
    a - c <= 2 && c - a <= 2
}

/// Whether `(x, y)` lies in one of the alignment patterns of the version.
pub open spec fn in_alignment_pattern(x: int, y: int, index: nat) -> bool {
    let coords = alignment_table(index);
    exists|i: int, j: int|
        0 <= i < coords.len() && 0 <= j < coords.len() && alignment_kept(
            #[trigger] coords[i] as int,
            #[trigger] coords[j] as int,
            symbol_size(index),
        ) && within_two(x, coords[i] as int) && within_two(y, coords[j] as int)
}

/// Whether the module at column `x` and row `y` is free for data: not part
/// of a finder pattern or its separator, a timing pattern, the dark module,
/// the format information, the version information or an alignment pattern.
pub open spec fn is_data_module(x: int, y: int, index: nat) -> bool {
    let size = symbol_size(index);
    let number = index + 1;
    &&& !(x <= 8 && y <= 8)
    &&& !(x >= size - 8 && y <= 8)
    &&& !(x <= 8 && y >= size - 8)
    &&& x != 6 && y != 6
    &&& !(x == 8 && y == 4 * number + 9)
    &&& !((x <= 8 && y == 8) || (y <= 8 && x == 8) || (x >= size - 8 && y == 8) || (y >= size - 8
        && x == 8))
    &&& !(number >= 7 && ((x >= size - 11 && y < 6) || (y >= size - 11 && x < 6)))
    &&& !in_alignment_pattern(x, y, index)
}

/// Whether the module at column `x` and row `y` can hold data.
pub fn can_place(x: usize, y: usize, version: Version) -> (b: bool)
    ensures
        b == is_data_module(x as int, y as int, version.index()),
{
    let size = version.size();
    // Top-left finder pattern area.
    if x <= 8 && y <= 8 {
        return false;
    }
    // Top-right finder pattern area.
    if x >= size - 8 && y <= 8 {
        return false;
    }
    // Bottom-left finder pattern area.
    if x <= 8 && y >= size - 8 {
        return false;
    }
    // Timing patterns run along row 6 and column 6.
    if x == 6 || y == 6 {
        return false;
    }
    // The dark module is a fixed reserved module.
    if x == 8 && y == (4 * version.number() as usize + 9) {
        return false;
    }
    // Format information appears around the finder patterns.
    if (x <= 8 && y == 8) || (y <= 8 && x == 8) || (x >= size - 8 && y == 8) || (y >= size - 8 && x
        == 8) {
        return false;
    }
    // Version information exists only for version 7 and above.
    // It occupies two 6x3 regions near the top-right and bottom-left.
    if version.number() >= 7 && ((x >= size - 11 && y < 6) || (y >= size - 11 && x < 6)) {
        return false;
    }
    // Alignment patterns are 5x5 blocks centered at every combination
    // of the provided alignment coordinates.
    let coords = version.alignment_pattern_coordinates();
    let ghost index = version.index();
    let mut i: usize = 0;
    while i < coords.len()
        invariant
            i <= coords.len(),
            index == version.index(),
            coords@ == alignment_table(index),
            size == symbol_size(index),
            forall|a: int, c: int|
                0 <= a < i && 0 <= c < coords.len() ==> !(alignment_kept(
                    #[trigger] coords@[a] as int,
                    #[trigger] coords@[c] as int,
                    size as int,
                ) && within_two(x as int, coords@[a] as int) && within_two(y as int, coords@[c] as int)),
        decreases coords.len() - i,
    {
        let mut j: usize = 0;
        while j < coords.len()
            invariant
                i < coords.len(),
                j <= coords.len(),
                index == version.index(),
                coords@ == alignment_table(index),
                size == symbol_size(index),
                forall|a: int, c: int|
                    0 <= a < i && 0 <= c < coords.len() ==> !(alignment_kept(
                        #[trigger] coords@[a] as int,
                        #[trigger] coords@[c] as int,
                        size as int,
                    ) && within_two(x as int, coords@[a] as int) && within_two(y as int, coords@[c] as int)),
                forall|c: int|
                    0 <= c < j ==> !(alignment_kept(
                        coords@[i as int] as int,
                        #[trigger] coords@[c] as int,
                        size as int,
                    ) && within_two(x as int, coords@[i as int] as int) && within_two(
                        y as int,
                        coords@[c] as int,
                    )),
            decreases coords.len() - j,
        {
            let cx = coords[i];
            let cy = coords[j];
            let skipped = (cx <= 8 && cy <= 8) || (cx >= size - 8 && cy <= 8) || (cx <= 8 && cy >= size - 8);
            if !skipped {
                let dx = if x >= cx { x - cx } else { cx - x };
                let dy = if y >= cy { y - cy } else { cy - y };
                if dx <= 2 && dy <= 2 {
                    proof {
                        let tab = alignment_table(index);
                        assert(alignment_kept(tab[i as int] as int, tab[j as int] as int, symbol_size(index)));
                    }
                    return false;
                }
            }
            j += 1;
        }
        i += 1;
    }
    true
}

/// The number of column pairs the data fills.
pub open spec fn pair_count(index: nat) -> nat {
    ((symbol_size(index) - 1) / 2) as nat
}

/// The right column of column pair `k`, counting pairs from the right; the
/// pairs skip the vertical timing pattern in column 6.
pub open spec fn pair_column(index: nat, k: int) -> int {
    let size = symbol_size(index);
    if 2 * k < size - 7 {
        size - 1 - 2 * k
    } else {
        size - 2 - 2 * k
    }
}

/// The row visited at step `j` of column pair `k`: pairs are filled upwards
/// and downwards in turn, starting upwards.
pub open spec fn pair_row(index: nat, k: int, j: int) -> int {
    if k % 2 == 0 {
        symbol_size(index) - 1 - j
    } else {
        j
    }
}

/// The data modules visited at step `j` of column pair `k`: the right one,
/// then the left one, where they can hold data.
pub open spec fn pair_cells(index: nat, k: int, j: int) -> Seq<(usize, usize)> {
    let x = pair_column(index, k);
    let y = pair_row(index, k, j);
    (if is_data_module(x, y, index) {
        seq![(x as usize, y as usize)]
    } else {
        Seq::empty()
    }) + (if is_data_module(x - 1, y, index) {
        seq![((x - 1) as usize, y as usize)]
    } else {
        Seq::empty()
    })
}

/// The data modules visited before step `j` of column pair `k`.
pub open spec fn walk(index: nat, k: nat, j: nat) -> Seq<(usize, usize)>
    decreases k, j,
{
    if j == 0 {
        if k == 0 {
            Seq::empty()
        } else {
            walk(index, (k - 1) as nat, symbol_size(index) as nat)
        }
    } else {
        walk(index, k, (j - 1) as nat) + pair_cells(index, k as int, j - 1)
    }
}

/// The data modules in the order data fills them.
pub open spec fn data_positions(index: nat) -> Seq<(usize, usize)> {
    walk(index, pair_count(index), 0)
}

/// The positions of the data modules, in the order in which the data fills
/// them: from the bottom right corner, in pairs of columns, upwards and
/// downwards in turn.
pub fn data_layout(version: Version) -> (positions: Vec<(usize, usize)>)
    ensures
        positions@ == data_positions(version.index()),
        forall|p: int|
            0 <= p < positions.len() ==> (#[trigger] positions@[p]).0 < symbol_size(version.index()) && positions@[p].1
                < symbol_size(version.index()) && is_data_module(positions@[p].0 as int, positions@[p].1 as int, version.index()),
        forall|p: int, q: int| 0 <= p < q < positions.len() ==> positions@[p] != positions@[q],
        positions.len() == data_module_count(version.index()),
{
    let mut result: Vec<(usize, usize)> = Vec::new();
    let size = version.size();
    let ghost index = version.index();
    // true: upwards, false: downwards
    let mut up = true;
    let mut x = size - 1;
    let mut y = size - 1;
    let ghost mut k: nat = 0;
    let ghost mut j: nat = 0;
    loop
        invariant_except_break
            index == version.index(),
            index < VERSION_COUNT,
            size == symbol_size(index),
            k < pair_count(index),
            j < size,
            x == pair_column(index, k as int) || (x == 6 && pair_column(index, k as int) == 5),
            y == pair_row(index, k as int, j as int),
            up == (k % 2 == 0),
            result@ == walk(index, k, j),
        ensures
            result@ == data_positions(index),
        decreases pair_count(index) - k, size - j,
    {
        if x == 6 {
            x -= 1;
        }
        if can_place(x, y, version) {
            result.push((x, y));
        }
        if can_place(x - 1, y, version) {
            result.push((x - 1, y));
        }
        assert(result@ == walk(index, k, j + 1));
        if up {
            if y == 0 && x == 1 {
                assert(walk(index, k + 1, 0) == walk(index, k, size as nat));
                break;
            }
            if y == 0 {
                up = false;
                x -= 2;
                proof {
                    assert(walk(index, k + 1, 0) == walk(index, k, size as nat));
                    k = k + 1;
                    j = 0;
                }
                continue;
            }
            y -= 1;
        } else {
            if y == size - 1 && x == 1 {
                assert(walk(index, k + 1, 0) == walk(index, k, size as nat));
                break;
            }
            if y == size - 1 {
                up = true;
                x -= 2;
                proof {
                    assert(walk(index, k + 1, 0) == walk(index, k, size as nat));
                    k = k + 1;
                    j = 0;
                }
                continue;
            }
            y += 1;
        }
        proof {
            j = j + 1;
        }
    }
    proof {
        lemma_data_positions_in_grid(index);
        lemma_data_positions_distinct(index);
        lemma_data_module_count(index);
    }
    result
}

/// Every position the data fills lies in the symbol and is a data module.
pub proof fn lemma_data_positions_in_grid(index: nat)
    requires
        index < VERSION_COUNT,
    ensures
        forall|p: int|
            0 <= p < data_positions(index).len() ==> (#[trigger] data_positions(index)[p]).0 < symbol_size(index)
                && data_positions(index)[p].1 < symbol_size(index) && is_data_module(
                data_positions(index)[p].0 as int,
                data_positions(index)[p].1 as int,
                index,
            ),
{
    lemma_walk_in_grid(index, pair_count(index), 0);
}

proof fn lemma_walk_in_grid(index: nat, k: nat, j: nat)
    requires
        index < VERSION_COUNT,
        k <= pair_count(index),
        j <= symbol_size(index),
        k == pair_count(index) ==> j == 0,
    ensures
        forall|p: int|
            0 <= p < walk(index, k, j).len() ==> (#[trigger] walk(index, k, j)[p]).0 < symbol_size(index)
                && walk(index, k, j)[p].1 < symbol_size(index) && is_data_module(
                walk(index, k, j)[p].0 as int,
                walk(index, k, j)[p].1 as int,
                index,
            ),
    decreases k, j,
{
    if j == 0 {
        if k > 0 {
            lemma_walk_in_grid(index, (k - 1) as nat, symbol_size(index) as nat);
            assert(walk(index, k, j) == walk(index, (k - 1) as nat, symbol_size(index) as nat));
        }
    } else {
        lemma_walk_in_grid(index, k, (j - 1) as nat);
        let prev = walk(index, k, (j - 1) as nat);
        let cells = pair_cells(index, k as int, j - 1);
        assert forall|p: int| 0 <= p < walk(index, k, j).len() implies (#[trigger] walk(index, k, j)[p]).0 < symbol_size(index)
            && walk(index, k, j)[p].1 < symbol_size(index) && is_data_module(
                walk(index, k, j)[p].0 as int,
                walk(index, k, j)[p].1 as int,
                index,
            ) by {
            if p >= prev.len() {
                assert(walk(index, k, j)[p] == cells[p - prev.len()]);
                assert(1 <= pair_column(index, k as int) < symbol_size(index));
                assert(0 <= pair_row(index, k as int, j - 1) < symbol_size(index));
            } else {
                assert(walk(index, k, j)[p] == prev[p]);
            }
        }
    }
}

/// The column pair, counted from the right, that column `x` belongs to.
pub open spec fn column_pair(index: nat, x: int) -> int {
    let size = symbol_size(index);
    if x > 6 {
        (size - 1 - x) / 2
    } else {
        (size - 2 - x) / 2
    }
}

/// The step of column pair `k` at which row `y` is visited.
pub open spec fn pair_step(index: nat, k: int, y: int) -> int {
    if k % 2 == 0 {
        symbol_size(index) - 1 - y
    } else {
        y
    }
}

/// Every position of `s` lies in a column pair before `k`, or in pair `k`
/// at a step before `j`.
spec fn visited_before(index: nat, k: int, j: int, s: Seq<(usize, usize)>) -> bool {
    forall|p: int|
        0 <= p < s.len() ==> column_pair(index, (#[trigger] s[p]).0 as int) < k || (column_pair(
            index,
            s[p].0 as int,
        ) == k && pair_step(index, k, s[p].1 as int) < j)
}

proof fn lemma_walk_distinct(index: nat, k: nat, j: nat)
    requires
        index < VERSION_COUNT,
        k <= pair_count(index),
        j <= symbol_size(index),
        k == pair_count(index) ==> j == 0,
    ensures
        visited_before(index, k as int, j as int, walk(index, k, j)),
        forall|p: int, q: int|
            0 <= p < q < walk(index, k, j).len() ==> walk(index, k, j)[p] != walk(index, k, j)[q],
    decreases k, j,
{
    let size = symbol_size(index);
    let w = walk(index, k, j);
    if j == 0 {
        if k > 0 {
            lemma_walk_distinct(index, (k - 1) as nat, size as nat);
        }
    } else {
        lemma_walk_distinct(index, k, (j - 1) as nat);
        let prev = walk(index, k, (j - 1) as nat);
        let cells = pair_cells(index, k as int, j - 1);
        let x = pair_column(index, k as int);
        let y = pair_row(index, k as int, j - 1);
        assert(1 <= x < size);
        assert(0 <= y < size);
        assert(column_pair(index, x) == k);
        assert(column_pair(index, x - 1) == k);
        assert(pair_step(index, k as int, y) == j - 1);
        assert forall|c: int| 0 <= c < cells.len() implies (#[trigger] cells[c]).1 as int == y && (
        cells[c].0 as int == x || cells[c].0 as int == x - 1) && (c == 1 ==> cells[c].0 as int == x - 1
            && cells[0].0 as int == x) by {}
        assert forall|p: int| 0 <= p < w.len() implies (column_pair(index, (#[trigger] w[p]).0 as int) < k
            || (column_pair(index, w[p].0 as int) == k && pair_step(index, k as int, w[p].1 as int) < j)) by {
            if p < prev.len() {
                assert(w[p] == prev[p]);
            } else {
                assert(w[p] == cells[p - prev.len()]);
            }
        }
        assert forall|p: int, q: int| 0 <= p < q < w.len() implies w[p] != w[q] by {
            if q >= prev.len() {
                assert(w[q] == cells[q - prev.len()]);
                if p < prev.len() {
                    assert(w[p] == prev[p]);
                    assert(column_pair(index, prev[p].0 as int) < k || (column_pair(index, prev[p].0 as int) == k
                        && pair_step(index, k as int, prev[p].1 as int) < j - 1));
                } else {
                    assert(w[p] == cells[p - prev.len()]);
                }
            } else {
                assert(w[p] == prev[p]);
                assert(w[q] == prev[q]);
            }
        }
    }
}

/// No module is filled twice: the positions the data fills are distinct.
pub proof fn lemma_data_positions_distinct(index: nat)
    requires
        index < VERSION_COUNT,
    ensures
        forall|p: int, q: int|
            0 <= p < q < data_positions(index).len() ==> data_positions(index)[p] != data_positions(index)[q],
{
    lemma_walk_distinct(index, pair_count(index), 0);
}

} // verus!
