//! Scoring of a symbol and improvement of its padding to raise the score.
use vstd::prelude::*;
use crate::bits::{
    byte_bit, cartesian_pairs, msb_bit_of, get_byte_bit, grid_bits, grid_get, max_bits, set_byte_bit,
    with_msb_bit, Grid,
};
use crate::grid::{layout_data, symbol};
use crate::layout::symbol_size;
use crate::versions::{data_codewords_table, Version, VERSION_COUNT};

verus! {

/// The module at column `x` and row `y` of the grid `g` of width `size`.
pub open spec fn module_at(g: Seq<bool>, size: int, x: int, y: int) -> bool {
    g[x + y * size]
}

/// Whether the 2 by 2 square with top left corner `(x, y)` is a diagonal
/// pair: the top left module differs from its right and lower neighbours
/// and equals its diagonal neighbour.
pub open spec fn is_diagonal(g: Seq<bool>, size: int, x: int, y: int) -> bool {
    &&& module_at(g, size, x, y) != module_at(g, size, x + 1, y)
    &&& module_at(g, size, x, y) != module_at(g, size, x, y + 1)
    &&& module_at(g, size, x, y) == module_at(g, size, x + 1, y + 1)
}

/// The number of diagonal squares among the first `n` squares, where square
/// `k` has top left corner `(k / (size - 1), k % (size - 1))`.
pub open spec fn diagonal_count(g: Seq<bool>, size: int, n: nat) -> nat
    decreases n,
{
    if n == 0 {
        0
    } else {
        let k = n - 1;
        diagonal_count(g, size, (n - 1) as nat) + if is_diagonal(g, size, k / (size - 1), k % (size - 1)) {
            1nat
        } else {
            0nat
        }
    }
}

/// The score of a grid of width `size`: minus ten for each diagonal square.
pub open spec fn grid_score(g: Seq<bool>, size: int) -> int {
    -10 * diagonal_count(g, size, ((size - 1) * (size - 1)) as nat)
}

/// The score of the symbol holding `data` followed by `padding`.
pub open spec fn symbol_score(data: Seq<u8>, padding: Seq<u8>, index: nat) -> int {
    grid_score(symbol(data, padding, index), symbol_size(index))
}

proof fn lemma_diagonal_count_le(g: Seq<bool>, size: int, n: nat)
    ensures
        diagonal_count(g, size, n) <= n,
    decreases n,
{
    if n > 0 {
        lemma_diagonal_count_le(g, size, (n - 1) as nat);
    }
}

/// Every score is at most zero.
pub proof fn lemma_score_nonpositive(data: Seq<u8>, padding: Seq<u8>, index: nat)
    ensures
        symbol_score(data, padding, index) <= 0,
{
}

/// The module at column `x` and row `y` of a grid of width `size`.
fn module(grid: &Grid, size: usize, x: usize, y: usize) -> (b: bool)
    requires
        x + y * size < grid_bits(*grid).len(),
    ensures
        b == module_at(grid_bits(*grid), size as int, x as int, y as int),
{
    let len = grid.len();
    assert(y * size <= x + y * size);
    grid.get(x + y * size)
}

/// Lays out the symbol holding `data` followed by `padding` and scores it.
pub fn calculate_score(data: &[u8], padding: &[u8], version: Version) -> (score: i32)
    requires
        data@.len() + padding@.len() == data_codewords_table()[version.index() as int],
    ensures
        score == symbol_score(data@, padding@, version.index()),
{
    let grid = layout_data(data, padding, version);
    let size = version.size();
    let ghost g = grid_bits(grid);
    let ghost index = version.index();
    let m = size - 1;
    assert(m * m <= 176 * 176) by (nonlinear_arith)
        requires
            m <= 176,
    ;
    let pairs = cartesian_pairs(m, m);
    let mut score: i32 = 0;
    let mut k: usize = 0;
    while k < pairs.len()
        invariant
            size == symbol_size(index),
            index < VERSION_COUNT,
            m == size - 1,
            g == grid_bits(grid),
            g.len() == size * size,
            pairs.len() == m * m,
            m * m <= 176 * 176,
            forall|t: int| 0 <= t < m * m ==> #[trigger] pairs@[t] == ((t / m as int) as usize, (t % m as int) as usize),
            k <= pairs.len(),
            score == -10 * diagonal_count(g, size as int, k as nat),
            diagonal_count(g, size as int, k as nat) <= k,
        decreases pairs.len() - k,
    {
        let (x, y) = pairs[k];
        assert(x < m && y < m) by (nonlinear_arith)
            requires
                x == k as int / m as int,
                y == k as int % m as int,
                k < m * m,
        ;
        assert((x + 1) + (y + 1) * size < size * size) by (nonlinear_arith)
            requires
                x + 1 < size,
                y + 1 < size,
        ;
        assert(x + y * size < (x + 1) + (y + 1) * size && (x + 1) + y * size < (x + 1) + (y + 1) * size
            && x + (y + 1) * size < (x + 1) + (y + 1) * size) by (nonlinear_arith)
            requires
                size >= 1,
        ;
        if module(&grid, size, x, y) != module(&grid, size, x + 1, y) && module(&grid, size, x, y)
            != module(&grid, size, x, y + 1) && module(&grid, size, x, y) == module(&grid, size, x + 1, y + 1) {
            score -= 10;
        }
        k += 1;
    }
    score
}

/// `p` with bit `i` (most significant bit first) inverted.
pub open spec fn flip_bit(p: Seq<u8>, i: int) -> Seq<u8> {
    p.update(i / 8, with_msb_bit(p[i / 8], i % 8, !byte_bit(p, i)))
}

/// The best single bit flip of `padding` among its first `c` bits: the
/// position and score of a flip that scores above `current`, highest score
/// first and, among equal scores, the last position.
pub open spec fn best_flip(data: Seq<u8>, padding: Seq<u8>, index: nat, current: int, c: nat) -> Option<(nat, int)>
    decreases c,
{
    if c == 0 {
        None
    } else {
        let prev = best_flip(data, padding, index, current, (c - 1) as nat);
        let s = symbol_score(data, flip_bit(padding, c - 1), index);
        if s > current && (prev is None || s >= prev.unwrap().1) {
            Some(((c - 1) as nat, s))
        } else {
            prev
        }
    }
}

/// The best flip, if any, is a flip of one of the bits looked at, and raises
/// the score above `current`.
pub proof fn lemma_best_flip(data: Seq<u8>, padding: Seq<u8>, index: nat, current: int, c: nat)
    ensures
        best_flip(data, padding, index, current, c) matches Some((i, s)) ==> i < c && s > current
            && s == symbol_score(data, flip_bit(padding, i as int), index),
    decreases c,
{
    if c > 0 {
        lemma_best_flip(data, padding, index, current, (c - 1) as nat);
    }
}

/// The padding reached from `padding` by flipping, one at a time, the bit
/// whose flip raises the score the most, until no single flip raises it.
pub open spec fn improved_padding(data: Seq<u8>, padding: Seq<u8>, index: nat) -> Seq<u8>
    decreases (0 - symbol_score(data, padding, index)) as nat,
{
    let current = symbol_score(data, padding, index);
    match best_flip(data, padding, index, current, 8 * padding.len()) {
        None => padding,
        Some((i, s)) => {
            proof {
                lemma_best_flip(data, padding, index, current, 8 * padding.len());
                lemma_score_nonpositive(data, flip_bit(padding, i as int), index);
            }
            improved_padding(data, flip_bit(padding, i as int), index)
        },
    }
}

proof fn lemma_best_flip_none(data: Seq<u8>, padding: Seq<u8>, index: nat, current: int, c: nat)
    requires
        best_flip(data, padding, index, current, c) is None,
    ensures
        forall|i: int| 0 <= i < c ==> #[trigger] symbol_score(data, flip_bit(padding, i), index) <= current,
    decreases c,
{
    if c > 0 {
        lemma_best_flip_none(data, padding, index, current, (c - 1) as nat);
    }
}

/// Improving the padding keeps its length, never lowers the score, and ends
/// in a local optimum: no single bit flip of the result raises its score.
pub proof fn lemma_improved_padding(data: Seq<u8>, padding: Seq<u8>, index: nat)
    ensures
        improved_padding(data, padding, index).len() == padding.len(),
        symbol_score(data, improved_padding(data, padding, index), index) >= symbol_score(data, padding, index),
        forall|i: int|
            0 <= i < 8 * padding.len() ==> #[trigger] symbol_score(
                data,
                flip_bit(improved_padding(data, padding, index), i),
                index,
            ) <= symbol_score(data, improved_padding(data, padding, index), index),
    decreases (0 - symbol_score(data, padding, index)) as nat,
{
    let current = symbol_score(data, padding, index);
    lemma_best_flip(data, padding, index, current, 8 * padding.len());
    match best_flip(data, padding, index, current, 8 * padding.len()) {
        None => {
            lemma_best_flip_none(data, padding, index, current, 8 * padding.len());
        },
        Some((i, s)) => {
            lemma_score_nonpositive(data, flip_bit(padding, i as int), index);
            lemma_improved_padding(data, flip_bit(padding, i as int), index);
        },
    }
}

proof fn lemma_improved_step(data: Seq<u8>, padding: Seq<u8>, index: nat)
    ensures
        ({
            let current = symbol_score(data, padding, index);
            match best_flip(data, padding, index, current, 8 * padding.len()) {
                None => improved_padding(data, padding, index) == padding,
                Some((i, s)) => improved_padding(data, padding, index) == improved_padding(
                    data,
                    flip_bit(padding, i as int),
                    index,
                ),
            }
        }),
{
}

proof fn lemma_flip_twice(x: u8, j: u8)
    requires
        j < 8,
    ensures
        msb_bit_of(with_msb_bit(x, j as int, !msb_bit_of(x, j as int)), j as int) == !msb_bit_of(x, j as int),
        with_msb_bit(with_msb_bit(x, j as int, !msb_bit_of(x, j as int)), j as int, msb_bit_of(x, j as int)) == x,
{
    let s = (7 - j) as u8;
    let m = 0x80u8 >> j;
    assert(s == (7 - (j as int)) as u8);
    assert(((if (x >> s) & 1 == 1 { x & !m } else { x | m }) >> s) & 1 == (if (x >> s) & 1 == 1 { 0u8 } else { 1u8 }))
        by (bit_vector)
        requires
            j < 8,
            s == 7 - j,
            m == 0x80u8 >> j,
    ;
    assert((if (x >> s) & 1 == 1 { (x & !m) | m } else { (x | m) & !m }) == x) by (bit_vector)
        requires
            j < 8,
            s == 7 - j,
            m == 0x80u8 >> j,
    ;
}

/// Inverts bit `i` of `padding`, most significant bit first.
fn flip_padding_bit(padding: &mut Vec<u8>, i: usize)
    requires
        i < 8 * old(padding)@.len(),
        8 * old(padding)@.len() <= max_bits(),
    ensures
        final(padding)@ == flip_bit(old(padding)@, i as int),
{
    let b = get_byte_bit(padding.as_slice(), i);
    set_byte_bit(padding, i, !b);
}

/// Improves `padding` by hill climbing: as long as flipping a single bit of
/// the padding raises the score of the symbol, flips the bit that raises it
/// the most. Returns the final score.
pub fn improve_padding(data: &[u8], padding: &mut Vec<u8>, version: Version) -> (score: i32)
    requires
        data@.len() + old(padding)@.len() == data_codewords_table()[version.index() as int],
        8 * old(padding)@.len() <= max_bits(),
    ensures
        final(padding)@ == improved_padding(data@, old(padding)@, version.index()),
        score == symbol_score(data@, final(padding)@, version.index()),
{
    let ghost index = version.index();
    let ghost target = improved_padding(data@, padding@, index);
    let n = padding.len();
    let mut current_score = calculate_score(data, padding.as_slice(), version);
    loop
        invariant_except_break
            index == version.index(),
            padding@.len() == n,
            8 * n <= max_bits(),
            data@.len() + n == data_codewords_table()[index as int],
            improved_padding(data@, padding@, index) == target,
            current_score == symbol_score(data@, padding@, index),
        ensures
            padding@ == target,
            current_score == symbol_score(data@, padding@, index),
        decreases 0 - current_score,
    {
        let mut best: Option<(usize, i32)> = None;
        let ghost p0 = padding@;
        let mut i: usize = 0;
        while i < 8 * n
            invariant
                index == version.index(),
                padding@ == p0,
                padding@.len() == n,
                8 * n <= max_bits(),
                data@.len() + n == data_codewords_table()[index as int],
                current_score == symbol_score(data@, padding@, index),
                i <= 8 * n,
                best matches Some((b, s)) ==> best_flip(data@, padding@, index, current_score as int, i as nat) == Some((b as nat, s as int)),
                best is None ==> best_flip(data@, padding@, index, current_score as int, i as nat) is None,
            decreases 8 * n - i,
        {
            let ghost before = padding@;
            proof {
                lemma_flip_twice(before[i as int / 8], (i % 8) as u8);
            }
            flip_padding_bit(padding, i);
            let score = calculate_score(data, padding.as_slice(), version);
            flip_padding_bit(padding, i);
            assert(padding@ == before);
            if score > current_score {
                match best {
                    None => {
                        best = Some((i, score));
                    },
                    Some((_, best_score)) => {
                        if score >= best_score {
                            best = Some((i, score));
                        }
                    },
                }
            }
            i += 1;
        }
        proof {
            lemma_improved_step(data@, padding@, index);
            lemma_best_flip(data@, padding@, index, current_score as int, 8 * n as nat);
            lemma_score_nonpositive(data@, padding@, index);
        }
        match best {
            None => {
                break;
            },
            Some((best_flip_index, score)) => {
                flip_padding_bit(padding, best_flip_index);
                current_score = score;
            },
        }
    }
    current_score
}

} // verus!
