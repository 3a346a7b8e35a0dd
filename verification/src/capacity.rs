//! The capacity of the symbol: how many modules hold data, for each version,
//! and that they hold every bit of the message.
use vstd::prelude::*;
use crate::layout::{
    alignment_kept, data_positions, in_alignment_pattern, is_data_module, pair_cells, pair_column,
    pair_count, pair_row, symbol_size, walk, within_two,
};
use crate::message::{lemma_message_holds_all_codewords, message};
use crate::versions::{
    alignment_table, data_codewords_table, lemma_total_codewords_table, total_codewords_at,
    VERSION_COUNT,
};

verus! {

/// The sum of `f(i)` for `i` from `lo` up to `hi - 1`.
pub open spec fn sum(f: spec_fn(int) -> int, lo: int, hi: int) -> int
    decreases hi - lo,
{
    if hi <= lo {
        0
    } else {
        sum(f, lo, hi - 1) + f(hi - 1)
    }
}

proof fn lemma_sum_split(f: spec_fn(int) -> int, lo: int, mid: int, hi: int)
    requires
        lo <= mid <= hi,
    ensures
        sum(f, lo, hi) == sum(f, lo, mid) + sum(f, mid, hi),
    decreases hi - mid,
{
    if hi > mid {
        lemma_sum_split(f, lo, mid, hi - 1);
    }
}

proof fn lemma_sum_const(f: spec_fn(int) -> int, lo: int, hi: int, c: int)
    requires
        lo <= hi,
        forall|i: int| lo <= i < hi ==> #[trigger] f(i) == c,
    ensures
        sum(f, lo, hi) == (hi - lo) * c,
    decreases hi - lo,
{
    if hi > lo {
        lemma_sum_const(f, lo, hi - 1, c);
        assert((hi - lo) * c == (hi - 1 - lo) * c + c) by (nonlinear_arith);
    } else {
        assert((hi - lo) * c == 0) by (nonlinear_arith)
            requires
                hi == lo,
        ;
    }
}

proof fn lemma_sum_ext(f: spec_fn(int) -> int, g: spec_fn(int) -> int, lo: int, hi: int)
    requires
        forall|i: int| lo <= i < hi ==> #[trigger] f(i) == g(i),
    ensures
        sum(f, lo, hi) == sum(g, lo, hi),
    decreases hi - lo,
{
    if hi > lo {
        lemma_sum_ext(f, g, lo, hi - 1);
    }
}

proof fn lemma_sum_linear(f: spec_fn(int) -> int, g: spec_fn(int) -> int, h: spec_fn(int) -> int, lo: int, hi: int)
    requires
        forall|i: int| lo <= i < hi ==> #[trigger] h(i) == f(i) - g(i),
    ensures
        sum(h, lo, hi) == sum(f, lo, hi) - sum(g, lo, hi),
    decreases hi - lo,
{
    if hi > lo {
        lemma_sum_linear(f, g, h, lo, hi - 1);
    }
}

/// Row `x` of `g`: the function `a |-> g(x, a)`.
pub open spec fn row_of(g: spec_fn(int, int) -> int, x: int) -> spec_fn(int) -> int {
    |a: int| g(x, a)
}

/// Column `a` of `g`: the function `x |-> g(x, a)`.
pub open spec fn column_of(g: spec_fn(int, int) -> int, a: int) -> spec_fn(int) -> int {
    |x: int| g(x, a)
}

/// The sums of the rows of `g` over `[0, na)`, as a function of the row.
pub open spec fn row_sums(g: spec_fn(int, int) -> int, na: int) -> spec_fn(int) -> int {
    |x: int| sum(row_of(g, x), 0, na)
}

/// The sums of the columns of `g` over `[0, nx)`, as a function of the column.
pub open spec fn column_sums(g: spec_fn(int, int) -> int, nx: int) -> spec_fn(int) -> int {
    |a: int| sum(column_of(g, a), 0, nx)
}

/// A double sum can be taken in either order.
proof fn lemma_sum_swap(g: spec_fn(int, int) -> int, nx: int, na: int)
    requires
        0 <= nx,
        0 <= na,
    ensures
        sum(row_sums(g, na), 0, nx) == sum(column_sums(g, nx), 0, na),
    decreases nx,
{
    if nx > 0 {
        lemma_sum_swap(g, nx - 1, na);
        let whole = column_sums(g, nx);
        let prefix = column_sums(g, nx - 1);
        let last = row_of(g, nx - 1);
        assert forall|a: int| 0 <= a < na implies #[trigger] prefix(a) == whole(a) - last(a) by {
            assert(sum(column_of(g, a), 0, nx) == sum(column_of(g, a), 0, nx - 1) + column_of(g, a)(nx - 1));
        }
        lemma_sum_linear(whole, last, prefix, 0, na);
        assert(sum(row_sums(g, na), 0, nx) == sum(row_sums(g, na), 0, nx - 1) + row_sums(g, na)(nx - 1));
        assert(row_sums(g, na)(nx - 1) == sum(last, 0, na));
    } else {
        assert forall|a: int| 0 <= a < na implies #[trigger] column_sums(g, 0)(a) == 0 by {}
        lemma_sum_const(column_sums(g, 0), 0, na, 0);
    }
}

/// `f` summed backwards: `f(c - j)` for `j` in `[lo, hi)` covers `f` on
/// `[c - hi + 1, c - lo + 1)`.
pub open spec fn reflected(f: spec_fn(int) -> int, c: int) -> spec_fn(int) -> int {
    |j: int| f(c - j)
}

proof fn lemma_sum_reflected(f: spec_fn(int) -> int, c: int, lo: int, hi: int)
    requires
        lo <= hi,
    ensures
        sum(reflected(f, c), lo, hi) == sum(f, c - hi + 1, c - lo + 1),
    decreases hi - lo,
{
    if hi > lo {
        lemma_sum_reflected(f, c, lo, hi - 1);
        lemma_sum_split(f, c - hi + 1, c - hi + 2, c - lo + 1);
        assert(sum(f, c - hi + 1, c - hi + 2) == f(c - hi + 1)) by {
            assert(sum(f, c - hi + 1, c - hi + 1) == 0);
        }
    }
}

/// 1 for a data module, 0 for any other.
pub open spec fn data_indicator(index: nat, x: int, y: int) -> int {
    if is_data_module(x, y, index) {
        1
    } else {
        0
    }
}

/// The data modules of column `x`, as an indicator function of the row.
pub open spec fn column_cells(index: nat, x: int) -> spec_fn(int) -> int {
    |y: int| data_indicator(index, x, y)
}

/// The number of data modules in each column, as a function of the column.
pub open spec fn column_counts(index: nat) -> spec_fn(int) -> int {
    |x: int| sum(column_cells(index, x), 0, symbol_size(index))
}

/// The number of data modules visited at each step of column pair `k`.
pub open spec fn pair_steps(index: nat, k: int) -> spec_fn(int) -> int {
    |j: int|
        data_indicator(index, pair_column(index, k), pair_row(index, k, j)) + data_indicator(
            index,
            pair_column(index, k) - 1,
            pair_row(index, k, j),
        )
}

/// The number of data modules in each column pair.
pub open spec fn pair_counts(index: nat) -> spec_fn(int) -> int {
    |k: int| sum(pair_steps(index, k), 0, symbol_size(index))
}

/// The walk visits the data modules of every column pair before the
/// current one, and of the current pair up to the current step.
proof fn lemma_walk_len(index: nat, k: nat, j: nat)
    ensures
        walk(index, k, j).len() == sum(pair_counts(index), 0, k as int) + sum(pair_steps(index, k as int), 0, j as int),
    decreases k, j,
{
    if j == 0 {
        if k > 0 {
            lemma_walk_len(index, (k - 1) as nat, symbol_size(index) as nat);
        }
    } else {
        lemma_walk_len(index, k, (j - 1) as nat);
        assert(pair_cells(index, k as int, j - 1).len() == pair_steps(index, k as int)(j - 1));
    }
}

/// Summing a column in the order in which a column pair visits its rows
/// counts the column's data modules.
proof fn lemma_pair_column_sum(index: nat, k: int, x: int, f: spec_fn(int) -> int)
    requires
        forall|j: int| #[trigger] f(j) == data_indicator(index, x, pair_row(index, k, j)),
    ensures
        sum(f, 0, symbol_size(index)) == column_counts(index)(x),
{
    let n = symbol_size(index);
    let col = column_cells(index, x);
    if k % 2 == 0 {
        assert forall|j: int| 0 <= j < n implies #[trigger] f(j) == reflected(col, n - 1)(j) by {}
        lemma_sum_ext(f, reflected(col, n - 1), 0, n);
        lemma_sum_reflected(col, n - 1, 0, n);
    } else {
        assert forall|j: int| 0 <= j < n implies #[trigger] f(j) == col(j) by {}
        lemma_sum_ext(f, col, 0, n);
    }
}

/// A column pair holds the data modules of its two columns.
proof fn lemma_pair_count(index: nat, k: int)
    ensures
        pair_counts(index)(k) == column_counts(index)(pair_column(index, k)) + column_counts(index)(
            pair_column(index, k) - 1,
        ),
{
    let n = symbol_size(index);
    let x = pair_column(index, k);
    let right = |j: int| data_indicator(index, x, pair_row(index, k, j));
    let left = |j: int| data_indicator(index, x - 1, pair_row(index, k, j));
    assert forall|j: int| 0 <= j < n implies #[trigger] right(j) == pair_steps(index, k)(j) - left(j) by {}
    lemma_sum_linear(pair_steps(index, k), left, right, 0, n);
    lemma_pair_column_sum(index, k, x, right);
    lemma_pair_column_sum(index, k, x - 1, left);
}

/// The leftmost column covered by the first `k` column pairs.
spec fn covered_from(index: nat, k: int) -> int {
    let n = symbol_size(index);
    if 2 * k <= n - 7 {
        n - 2 * k
    } else {
        n - 1 - 2 * k
    }
}

/// The vertical timing pattern's column holds no data.
proof fn lemma_timing_column_empty(index: nat)
    ensures
        column_counts(index)(6) == 0,
{
    let col = column_cells(index, 6);
    assert forall|y: int| 0 <= y < symbol_size(index) implies #[trigger] col(y) == 0 by {}
    lemma_sum_const(col, 0, symbol_size(index), 0);
}

/// The first `k` column pairs cover the columns from `covered_from(k)` on.
proof fn lemma_pairs_cover(index: nat, k: nat)
    requires
        k <= pair_count(index),
    ensures
        sum(pair_counts(index), 0, k as int) == sum(column_counts(index), covered_from(index, k as int), symbol_size(index)),
    decreases k,
{
    let n = symbol_size(index);
    let cc = column_counts(index);
    if k > 0 {
        let k1 = (k - 1) as nat;
        lemma_pairs_cover(index, k1);
        lemma_pair_count(index, k1 as int);
        let lo = covered_from(index, k as int);
        let lo1 = covered_from(index, k1 as int);
        if 2 * k1 == n - 7 {
            assert(lo1 == 7 && lo == 4);
            lemma_timing_column_empty(index);
            lemma_sum_split(cc, 4, 7, n);
            assert(sum(cc, 4, 7) == cc(4) + cc(5) + cc(6)) by {
                reveal_with_fuel(sum, 4);
            }
        } else {
            assert(lo == lo1 - 2);
            lemma_sum_split(cc, lo, lo1, n);
            assert(sum(cc, lo, lo1) == cc(lo) + cc(lo + 1)) by {
                reveal_with_fuel(sum, 3);
            }
        }
    } else {
        assert(covered_from(index, 0) == n);
    }
}

/// The data modules of a version are as many as the positions the data
/// fills: the walk visits every module outside the timing column once.
proof fn lemma_data_positions_count(index: nat)
    ensures
        data_positions(index).len() == sum(column_counts(index), 0, symbol_size(index)),
{
    lemma_walk_len(index, pair_count(index), 0);
    lemma_pairs_cover(index, pair_count(index));
}

/// The coordinates from position `i` on are at least 12 apart.
pub open spec fn spaced(s: Seq<usize>, i: nat) -> bool
    decreases s.len() - i,
{
    if i + 1 >= s.len() {
        true
    } else {
        s[i as int] + 12 <= s[i + 1 as int] && spaced(s, i + 1)
    }
}

/// The alignment coordinates of a symbol of width `n`: none, or at least
/// two, from 6 up to `n - 7`, at least 12 apart.
pub open spec fn coords_shaped(s: Seq<usize>, n: int) -> bool {
    s.len() == 0 || (s.len() >= 2 && s[0] == 6 && s[s.len() - 1] == n - 7 && spaced(s, 0))
}

#[verifier::spinoff_prover]
proof fn lemma_coords_shaped_0_9(index: nat)
    requires
        0 <= index <= 9,
    ensures
        coords_shaped(alignment_table(index), symbol_size(index)),
{
    reveal_with_fuel(spaced, 8);
    if index == 0 {
        assert(coords_shaped(alignment_table(index), symbol_size(index)));
    } else if index == 1 {
        assert(coords_shaped(alignment_table(index), symbol_size(index)));
    } else if index == 2 {
        assert(coords_shaped(alignment_table(index), symbol_size(index)));
    } else if index == 3 {
        assert(coords_shaped(alignment_table(index), symbol_size(index)));
    } else if index == 4 {
        assert(coords_shaped(alignment_table(index), symbol_size(index)));
    } else if index == 5 {
        assert(coords_shaped(alignment_table(index), symbol_size(index)));
    } else if index == 6 {
        assert(coords_shaped(alignment_table(index), symbol_size(index)));
    } else if index == 7 {
        assert(coords_shaped(alignment_table(index), symbol_size(index)));
    } else if index == 8 {
        assert(coords_shaped(alignment_table(index), symbol_size(index)));
    } else if index == 9 {
        assert(coords_shaped(alignment_table(index), symbol_size(index)));
    }
}

#[verifier::spinoff_prover]
proof fn lemma_coords_shaped_10_19(index: nat)
    requires
        10 <= index <= 19,
    ensures
        coords_shaped(alignment_table(index), symbol_size(index)),
{
    reveal_with_fuel(spaced, 8);
    if index == 10 {
        assert(coords_shaped(alignment_table(index), symbol_size(index)));
    } else if index == 11 {
        assert(coords_shaped(alignment_table(index), symbol_size(index)));
    } else if index == 12 {
        assert(coords_shaped(alignment_table(index), symbol_size(index)));
    } else if index == 13 {
        assert(coords_shaped(alignment_table(index), symbol_size(index)));
    } else if index == 14 {
        assert(coords_shaped(alignment_table(index), symbol_size(index)));
    } else if index == 15 {
        assert(coords_shaped(alignment_table(index), symbol_size(index)));
    } else if index == 16 {
        assert(coords_shaped(alignment_table(index), symbol_size(index)));
    } else if index == 17 {
        assert(coords_shaped(alignment_table(index), symbol_size(index)));
    } else if index == 18 {
        assert(coords_shaped(alignment_table(index), symbol_size(index)));
    } else if index == 19 {
        assert(coords_shaped(alignment_table(index), symbol_size(index)));
    }
}

#[verifier::spinoff_prover]
proof fn lemma_coords_shaped_20_29(index: nat)
    requires
        20 <= index <= 29,
    ensures
        coords_shaped(alignment_table(index), symbol_size(index)),
{
    reveal_with_fuel(spaced, 8);
    if index == 20 {
        assert(coords_shaped(alignment_table(index), symbol_size(index)));
    } else if index == 21 {
        assert(coords_shaped(alignment_table(index), symbol_size(index)));
    } else if index == 22 {
        assert(coords_shaped(alignment_table(index), symbol_size(index)));
    } else if index == 23 {
        assert(coords_shaped(alignment_table(index), symbol_size(index)));
    } else if index == 24 {
        assert(coords_shaped(alignment_table(index), symbol_size(index)));
    } else if index == 25 {
        assert(coords_shaped(alignment_table(index), symbol_size(index)));
    } else if index == 26 {
        assert(coords_shaped(alignment_table(index), symbol_size(index)));
    } else if index == 27 {
        assert(coords_shaped(alignment_table(index), symbol_size(index)));
    } else if index == 28 {
        assert(coords_shaped(alignment_table(index), symbol_size(index)));
    } else if index == 29 {
        assert(coords_shaped(alignment_table(index), symbol_size(index)));
    }
}

#[verifier::spinoff_prover]
proof fn lemma_coords_shaped_30_39(index: nat)
    requires
        30 <= index <= 39,
    ensures
        coords_shaped(alignment_table(index), symbol_size(index)),
{
    reveal_with_fuel(spaced, 8);
    if index == 30 {
        assert(coords_shaped(alignment_table(index), symbol_size(index)));
    } else if index == 31 {
        assert(coords_shaped(alignment_table(index), symbol_size(index)));
    } else if index == 32 {
        assert(coords_shaped(alignment_table(index), symbol_size(index)));
    } else if index == 33 {
        assert(coords_shaped(alignment_table(index), symbol_size(index)));
    } else if index == 34 {
        assert(coords_shaped(alignment_table(index), symbol_size(index)));
    } else if index == 35 {
        assert(coords_shaped(alignment_table(index), symbol_size(index)));
    } else if index == 36 {
        assert(coords_shaped(alignment_table(index), symbol_size(index)));
    } else if index == 37 {
        assert(coords_shaped(alignment_table(index), symbol_size(index)));
    } else if index == 38 {
        assert(coords_shaped(alignment_table(index), symbol_size(index)));
    } else if index == 39 {
        assert(coords_shaped(alignment_table(index), symbol_size(index)));
    }
}

/// The alignment coordinates of every version are shaped.
pub(crate) proof fn lemma_coords_shaped(index: nat)
    requires
        index < VERSION_COUNT,
    ensures
        coords_shaped(alignment_table(index), symbol_size(index)),
{
    if index < 10 {
        lemma_coords_shaped_0_9(index);
    } else if index < 20 {
        lemma_coords_shaped_10_19(index);
    } else if index < 30 {
        lemma_coords_shaped_20_29(index);
    } else {
        lemma_coords_shaped_30_39(index);
    }
}

proof fn lemma_spaced(s: Seq<usize>, i: nat, a: int, b: int)
    requires
        spaced(s, i),
        i <= a <= b < s.len(),
    ensures
        s[a] + 12 * (b - a) <= s[b],
    decreases b - a,
{
    if a < b {
        lemma_spaced_from(s, i, a as nat);
        lemma_spaced(s, (a + 1) as nat, a + 1, b);
    }
}

proof fn lemma_spaced_from(s: Seq<usize>, i: nat, a: nat)
    requires
        spaced(s, i),
        i <= a,
    ensures
        spaced(s, a),
    decreases a - i,
{
    if i < a && i + 1 < s.len() {
        lemma_spaced_from(s, i + 1, a);
    }
}

proof fn lemma_sum_three(f: spec_fn(int) -> int, a: int, b: int, c: int, d: int, v1: int, v2: int, v3: int)
    requires
        a <= b <= c <= d,
        forall|i: int| a <= i < b ==> #[trigger] f(i) == v1,
        forall|i: int| b <= i < c ==> #[trigger] f(i) == v2,
        forall|i: int| c <= i < d ==> #[trigger] f(i) == v3,
    ensures
        sum(f, a, d) == (b - a) * v1 + (c - b) * v2 + (d - c) * v3,
{
    lemma_sum_split(f, a, b, d);
    lemma_sum_split(f, b, c, d);
    lemma_sum_const(f, a, b, v1);
    lemma_sum_const(f, b, c, v2);
    lemma_sum_const(f, c, d, v3);
}

/// Whether the module at `(x, y)` is free of every function pattern but the
/// alignment patterns.
pub open spec fn base_module(x: int, y: int, index: nat) -> bool {
    let size = symbol_size(index);
    let number = index + 1;
    &&& !(x <= 8 && y <= 8)
    &&& !(x >= size - 8 && y <= 8)
    &&& !(x <= 8 && y >= size - 8)
    &&& x != 6 && y != 6
    &&& !(x == 8 && y == 4 * number + 9)
    &&& !((x <= 8 && y == 8) || (y <= 8 && x == 8) || (x >= size - 8 && y == 8) || (y >= size - 8
        && x == 8))
    &&& !(number >= 7 && ((x >= size - 11 && y < 6) || (y >= size - 11 && x < 6)))
}

proof fn lemma_data_is_base(x: int, y: int, index: nat)
    ensures
        is_data_module(x, y, index) == (base_module(x, y, index) && !in_alignment_pattern(x, y, index)),
{
}

/// The modules of column `x` free of the other function patterns, as an
/// indicator function of the row.
pub open spec fn base_cells(index: nat, x: int) -> spec_fn(int) -> int {
    |y: int| if base_module(x, y, index) { 1int } else { 0int }
}

/// The number of modules free of the other function patterns in column `x`.
pub open spec fn base_column_count(index: nat, x: int) -> int {
    let n = symbol_size(index);
    let v = index + 1 >= 7;
    if x == 6 {
        0
    } else if x <= 8 {
        n - 17 - if x < 6 && v { 3int } else { 0int }
    } else if x < n - 8 {
        n - 1 - if v && x >= n - 11 { 6int } else { 0int }
    } else {
        n - 9
    }
}

/// The number of modules of column `x` outside all function patterns but
/// the alignment patterns.
proof fn lemma_base_column(index: nat, x: int)
    requires
        0 <= x < symbol_size(index),
    ensures
        sum(base_cells(index, x), 0, symbol_size(index)) == base_column_count(index, x),
{
    let n = symbol_size(index);
    let v = index + 1 >= 7;
    let f = base_cells(index, x);
    if x == 6 {
        lemma_sum_const(f, 0, n, 0);
    } else if x <= 8 {
        if x < 6 && v {
            lemma_sum_three(f, 0, 9, n - 11, n, 0, 1, 0);
        } else {
            lemma_sum_three(f, 0, 9, n - 8, n, 0, 1, 0);
        }
    } else if x < n - 8 {
        if v && x >= n - 11 {
            lemma_sum_three(f, 0, 0, 7, n, 0, 0, 1);
        } else {
            lemma_sum_three(f, 0, 6, 7, n, 1, 0, 1);
        }
    } else {
        lemma_sum_three(f, 0, 0, 9, n, 0, 0, 1);
    }
}

/// The sum of `f` over the five places around coordinate `c` of `s`.
pub open spec fn window_sums(f: spec_fn(int) -> int, s: Seq<usize>) -> spec_fn(int) -> int {
    |c: int| sum(f, s[c] - 2, s[c] + 3)
}

/// A function that vanishes away from the coordinates sums to the sum of
/// its sums around each coordinate.
proof fn lemma_sum_windows(f: spec_fn(int) -> int, s: Seq<usize>, n: int)
    requires
        coords_shaped(s, n),
        n >= 21,
        forall|i: int|
            0 <= i < n && (forall|c: int| 0 <= c < s.len() ==> !within_two(i, #[trigger] s[c] as int))
                ==> #[trigger] f(i) == 0,
    ensures
        sum(f, 0, n) == sum(window_sums(f, s), 0, s.len() as int),
{
    let k = s.len() as int;
    if k == 0 {
        lemma_sum_const(f, 0, n, 0);
    } else {
        lemma_sum_windows_prefix(f, s, n, k - 1);
        lemma_spaced(s, 0, 0, k - 1);
        assert forall|i: int| s[k - 1] + 3 <= i < n implies #[trigger] f(i) == 0 by {
            assert forall|c: int| 0 <= c < s.len() implies !within_two(i, #[trigger] s[c] as int) by {
                lemma_spaced(s, 0, c, k - 1);
            }
        }
        lemma_sum_const(f, s[k - 1] + 3, n, 0);
        lemma_sum_split(f, 0, s[k - 1] + 3, n);
    }
}

proof fn lemma_sum_windows_prefix(f: spec_fn(int) -> int, s: Seq<usize>, n: int, c: int)
    requires
        coords_shaped(s, n),
        n >= 21,
        s.len() >= 2,
        0 <= c < s.len(),
        forall|i: int|
            0 <= i < n && (forall|d: int| 0 <= d < s.len() ==> !within_two(i, #[trigger] s[d] as int))
                ==> #[trigger] f(i) == 0,
    ensures
        sum(f, 0, s[c] + 3) == sum(window_sums(f, s), 0, c + 1),
    decreases c,
{
    let k = s.len() as int;
    lemma_spaced(s, 0, c, k - 1);
    lemma_spaced(s, 0, 0, c);
    let lo = if c == 0 { 0 } else { s[c - 1] + 3 };
    if c > 0 {
        lemma_sum_windows_prefix(f, s, n, c - 1);
        lemma_spaced(s, 0, c - 1, c);
    }
    assert forall|i: int| lo <= i < s[c] - 2 implies #[trigger] f(i) == 0 by {
        assert forall|d: int| 0 <= d < s.len() implies !within_two(i, #[trigger] s[d] as int) by {
            if d < c {
                lemma_spaced(s, 0, d, c - 1);
            } else {
                lemma_spaced(s, 0, c, d);
            }
        }
    }
    lemma_sum_const(f, lo, s[c] - 2, 0);
    lemma_sum_split(f, lo, s[c] - 2, s[c] + 3);
    if c > 0 {
        lemma_sum_split(f, 0, lo, s[c] + 3);
    }
    assert(window_sums(f, s)(c) == sum(f, s[c] - 2, s[c] + 3));
    assert(sum(window_sums(f, s), 0, c + 1) == sum(window_sums(f, s), 0, c) + window_sums(f, s)(c));
}

proof fn lemma_sum_single(f: spec_fn(int) -> int, lo: int, hi: int, p: int)
    requires
        lo <= p < hi,
        forall|i: int| lo <= i < hi && i != p ==> #[trigger] f(i) == 0,
    ensures
        sum(f, lo, hi) == f(p),
{
    let v = f(p);
    lemma_sum_three(f, lo, p, p + 1, hi, 0, v, 0);
    assert((p - lo) * 0 + (p + 1 - p) * v + (hi - (p + 1)) * 0 == v) by (nonlinear_arith);
}

/// Where the alignment coordinates lie: the first is 6, the last `n - 7`,
/// the others between 18 and `n - 19`; two windows of five around
/// different coordinates do not meet.
pub(crate) proof fn lemma_coord_bounds(s: Seq<usize>, n: int, a: int)
    requires
        coords_shaped(s, n),
        s.len() >= 2,
        0 <= a < s.len(),
    ensures
        a == 0 ==> s[a] == 6,
        a == s.len() - 1 ==> s[a] == n - 7,
        0 < a < s.len() - 1 ==> 18 <= s[a] <= n - 19,
        6 <= s[a] <= n - 7,
{
    lemma_spaced(s, 0, 0, a);
    lemma_spaced(s, 0, a, s.len() - 1);
}

pub(crate) proof fn lemma_window_unique(s: Seq<usize>, n: int, a: int, b: int, i: int)
    requires
        coords_shaped(s, n),
        0 <= a < s.len(),
        0 <= b < s.len(),
        within_two(i, s[a] as int),
        within_two(i, s[b] as int),
    ensures
        a == b,
{
    if a < b {
        lemma_spaced(s, 0, a, b);
    } else if b < a {
        lemma_spaced(s, 0, b, a);
    }
}

/// Within a drawn alignment pattern every module is free of the other
/// function patterns, but for those on the timing patterns.
proof fn lemma_base_in_window(index: nat, a: int, c: int, x: int, y: int)
    requires
        index < VERSION_COUNT,
        0 <= a < alignment_table(index).len(),
        0 <= c < alignment_table(index).len(),
        alignment_kept(alignment_table(index)[a] as int, alignment_table(index)[c] as int, symbol_size(index)),
        within_two(x, alignment_table(index)[a] as int),
        within_two(y, alignment_table(index)[c] as int),
    ensures
        base_module(x, y, index) == (x != 6 && y != 6),
{
    let s = alignment_table(index);
    let n = symbol_size(index);
    lemma_coords_shaped(index);
    lemma_coord_bounds(s, n, a);
    lemma_coord_bounds(s, n, c);
}

/// Whether the alignment pattern at coordinates `a` and `c` is drawn.
pub open spec fn kept_at(index: nat, a: int, c: int) -> bool {
    alignment_kept(
        alignment_table(index)[a] as int,
        alignment_table(index)[c] as int,
        symbol_size(index),
    )
}

/// The modules of column `x` that the alignment pattern around row
/// coordinate `c` takes from the data, given that it covers the column.
pub open spec fn window_value(index: nat, x: int, c: int) -> int {
    if x == 6 {
        0
    } else if alignment_table(index)[c] == 6 {
        4
    } else {
        5
    }
}

/// The modules column `x` loses to the alignment patterns at column
/// coordinate `a`, by row coordinate.
pub open spec fn window_terms(index: nat, a: int, x: int) -> spec_fn(int) -> int {
    |c: int| if kept_at(index, a, c) { window_value(index, x, c) } else { 0int }
}

/// The modules column `x` loses to the alignment patterns, by column
/// coordinate.
pub open spec fn column_terms(index: nat, x: int) -> spec_fn(int) -> int {
    |a: int|
        if within_two(x, alignment_table(index)[a] as int) {
            sum(window_terms(index, a, x), 0, alignment_table(index).len() as int)
        } else {
            0int
        }
}

/// The number of modules of column `x` free of the other function patterns
/// but taken by alignment patterns.
pub open spec fn overlap_column_count(index: nat, x: int) -> int {
    sum(column_terms(index, x), 0, alignment_table(index).len() as int)
}

/// The modules of column `x` free of the other function patterns but taken
/// by alignment patterns, as an indicator function of the row.
pub open spec fn overlap_cells(index: nat, x: int) -> spec_fn(int) -> int {
    |y: int| if base_module(x, y, index) && in_alignment_pattern(x, y, index) { 1int } else { 0int }
}

/// In the rows around coordinate `c`, column `x` (around coordinate `a0`)
/// loses to the alignment pattern what that pattern covers of it.
proof fn lemma_overlap_window(index: nat, a0: int, x: int, c: int)
    requires
        index < VERSION_COUNT,
        alignment_table(index).len() >= 2,
        0 <= a0 < alignment_table(index).len(),
        0 <= c < alignment_table(index).len(),
        within_two(x, alignment_table(index)[a0] as int),
    ensures
        window_sums(overlap_cells(index, x), alignment_table(index))(c) == window_terms(index, a0, x)(c),
{
    let s = alignment_table(index);
    let n = symbol_size(index);
    let f = overlap_cells(index, x);
    let cy = s[c] as int;
    lemma_coords_shaped(index);
    lemma_coord_bounds(s, n, c);
    assert forall|y: int| cy - 2 <= y < cy + 3 implies in_alignment_pattern(x, y, index) == kept_at(index, a0, c) by {
        if in_alignment_pattern(x, y, index) {
            let (i, j) = choose|i: int, j: int|
                0 <= i < s.len() && 0 <= j < s.len() && alignment_kept(
                    #[trigger] s[i] as int,
                    #[trigger] s[j] as int,
                    n,
                ) && within_two(x, s[i] as int) && within_two(y, s[j] as int);
            lemma_window_unique(s, n, i, a0, x);
            lemma_window_unique(s, n, j, c, y);
        }
        if kept_at(index, a0, c) {
            // the pattern at coordinates a0 and c covers the module
            assert(within_two(x, s[a0] as int) && within_two(y, s[c] as int));
        }
    }
    if kept_at(index, a0, c) {
        assert forall|y: int| cy - 2 <= y < cy + 3 implies #[trigger] f(y) == (if x != 6 && y != 6 { 1int } else { 0int }) by {
            lemma_base_in_window(index, a0, c, x, y);
        }
        if x == 6 {
            lemma_sum_const(f, cy - 2, cy + 3, 0);
        } else if cy == 6 {
            lemma_sum_three(f, 4, 6, 7, 9, 1, 0, 1);
        } else {
            lemma_sum_const(f, cy - 2, cy + 3, 1);
        }
    } else {
        lemma_sum_const(f, cy - 2, cy + 3, 0);
    }
}

/// What column `x` loses to the alignment patterns.
proof fn lemma_overlap_column(index: nat, x: int)
    requires
        index < VERSION_COUNT,
        0 <= x < symbol_size(index),
    ensures
        sum(overlap_cells(index, x), 0, symbol_size(index)) == overlap_column_count(index, x),
{
    let s = alignment_table(index);
    let n = symbol_size(index);
    let k = s.len() as int;
    let f = overlap_cells(index, x);
    let terms = column_terms(index, x);
    lemma_coords_shaped(index);
    if exists|a: int| 0 <= a < k && within_two(x, #[trigger] s[a] as int) {
        let a0 = choose|a: int| 0 <= a < k && within_two(x, #[trigger] s[a] as int);
        assert forall|a: int| 0 <= a < k && a != a0 implies #[trigger] terms(a) == 0 by {
            if within_two(x, s[a] as int) {
                lemma_window_unique(s, n, a, a0, x);
            }
        }
        lemma_sum_single(terms, 0, k, a0);
        assert forall|y: int|
            0 <= y < n && (forall|c: int| 0 <= c < s.len() ==> !within_two(y, #[trigger] s[c] as int)) implies #[trigger] f(y)
            == 0 by {}
        lemma_sum_windows(f, s, n);
        assert forall|c: int| 0 <= c < k implies #[trigger] window_sums(f, s)(c) == window_terms(index, a0, x)(c) by {
            lemma_overlap_window(index, a0, x, c);
        }
        lemma_sum_ext(window_sums(f, s), window_terms(index, a0, x), 0, k);
    } else {
        assert forall|a: int| 0 <= a < k implies #[trigger] terms(a) == 0 by {}
        lemma_sum_const(terms, 0, k, 0);
        assert forall|y: int| 0 <= y < n implies #[trigger] f(y) == 0 by {}
        lemma_sum_const(f, 0, n, 0);
    }
}

/// `f` read from `lo` on.
pub open spec fn shifted(f: spec_fn(int) -> int, lo: int) -> spec_fn(int) -> int {
    |t: int| f(lo + t)
}

proof fn lemma_sum_shift(f: spec_fn(int) -> int, lo: int, hi: int)
    requires
        lo <= hi,
    ensures
        sum(f, lo, hi) == sum(shifted(f, lo), 0, hi - lo),
    decreases hi - lo,
{
    if hi > lo {
        lemma_sum_shift(f, lo, hi - 1);
    }
}

/// The modules the alignment pattern at coordinates `a` and `c` takes from
/// the data: 25, less the 5 on a timing pattern.
pub open spec fn pair_value(index: nat, a: int, c: int) -> int {
    let s = alignment_table(index);
    if kept_at(index, a, c) {
        if s[a] == 6 || s[c] == 6 {
            20
        } else {
            25
        }
    } else {
        0
    }
}

/// The modules taken by the alignment patterns at column coordinate `a`,
/// by row coordinate.
pub open spec fn pair_values(index: nat, a: int) -> spec_fn(int) -> int {
    |c: int| pair_value(index, a, c)
}

/// The terms of the column sums, as a function of the column and the column
/// coordinate.
pub open spec fn overlap_terms(index: nat) -> spec_fn(int, int) -> int {
    |x: int, a: int| column_terms(index, x)(a)
}

/// What the five columns around coordinate `a` lose to the pattern at
/// coordinates `a` and `c`.
proof fn lemma_window_column_sum(index: nat, a: int, c: int)
    requires
        index < VERSION_COUNT,
        alignment_table(index).len() >= 2,
        0 <= a < alignment_table(index).len(),
        0 <= c < alignment_table(index).len(),
    ensures
        sum(shifted(|x: int| window_terms(index, a, x)(c), alignment_table(index)[a] - 2), 0, 5)
            == pair_value(index, a, c),
{
    let s = alignment_table(index);
    let n = symbol_size(index);
    let cx = s[a] as int;
    let g = shifted(|x: int| window_terms(index, a, x)(c), cx - 2);
    lemma_coords_shaped(index);
    lemma_coord_bounds(s, n, a);
    lemma_coord_bounds(s, n, c);
    if kept_at(index, a, c) {
        let w = if s[c] == 6 { 4int } else { 5int };
        if cx == 6 {
            assert(s[c] != 6) by {
                if s[c] == 6 {
                    assert(c == 0) by {
                        if c > 0 {
                            lemma_spaced(s, 0, 0, c);
                        }
                    }
                    assert(a == 0) by {
                        if a > 0 {
                            lemma_spaced(s, 0, 0, a);
                        }
                    }
                }
            }
            lemma_sum_three(g, 0, 2, 3, 5, w, 0, w);
        } else {
            lemma_sum_const(g, 0, 5, w);
        }
    } else {
        lemma_sum_const(g, 0, 5, 0);
    }
}

/// What the columns around coordinate `a` lose to the alignment patterns.
proof fn lemma_overlap_coordinate(index: nat, a: int)
    requires
        index < VERSION_COUNT,
        alignment_table(index).len() >= 2,
        0 <= a < alignment_table(index).len(),
    ensures
        sum(column_of(overlap_terms(index), a), 0, symbol_size(index)) == sum(
            pair_values(index, a),
            0,
            alignment_table(index).len() as int,
        ),
{
    let s = alignment_table(index);
    let n = symbol_size(index);
    let k = s.len() as int;
    let cx = s[a] as int;
    let lo = cx - 2;
    let col = column_of(overlap_terms(index), a);
    lemma_coords_shaped(index);
    lemma_coord_bounds(s, n, a);
    // Only the five columns around the coordinate count.
    assert forall|x: int| 0 <= x < lo implies #[trigger] col(x) == 0 by {}
    assert forall|x: int| cx + 3 <= x < n implies #[trigger] col(x) == 0 by {}
    lemma_sum_const(col, 0, lo, 0);
    lemma_sum_const(col, cx + 3, n, 0);
    lemma_sum_split(col, 0, lo, n);
    lemma_sum_split(col, lo, cx + 3, n);
    lemma_sum_shift(col, lo, cx + 3);
    // Swap the sum over the five columns with the sum over the coordinates.
    let g2 = |t: int, c: int| window_terms(index, a, lo + t)(c);
    assert forall|t: int| 0 <= t < 5 implies #[trigger] shifted(col, lo)(t) == row_sums(g2, k)(t) by {
        lemma_sum_ext(window_terms(index, a, lo + t), row_of(g2, t), 0, k);
    }
    lemma_sum_ext(shifted(col, lo), row_sums(g2, k), 0, 5);
    lemma_sum_swap(g2, 5, k);
    assert forall|c: int| 0 <= c < k implies #[trigger] column_sums(g2, 5)(c) == pair_values(index, a)(c) by {
        lemma_sum_ext(column_of(g2, c), shifted(|x: int| window_terms(index, a, x)(c), lo), 0, 5);
        lemma_window_column_sum(index, a, c);
    }
    lemma_sum_ext(column_sums(g2, 5), pair_values(index, a), 0, k);
}

/// The modules the alignment patterns take from the data, over all the
/// pairs of coordinates.
pub open spec fn alignment_total(index: nat) -> int {
    let k = alignment_table(index).len() as int;
    if k == 0 {
        0
    } else {
        25 * k * k - 10 * k - 55
    }
}

/// What the alignment patterns at column coordinate `a` take, summed over
/// the row coordinates.
proof fn lemma_pair_values_row(index: nat, a: int)
    requires
        index < VERSION_COUNT,
        alignment_table(index).len() >= 2,
        0 <= a < alignment_table(index).len(),
    ensures
        sum(pair_values(index, a), 0, alignment_table(index).len() as int) == (if a == 0 {
            20 * (alignment_table(index).len() - 2)
        } else if a == alignment_table(index).len() - 1 {
            25 * (alignment_table(index).len() - 1)
        } else {
            20 + 25 * (alignment_table(index).len() - 1)
        }),
{
    let s = alignment_table(index);
    let n = symbol_size(index);
    let k = s.len() as int;
    let f = pair_values(index, a);
    lemma_coords_shaped(index);
    lemma_coord_bounds(s, n, a);
    assert forall|c: int| 0 <= c < k implies 6 <= #[trigger] s[c] <= n - 7 && (c == 0 <==> s[c] <= 8) && (c
        == k - 1 <==> s[c] >= n - 8) by {
        lemma_coord_bounds(s, n, c);
    }
    if a == 0 {
        lemma_sum_three(f, 0, 1, k - 1, k, 0, 20, 0);
    } else if a == k - 1 {
        lemma_sum_three(f, 0, 1, k, k, 0, 25, 0);
    } else {
        lemma_sum_three(f, 0, 1, k, k, 20, 25, 0);
    }
}

/// What the alignment patterns take from the data, over all columns.
proof fn lemma_alignment_total(index: nat)
    requires
        index < VERSION_COUNT,
    ensures
        sum(|x: int| overlap_column_count(index, x), 0, symbol_size(index)) == alignment_total(index),
{
    let s = alignment_table(index);
    let n = symbol_size(index);
    let k = s.len() as int;
    let g = overlap_terms(index);
    let counts = |x: int| overlap_column_count(index, x);
    lemma_coords_shaped(index);
    assert forall|x: int| 0 <= x < n implies #[trigger] counts(x) == row_sums(g, k)(x) by {
        lemma_sum_ext(column_terms(index, x), row_of(g, x), 0, k);
    }
    lemma_sum_ext(counts, row_sums(g, k), 0, n);
    lemma_sum_swap(g, n, k);
    if k == 0 {
        assert(sum(column_sums(g, n), 0, k) == 0);
    } else {
        let totals = |a: int| sum(pair_values(index, a), 0, k);
        assert forall|a: int| 0 <= a < k implies #[trigger] column_sums(g, n)(a) == totals(a) by {
            lemma_overlap_coordinate(index, a);
        }
        lemma_sum_ext(column_sums(g, n), totals, 0, k);
        assert forall|a: int| 0 <= a < k implies #[trigger] totals(a) == (if a == 0 {
            20 * (k - 2)
        } else if a == k - 1 {
            25 * (k - 1)
        } else {
            20 + 25 * (k - 1)
        }) by {
            lemma_pair_values_row(index, a);
        }
        lemma_sum_three(totals, 0, 1, k - 1, k, 20 * (k - 2), 20 + 25 * (k - 1), 25 * (k - 1));
        assert(1 * (20 * (k - 2)) + (k - 1 - 1) * (20 + 25 * (k - 1)) + (k - (k - 1)) * (25 * (k - 1)) == 25 * k * k
            - 10 * k - 55) by (nonlinear_arith);
    }
}

/// The number of modules outside all function patterns but the alignment
/// patterns, over all columns.
proof fn lemma_base_total(index: nat)
    requires
        index < VERSION_COUNT,
    ensures
        sum(|x: int| base_column_count(index, x), 0, symbol_size(index)) == symbol_size(index) * symbol_size(index)
            - 2 * symbol_size(index) - 191 - if index + 1 >= 7 { 36int } else { 0int },
{
    let n = symbol_size(index);
    let v = index + 1 >= 7;
    let w = if v { 1int } else { 0int };
    let f = |x: int| base_column_count(index, x);
    lemma_sum_split(f, 0, 9, n);
    lemma_sum_three(f, 0, 6, 7, 9, n - 17 - 3 * w, 0, n - 17);
    lemma_sum_three(f, 9, n - 11, n - 8, n, n - 1, n - 1 - 6 * w, n - 9);
    assert((n - 11 - 9) * (n - 1) + 3 * (n - 1 - 6 * w) + 8 * (n - 9) + 6 * (n - 17 - 3 * w) + 2 * (n - 17)
        == n * n - 2 * n - 191 - 36 * w) by (nonlinear_arith);
}

/// The number of data modules of the version with the given index: the
/// modules of the symbol less those of the finder patterns with their
/// separators and the format information, the timing patterns, the version
/// information from version 7 on, and the alignment patterns.
pub open spec fn data_module_count(index: nat) -> int {
    let n = symbol_size(index);
    n * n - 2 * n - 191 - (if index + 1 >= 7 { 36int } else { 0int }) - alignment_total(index)
}

/// The data fills as many positions as the symbol has data modules.
pub proof fn lemma_data_module_count(index: nat)
    requires
        index < VERSION_COUNT,
    ensures
        data_positions(index).len() == data_module_count(index),
{
    let n = symbol_size(index);
    let base = |x: int| base_column_count(index, x);
    let overlap = |x: int| overlap_column_count(index, x);
    lemma_data_positions_count(index);
    assert forall|x: int| 0 <= x < n implies #[trigger] column_counts(index)(x) == base(x) - overlap(x) by {
        assert forall|y: int| 0 <= y < n implies #[trigger] column_cells(index, x)(y) == base_cells(index, x)(y)
            - overlap_cells(index, x)(y) by {
            lemma_data_is_base(x, y, index);
        }
        lemma_sum_linear(base_cells(index, x), overlap_cells(index, x), column_cells(index, x), 0, n);
        lemma_base_column(index, x);
        lemma_overlap_column(index, x);
    }
    lemma_sum_linear(base, overlap, column_counts(index), 0, n);
    lemma_base_total(index);
    lemma_alignment_total(index);
}

#[verifier::spinoff_prover]
proof fn lemma_room_0_9(index: nat)
    requires
        0 <= index <= 9,
    ensures
        8 * total_codewords_at(index) <= data_module_count(index) < 8 * total_codewords_at(index) + 8,
{
    if index == 0 {
        assert(alignment_table(index).len() == 0);
        assert(data_module_count(index) == 21 * 21 - 2 * 21 - 191 - 0 - 0);
        assert(total_codewords_at(index) == 26);
    } else if index == 1 {
        assert(alignment_table(index).len() == 2);
        assert(data_module_count(index) == 25 * 25 - 2 * 25 - 191 - 0 - 25);
        assert(total_codewords_at(index) == 44);
    } else if index == 2 {
        assert(alignment_table(index).len() == 2);
        assert(data_module_count(index) == 29 * 29 - 2 * 29 - 191 - 0 - 25);
        assert(total_codewords_at(index) == 70);
    } else if index == 3 {
        assert(alignment_table(index).len() == 2);
        assert(data_module_count(index) == 33 * 33 - 2 * 33 - 191 - 0 - 25);
        assert(total_codewords_at(index) == 100);
    } else if index == 4 {
        assert(alignment_table(index).len() == 2);
        assert(data_module_count(index) == 37 * 37 - 2 * 37 - 191 - 0 - 25);
        assert(total_codewords_at(index) == 134);
    } else if index == 5 {
        assert(alignment_table(index).len() == 2);
        assert(data_module_count(index) == 41 * 41 - 2 * 41 - 191 - 0 - 25);
        assert(total_codewords_at(index) == 172);
    } else if index == 6 {
        assert(alignment_table(index).len() == 3);
        assert(data_module_count(index) == 45 * 45 - 2 * 45 - 191 - 36 - 140);
        assert(total_codewords_at(index) == 196);
    } else if index == 7 {
        assert(alignment_table(index).len() == 3);
        assert(data_module_count(index) == 49 * 49 - 2 * 49 - 191 - 36 - 140);
        assert(total_codewords_at(index) == 242);
    } else if index == 8 {
        assert(alignment_table(index).len() == 3);
        assert(data_module_count(index) == 53 * 53 - 2 * 53 - 191 - 36 - 140);
        assert(total_codewords_at(index) == 292);
    } else if index == 9 {
        assert(alignment_table(index).len() == 3);
        assert(data_module_count(index) == 57 * 57 - 2 * 57 - 191 - 36 - 140);
        assert(total_codewords_at(index) == 346);
    }
}

#[verifier::spinoff_prover]
proof fn lemma_room_10_19(index: nat)
    requires
        10 <= index <= 19,
    ensures
        8 * total_codewords_at(index) <= data_module_count(index) < 8 * total_codewords_at(index) + 8,
{
    if index == 10 {
        assert(alignment_table(index).len() == 3);
        assert(data_module_count(index) == 61 * 61 - 2 * 61 - 191 - 36 - 140);
        assert(total_codewords_at(index) == 404);
    } else if index == 11 {
        assert(alignment_table(index).len() == 3);
        assert(data_module_count(index) == 65 * 65 - 2 * 65 - 191 - 36 - 140);
        assert(total_codewords_at(index) == 466);
    } else if index == 12 {
        assert(alignment_table(index).len() == 3);
        assert(data_module_count(index) == 69 * 69 - 2 * 69 - 191 - 36 - 140);
        assert(total_codewords_at(index) == 532);
    } else if index == 13 {
        assert(alignment_table(index).len() == 4);
        assert(data_module_count(index) == 73 * 73 - 2 * 73 - 191 - 36 - 305);
        assert(total_codewords_at(index) == 581);
    } else if index == 14 {
        assert(alignment_table(index).len() == 4);
        assert(data_module_count(index) == 77 * 77 - 2 * 77 - 191 - 36 - 305);
        assert(total_codewords_at(index) == 655);
    } else if index == 15 {
        assert(alignment_table(index).len() == 4);
        assert(data_module_count(index) == 81 * 81 - 2 * 81 - 191 - 36 - 305);
        assert(total_codewords_at(index) == 733);
    } else if index == 16 {
        assert(alignment_table(index).len() == 4);
        assert(data_module_count(index) == 85 * 85 - 2 * 85 - 191 - 36 - 305);
        assert(total_codewords_at(index) == 815);
    } else if index == 17 {
        assert(alignment_table(index).len() == 4);
        assert(data_module_count(index) == 89 * 89 - 2 * 89 - 191 - 36 - 305);
        assert(total_codewords_at(index) == 901);
    } else if index == 18 {
        assert(alignment_table(index).len() == 4);
        assert(data_module_count(index) == 93 * 93 - 2 * 93 - 191 - 36 - 305);
        assert(total_codewords_at(index) == 991);
    } else if index == 19 {
        assert(alignment_table(index).len() == 4);
        assert(data_module_count(index) == 97 * 97 - 2 * 97 - 191 - 36 - 305);
        assert(total_codewords_at(index) == 1085);
    }
}

#[verifier::spinoff_prover]
proof fn lemma_room_20_29(index: nat)
    requires
        20 <= index <= 29,
    ensures
        8 * total_codewords_at(index) <= data_module_count(index) < 8 * total_codewords_at(index) + 8,
{
    if index == 20 {
        assert(alignment_table(index).len() == 5);
        assert(data_module_count(index) == 101 * 101 - 2 * 101 - 191 - 36 - 520);
        assert(total_codewords_at(index) == 1156);
    } else if index == 21 {
        assert(alignment_table(index).len() == 5);
        assert(data_module_count(index) == 105 * 105 - 2 * 105 - 191 - 36 - 520);
        assert(total_codewords_at(index) == 1258);
    } else if index == 22 {
        assert(alignment_table(index).len() == 5);
        assert(data_module_count(index) == 109 * 109 - 2 * 109 - 191 - 36 - 520);
        assert(total_codewords_at(index) == 1364);
    } else if index == 23 {
        assert(alignment_table(index).len() == 5);
        assert(data_module_count(index) == 113 * 113 - 2 * 113 - 191 - 36 - 520);
        assert(total_codewords_at(index) == 1474);
    } else if index == 24 {
        assert(alignment_table(index).len() == 5);
        assert(data_module_count(index) == 117 * 117 - 2 * 117 - 191 - 36 - 520);
        assert(total_codewords_at(index) == 1588);
    } else if index == 25 {
        assert(alignment_table(index).len() == 5);
        assert(data_module_count(index) == 121 * 121 - 2 * 121 - 191 - 36 - 520);
        assert(total_codewords_at(index) == 1706);
    } else if index == 26 {
        assert(alignment_table(index).len() == 5);
        assert(data_module_count(index) == 125 * 125 - 2 * 125 - 191 - 36 - 520);
        assert(total_codewords_at(index) == 1828);
    } else if index == 27 {
        assert(alignment_table(index).len() == 6);
        assert(data_module_count(index) == 129 * 129 - 2 * 129 - 191 - 36 - 785);
        assert(total_codewords_at(index) == 1921);
    } else if index == 28 {
        assert(alignment_table(index).len() == 6);
        assert(data_module_count(index) == 133 * 133 - 2 * 133 - 191 - 36 - 785);
        assert(total_codewords_at(index) == 2051);
    } else if index == 29 {
        assert(alignment_table(index).len() == 6);
        assert(data_module_count(index) == 137 * 137 - 2 * 137 - 191 - 36 - 785);
        assert(total_codewords_at(index) == 2185);
    }
}

#[verifier::spinoff_prover]
proof fn lemma_room_30_39(index: nat)
    requires
        30 <= index <= 39,
    ensures
        8 * total_codewords_at(index) <= data_module_count(index) < 8 * total_codewords_at(index) + 8,
{
    if index == 30 {
        assert(alignment_table(index).len() == 6);
        assert(data_module_count(index) == 141 * 141 - 2 * 141 - 191 - 36 - 785);
        assert(total_codewords_at(index) == 2323);
    } else if index == 31 {
        assert(alignment_table(index).len() == 6);
        assert(data_module_count(index) == 145 * 145 - 2 * 145 - 191 - 36 - 785);
        assert(total_codewords_at(index) == 2465);
    } else if index == 32 {
        assert(alignment_table(index).len() == 6);
        assert(data_module_count(index) == 149 * 149 - 2 * 149 - 191 - 36 - 785);
        assert(total_codewords_at(index) == 2611);
    } else if index == 33 {
        assert(alignment_table(index).len() == 6);
        assert(data_module_count(index) == 153 * 153 - 2 * 153 - 191 - 36 - 785);
        assert(total_codewords_at(index) == 2761);
    } else if index == 34 {
        assert(alignment_table(index).len() == 7);
        assert(data_module_count(index) == 157 * 157 - 2 * 157 - 191 - 36 - 1100);
        assert(total_codewords_at(index) == 2876);
    } else if index == 35 {
        assert(alignment_table(index).len() == 7);
        assert(data_module_count(index) == 161 * 161 - 2 * 161 - 191 - 36 - 1100);
        assert(total_codewords_at(index) == 3034);
    } else if index == 36 {
        assert(alignment_table(index).len() == 7);
        assert(data_module_count(index) == 165 * 165 - 2 * 165 - 191 - 36 - 1100);
        assert(total_codewords_at(index) == 3196);
    } else if index == 37 {
        assert(alignment_table(index).len() == 7);
        assert(data_module_count(index) == 169 * 169 - 2 * 169 - 191 - 36 - 1100);
        assert(total_codewords_at(index) == 3362);
    } else if index == 38 {
        assert(alignment_table(index).len() == 7);
        assert(data_module_count(index) == 173 * 173 - 2 * 173 - 191 - 36 - 1100);
        assert(total_codewords_at(index) == 3532);
    } else if index == 39 {
        assert(alignment_table(index).len() == 7);
        assert(data_module_count(index) == 177 * 177 - 2 * 177 - 191 - 36 - 1100);
        assert(total_codewords_at(index) == 3706);
    }
}

/// Every version has room for its whole message: at least eight data
/// modules per codeword, and fewer than eight left over.
pub proof fn lemma_room_for_message(index: nat)
    requires
        index < VERSION_COUNT,
    ensures
        8 * total_codewords_at(index) <= data_positions(index).len() < 8 * total_codewords_at(index) + 8,
{
    lemma_data_module_count(index);
    if index < 10 {
        lemma_room_0_9(index);
    } else if index < 20 {
        lemma_room_10_19(index);
    } else if index < 30 {
        lemma_room_20_29(index);
    } else {
        lemma_room_30_39(index);
    }
}

/// Every bit of the message of a version finds a data module to fill, and
/// fewer than eight data modules are left over.
pub proof fn lemma_message_fits(data: Seq<u8>, index: nat)
    requires
        index < VERSION_COUNT,
        data.len() == data_codewords_table()[index as int],
    ensures
        8 * message(data, index).len() <= data_positions(index).len() < 8 * message(data, index).len() + 8,
{
    lemma_message_holds_all_codewords(data, index);
    lemma_total_codewords_table(index);
    lemma_room_for_message(index);
}

} // verus!
