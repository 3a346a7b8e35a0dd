//! Drawing of the symbol on a grid of modules: the function patterns, the
//! data modules and the format information.
use vstd::prelude::*;
use crate::bits::{byte_bit, get_byte_bit, grid_bits, grid_new, grid_set, max_bits, Grid};
use crate::layout::{
    alignment_kept, data_layout, data_positions, in_alignment_pattern, is_data_module,
    lemma_data_positions_distinct, lemma_data_positions_in_grid, symbol_size, within_two,
};
use crate::capacity::{lemma_coord_bounds, lemma_coords_shaped, lemma_message_fits, lemma_window_unique};
use crate::message::{construct_message, message};
use crate::versions::{
    alignment_table, data_codewords_table, lemma_alignment_table, Version, VERSION_COUNT,
};

verus! {

/// The position in the grid of the module at column `x` and row `y`.
pub open spec fn module_index(size: int, x: int, y: int) -> int {
    x + size * y
}

/// The grid `g` after the writes `w`, in order: each write `(x, y, v)` sets
/// the module at column `x` and row `y` to `v`.
pub open spec fn apply_writes(g: Seq<bool>, size: int, w: Seq<(int, int, bool)>) -> Seq<bool>
    decreases w.len(),
{
    if w.len() == 0 {
        g
    } else {
        let (x, y, v) = w.last();
        apply_writes(g, size, w.drop_last()).update(module_index(size, x, y), v)
    }
}

/// Applying `a + b` is applying `a`, then `b`.
pub proof fn lemma_apply_writes_append(g: Seq<bool>, size: int, a: Seq<(int, int, bool)>, b: Seq<(int, int, bool)>)
    ensures
        apply_writes(g, size, a + b) == apply_writes(apply_writes(g, size, a), size, b),
    decreases b.len(),
{
    if b.len() == 0 {
        assert(a + b == a);
    } else {
        lemma_apply_writes_append(g, size, a, b.drop_last());
        assert((a + b).drop_last() == a + b.drop_last());
    }
}

proof fn lemma_apply_writes_push(g: Seq<bool>, size: int, w: Seq<(int, int, bool)>, e: (int, int, bool))
    ensures
        apply_writes(g, size, w.push(e)) == apply_writes(g, size, w).update(module_index(size, e.0, e.1), e.2),
{
    assert(w.push(e).drop_last() == w);
}

proof fn lemma_module_index_bound(size: int, x: int, y: int)
    requires
        0 <= x < size,
        0 <= y < size,
    ensures
        0 <= module_index(size, x, y) < size * size,
{
    assert(0 <= x + size * y < size * size) by (nonlinear_arith)
        requires
            0 <= x < size,
            0 <= y < size,
    ;
}

/// Sets the module at column `x` and row `y` of a grid of width `size`.
fn set_module(grid: &mut Grid, size: usize, x: usize, y: usize, value: bool)
    requires
        x + size * y < grid_bits(*old(grid)).len(),
    ensures
        grid_bits(*final(grid)) == grid_bits(*old(grid)).update(module_index(size as int, x as int, y as int), value),
{
    let len = grid.len();
    assert(size * y <= x + size * y);
    grid_set(grid, x + size * y, value);
}

/// Whether the module at offset `(dx, dy)` of a finder pattern is dark: the
/// outer ring of the 7 by 7 square and its 3 by 3 centre.
pub open spec fn finder_module(dx: int, dy: int) -> bool {
    dx == 0 || dx == 6 || dy == 0 || dy == 6 || (2 <= dx <= 4 && 2 <= dy <= 4)
}

/// The writes of a finder pattern with top left corner `(x, y)`, for the
/// first `c` modules of its square in row order: dark modules are set,
/// light modules are left as they are.
pub open spec fn finder_writes(x: int, y: int, c: nat) -> Seq<(int, int, bool)>
    decreases c,
{
    if c == 0 {
        Seq::empty()
    } else {
        let prev = finder_writes(x, y, (c - 1) as nat);
        let dx = (c - 1) % 7;
        let dy = (c - 1) / 7;
        if finder_module(dx, dy) {
            prev.push((x + dx, y + dy, true))
        } else {
            prev
        }
    }
}

/// The position in a grid of width `size` of the module at offset `(i, j)`
/// from column `x` and row `y`.
pub open spec fn cell_index(size: int, x: int, y: int, i: int, j: int) -> int {
    (x + i) + size * (y + j)
}

/// Two offsets into a square that fits in the width of the grid name two
/// different modules unless they are equal.
proof fn lemma_cell_index_injective(size: int, x: int, y: int, i: int, j: int, i2: int, j2: int)
    requires
        0 <= x,
        0 <= y,
        0 <= i,
        0 <= j,
        0 <= i2,
        0 <= j2,
        x + i < size,
        x + i2 < size,
        cell_index(size, x, y, i, j) == cell_index(size, x, y, i2, j2),
    ensures
        i == i2 && j == j2,
{
    if j < j2 {
        assert(size * (y + j) + size <= size * (y + j2)) by (nonlinear_arith)
            requires
                j < j2,
                size >= 0,
        ;
    } else if j2 < j {
        assert(size * (y + j2) + size <= size * (y + j)) by (nonlinear_arith)
            requires
                j2 < j,
                size >= 0,
        ;
    }
}

/// Draws the finder pattern with top left corner at column `x` and row `y`.
fn finder_pattern(grid: &mut Grid, size: usize, x: usize, y: usize)
    requires
        x + 7 <= size,
        y + 7 <= size,
        (x + 6) + size * (y + 6) < grid_bits(*old(grid)).len(),
    ensures
        grid_bits(*final(grid)) == apply_writes(grid_bits(*old(grid)), size as int, finder_writes(x as int, y as int, 49)),
        grid_bits(*final(grid)).len() == grid_bits(*old(grid)).len(),
        forall|i: int, j: int|
            0 <= i < 7 && 0 <= j < 7 ==> grid_bits(*final(grid))[#[trigger] cell_index(size as int, x as int, y as int, i, j)]
                == (finder_module(i, j) || grid_bits(*old(grid))[cell_index(size as int, x as int, y as int, i, j)]),
        forall|p: int|
            0 <= p < grid_bits(*old(grid)).len() && (forall|i: int, j: int|
                0 <= i < 7 && 0 <= j < 7 ==> p != #[trigger] cell_index(size as int, x as int, y as int, i, j))
                ==> #[trigger] grid_bits(*final(grid))[p] == grid_bits(*old(grid))[p],
{
    let ghost g0 = grid_bits(*grid);
    let mut dy: usize = 0;
    while dy < 7
        invariant
            x + 7 <= size,
            y + 7 <= size,
            (x + 6) + size * (y + 6) < g0.len(),
            dy <= 7,
            grid_bits(*grid).len() == g0.len(),
            forall|i: int, j: int|
                0 <= i < 7 && 0 <= j < 7 ==> grid_bits(*grid)[#[trigger] cell_index(size as int, x as int, y as int, i, j)]
                    == ((7 * j + i < 7 * dy && finder_module(i, j)) || g0[cell_index(size as int, x as int, y as int, i, j)]),
            forall|p: int|
                0 <= p < g0.len() && (forall|i: int, j: int|
                    0 <= i < 7 && 0 <= j < 7 ==> p != #[trigger] cell_index(size as int, x as int, y as int, i, j))
                    ==> #[trigger] grid_bits(*grid)[p] == g0[p],
            grid_bits(*grid) == apply_writes(g0, size as int, finder_writes(x as int, y as int, (7 * dy) as nat)),
        decreases 7 - dy,
    {
        let mut dx: usize = 0;
        while dx < 7
            invariant
                x + 7 <= size,
                y + 7 <= size,
                (x + 6) + size * (y + 6) < g0.len(),
                dy < 7,
                dx <= 7,
                grid_bits(*grid).len() == g0.len(),
                forall|i: int, j: int|
                    0 <= i < 7 && 0 <= j < 7 ==> grid_bits(*grid)[#[trigger] cell_index(size as int, x as int, y as int, i, j)]
                        == ((7 * j + i < 7 * dy + dx && finder_module(i, j)) || g0[cell_index(size as int, x as int, y as int, i, j)]),
                forall|p: int|
                    0 <= p < g0.len() && (forall|i: int, j: int|
                        0 <= i < 7 && 0 <= j < 7 ==> p != #[trigger] cell_index(size as int, x as int, y as int, i, j))
                        ==> #[trigger] grid_bits(*grid)[p] == g0[p],
                grid_bits(*grid) == apply_writes(g0, size as int, finder_writes(x as int, y as int, (7 * dy + dx) as nat)),
            decreases 7 - dx,
        {
            let ghost c = (7 * dy + dx) as nat;
            assert(c % 7 == dx && c / 7 == dy);
            assert forall|i: int, j: int| 0 <= i < 7 && 0 <= j < 7 && (i != dx || j != dy) implies #[trigger] cell_index(
                size as int,
                x as int,
                y as int,
                i,
                j,
            ) <= (x + 6) + size * (y + 6) && 7 * j + i != 7 * dy + dx by {
                assert(cell_index(size as int, x as int, y as int, i, j) <= (x + 6) + size * (y + 6)) by (nonlinear_arith)
                    requires
                        i < 7,
                        j < 7,
                        size >= 0,
                ;
                if j < dy {
                    assert(7 * j + i < 7 * dy);
                } else if j > dy {
                    assert(7 * j > 7 * dy + 6);
                }
            }
            if dy == 0 || dy == 6 || dx == 0 || dx == 6 || (2 <= dx && dx <= 4 && 2 <= dy && dy <= 4) {
                assert((x + dx) + size * (y + dy) <= (x + 6) + size * (y + 6)) by (nonlinear_arith)
                    requires
                        dx <= 6,
                        dy <= 6,
                ;
                let ghost before = grid_bits(*grid);
                set_module(grid, size, x + dx, y + dy, true);
                proof {
                    lemma_apply_writes_push(g0, size as int, finder_writes(x as int, y as int, c), (x + dx, y + dy, true));
                    assert(module_index(size as int, (x + dx) as int, (y + dy) as int) == cell_index(
                        size as int,
                        x as int,
                        y as int,
                        dx as int,
                        dy as int,
                    ));
                    assert forall|i: int, j: int|
                        0 <= i < 7 && 0 <= j < 7 && (i != dx || j != dy) implies cell_index(
                        size as int,
                        x as int,
                        y as int,
                        i,
                        j,
                    ) != cell_index(size as int, x as int, y as int, dx as int, dy as int) by {
                        if cell_index(size as int, x as int, y as int, i, j) == cell_index(
                            size as int,
                            x as int,
                            y as int,
                            dx as int,
                            dy as int,
                        ) {
                            lemma_cell_index_injective(size as int, x as int, y as int, i, j, dx as int, dy as int);
                        }
                    }
                }
            }
            dx += 1;
        }
        dy += 1;
    }
}

/// The value of the module at offset `(dx, dy)` of an alignment pattern
/// (offsets from the top left corner): dark on the outer ring of the 5 by 5
/// square and at its centre, light elsewhere.
pub open spec fn alignment_module(dx: int, dy: int) -> bool {
    dx == 0 || dx == 4 || dy == 0 || dy == 4 || (dx == 2 && dy == 2)
}

/// The writes of an alignment pattern centred at `(x, y)`, for the first `c`
/// modules of its square in row order.
pub open spec fn alignment_writes(x: int, y: int, c: nat) -> Seq<(int, int, bool)>
    decreases c,
{
    if c == 0 {
        Seq::empty()
    } else {
        let dx = (c - 1) % 5;
        let dy = (c - 1) / 5;
        alignment_writes(x, y, (c - 1) as nat).push((x - 2 + dx, y - 2 + dy, alignment_module(dx, dy)))
    }
}

/// Draws the alignment pattern centred at column `x` and row `y`.
fn alignment_pattern(grid: &mut Grid, size: usize, x: usize, y: usize)
    requires
        2 <= x,
        2 <= y,
        x + 2 < size,
        (x + 2) + size * (y + 2) < grid_bits(*old(grid)).len(),
    ensures
        grid_bits(*final(grid)) == apply_writes(grid_bits(*old(grid)), size as int, alignment_writes(x as int, y as int, 25)),
        grid_bits(*final(grid)).len() == grid_bits(*old(grid)).len(),
        forall|i: int, j: int|
            0 <= i < 5 && 0 <= j < 5 ==> grid_bits(*final(grid))[#[trigger] cell_index(size as int, x - 2, y - 2, i, j)] == alignment_module(i, j),
        forall|p: int|
            0 <= p < grid_bits(*old(grid)).len() && (forall|i: int, j: int|
                0 <= i < 5 && 0 <= j < 5 ==> p != #[trigger] cell_index(size as int, x - 2, y - 2, i, j))
                ==> #[trigger] grid_bits(*final(grid))[p] == grid_bits(*old(grid))[p],
{
    let ghost g0 = grid_bits(*grid);
    let len = grid.len();
    assert(y + 2 <= size * (y + 2)) by (nonlinear_arith)
        requires
            x + 2 < size,
    ;
    let mut dy: usize = 0;
    while dy < 5
        invariant
            2 <= x,
            2 <= y,
            x + 2 < size,
            y + 2 < g0.len(),
            g0.len() <= usize::MAX,
            (x + 2) + size * (y + 2) < g0.len(),
            dy <= 5,
            grid_bits(*grid).len() == g0.len(),
            forall|i: int, j: int|
                0 <= i < 5 && 0 <= j < 5 ==> grid_bits(*grid)[#[trigger] cell_index(size as int, x - 2, y - 2, i, j)] == (if 5 * j + i < 5 * dy {
                    alignment_module(i, j)
                } else {
                    g0[cell_index(size as int, x - 2, y - 2, i, j)]
                }),
            forall|p: int|
                0 <= p < g0.len() && (forall|i: int, j: int|
                    0 <= i < 5 && 0 <= j < 5 ==> p != #[trigger] cell_index(size as int, x - 2, y - 2, i, j))
                    ==> #[trigger] grid_bits(*grid)[p] == g0[p],
            grid_bits(*grid) == apply_writes(g0, size as int, alignment_writes(x as int, y as int, (5 * dy) as nat)),
        decreases 5 - dy,
    {
        let mut dx: usize = 0;
        while dx < 5
            invariant
                2 <= x,
                2 <= y,
                x + 2 < size,
                y + 2 < g0.len(),
                g0.len() <= usize::MAX,
                (x + 2) + size * (y + 2) < g0.len(),
                dy < 5,
                dx <= 5,
                grid_bits(*grid).len() == g0.len(),
                forall|i: int, j: int|
                    0 <= i < 5 && 0 <= j < 5 ==> grid_bits(*grid)[#[trigger] cell_index(size as int, x - 2, y - 2, i, j)] == (if 5 * j + i < 5 * dy + dx {
                        alignment_module(i, j)
                    } else {
                        g0[cell_index(size as int, x - 2, y - 2, i, j)]
                    }),
                forall|p: int|
                    0 <= p < g0.len() && (forall|i: int, j: int|
                        0 <= i < 5 && 0 <= j < 5 ==> p != #[trigger] cell_index(size as int, x - 2, y - 2, i, j))
                        ==> #[trigger] grid_bits(*grid)[p] == g0[p],
                grid_bits(*grid) == apply_writes(g0, size as int, alignment_writes(x as int, y as int, (5 * dy + dx) as nat)),
            decreases 5 - dx,
        {
            let ghost c = (5 * dy + dx) as nat;
            assert(c % 5 == dx && c / 5 == dy);
            let dark = dy == 0 || dy == 4 || dx == 0 || dx == 4 || (dx == 2 && dy == 2);
            assert((x - 2 + dx) + size * (y - 2 + dy) <= (x + 2) + size * (y + 2)) by (nonlinear_arith)
                requires
                    2 <= x,
                    2 <= y,
                    dx <= 4,
                    dy <= 4,
            ;
            assert forall|i: int, j: int| 0 <= i < 5 && 0 <= j < 5 && (i != dx || j != dy) implies #[trigger] cell_index(size as int, x - 2, y - 2, i, j)
                <= (x + 2) + size * (y + 2) && 5 * j + i != 5 * dy + dx && cell_index(size as int, x - 2, y - 2, i, j) != cell_index(
                size as int,
                x - 2,
                y - 2,
                dx as int,
                dy as int,
            ) by {
                assert(cell_index(size as int, x - 2, y - 2, i, j) <= (x + 2) + size * (y + 2)) by (nonlinear_arith)
                    requires
                        2 <= x,
                        2 <= y,
                        i < 5,
                        j < 5,
                        size >= 0,
                ;
                if cell_index(size as int, x - 2, y - 2, i, j) == cell_index(size as int, x - 2, y - 2, dx as int, dy as int) {
                    lemma_cell_index_injective(size as int, x - 2, y - 2, i, j, dx as int, dy as int);
                }
            }
            assert(module_index(size as int, (x - 2 + dx) as int, (y - 2 + dy) as int) == cell_index(
                size as int,
                x - 2,
                y - 2,
                dx as int,
                dy as int,
            ));
            set_module(grid, size, x - 2 + dx, y - 2 + dy, dark);
            proof {
                lemma_apply_writes_push(
                    g0,
                    size as int,
                    alignment_writes(x as int, y as int, c),
                    (x - 2 + dx, y - 2 + dy, dark),
                );
            }
            dx += 1;
        }
        dy += 1;
    }
}

/// The writes of the timing patterns of a symbol of width `size`: for each
/// `i` from 8 up to `size - 9`, the module in row 6 and the module in column 6,
/// dark where `i` is even.
pub open spec fn timing_writes(size: int) -> Seq<(int, int, bool)> {
    Seq::new(
        (2 * (size - 16)) as nat,
        |t: int|
            {
                let i = 8 + t / 2;
                if t % 2 == 0 {
                    (i, 6int, i % 2 == 0)
                } else {
                    (6int, i, i % 2 == 0)
                }
            },
    )
}

/// The writes of the alignment patterns centred at the pairs of `coords`,
/// column first, before the pair `(coords[i], coords[j])`, in order; the
/// three that would overlap a finder pattern are left out.
pub open spec fn alignment_stage(size: int, coords: Seq<usize>, i: nat, j: nat) -> Seq<(int, int, bool)>
    decreases i, j,
{
    if j == 0 {
        if i == 0 {
            Seq::empty()
        } else {
            alignment_stage(size, coords, (i - 1) as nat, coords.len())
        }
    } else {
        alignment_stage(size, coords, i, (j - 1) as nat) + if alignment_kept(
            coords[i as int] as int,
            coords[j - 1] as int,
            size,
        ) {
            alignment_writes(coords[i as int] as int, coords[j - 1] as int, 25)
        } else {
            Seq::empty()
        }
    }
}

/// The writes that fill the data modules at `positions` with the bits of
/// `message`, most significant bit first, masked with the pattern that
/// inverts the even rows; positions past the end of the message are left
/// as they are.
pub open spec fn data_writes(message: Seq<u8>, positions: Seq<(usize, usize)>) -> Seq<(int, int, bool)> {
    let n = if positions.len() <= 8 * message.len() {
        positions.len()
    } else {
        8 * message.len()
    };
    Seq::new(
        n as nat,
        |k: int|
            (
                positions[k].0 as int,
                positions[k].1 as int,
                byte_bit(message, k) != (positions[k].1 % 2 == 0),
            ),
    )
}

/// Bit `i` of the format information for error correction level H and mask
/// pattern 001, after masking.
pub open spec fn format_bit(i: int) -> bool {
    seq![false, false, true, false, false, true, true, true, false, true, true, true, true, true, false][i]
}

/// The writes of the two copies of the format information and of the dark
/// module, for a symbol of width `s`.
pub open spec fn format_writes(s: int) -> Seq<(int, int, bool)> {
    seq![
        (8, 0, format_bit(14)),
        (8, 1, format_bit(13)),
        (8, 2, format_bit(12)),
        (8, 3, format_bit(11)),
        (8, 4, format_bit(10)),
        (8, 5, format_bit(9)),
        (8, 7, format_bit(8)),
        (8, 8, format_bit(7)),
        (7, 8, format_bit(6)),
        (5, 8, format_bit(5)),
        (4, 8, format_bit(4)),
        (3, 8, format_bit(3)),
        (2, 8, format_bit(2)),
        (1, 8, format_bit(1)),
        (0, 8, format_bit(0)),
        (s - 1, 8, format_bit(14)),
        (s - 2, 8, format_bit(13)),
        (s - 3, 8, format_bit(12)),
        (s - 4, 8, format_bit(11)),
        (s - 5, 8, format_bit(10)),
        (s - 6, 8, format_bit(9)),
        (s - 7, 8, format_bit(8)),
        (s - 8, 8, format_bit(7)),
        (8, s - 8, true),
        (8, s - 7, format_bit(6)),
        (8, s - 6, format_bit(5)),
        (8, s - 5, format_bit(4)),
        (8, s - 4, format_bit(3)),
        (8, s - 3, format_bit(2)),
        (8, s - 2, format_bit(1)),
        (8, s - 1, format_bit(0))
    ]
}

/// The writes of the function patterns drawn before the data: the three
/// finder patterns, the timing patterns and the alignment patterns.
pub open spec fn pattern_writes(index: nat) -> Seq<(int, int, bool)> {
    let size = symbol_size(index);
    let coords = alignment_table(index);
    finder_writes(0, 0, 49) + finder_writes(size - 7, 0, 49) + finder_writes(0, size - 7, 49)
        + timing_writes(size) + alignment_stage(size, coords, coords.len(), 0)
}

/// The writes of the whole symbol: the three finder patterns, the timing
/// patterns, the alignment patterns, the data and the format information.
pub open spec fn symbol_writes(message: Seq<u8>, index: nat) -> Seq<(int, int, bool)> {
    let size = symbol_size(index);
    let coords = alignment_table(index);
    finder_writes(0, 0, 49) + finder_writes(size - 7, 0, 49) + finder_writes(0, size - 7, 49)
        + timing_writes(size) + alignment_stage(size, coords, coords.len(), 0) + data_writes(
        message,
        data_positions(index),
    ) + format_writes(size)
}

/// The modules of the symbol of the version with the given index holding the
/// data codewords `data` followed by `padding`, row by row.
#[verifier::opaque]
pub open spec fn symbol(data: Seq<u8>, padding: Seq<u8>, index: nat) -> Seq<bool> {
    let size = symbol_size(index);
    apply_writes(
        Seq::new((size * size) as nat, |i: int| false),
        size,
        symbol_writes(message(data + padding, index), index),
    )
}

/// The writes `w` with coordinates as integers.
pub open spec fn int_writes(w: Seq<(usize, usize, bool)>) -> Seq<(int, int, bool)> {
    w.map_values(|e: (usize, usize, bool)| (e.0 as int, e.1 as int, e.2))
}

/// Applies the writes `writes` to the grid, in order.
fn draw(grid: &mut Grid, size: usize, writes: &Vec<(usize, usize, bool)>)
    requires
        forall|k: int|
            0 <= k < writes.len() ==> (#[trigger] writes@[k]).0 + size * writes@[k].1 < grid_bits(*old(grid)).len(),
    ensures
        grid_bits(*final(grid)) == apply_writes(grid_bits(*old(grid)), size as int, int_writes(writes@)),
        grid_bits(*final(grid)).len() == grid_bits(*old(grid)).len(),
{
    let ghost g0 = grid_bits(*grid);
    let mut k: usize = 0;
    while k < writes.len()
        invariant
            k <= writes.len(),
            forall|t: int| 0 <= t < writes.len() ==> (#[trigger] writes@[t]).0 + size * writes@[t].1 < g0.len(),
            grid_bits(*grid).len() == g0.len(),
            grid_bits(*grid) == apply_writes(g0, size as int, int_writes(writes@.take(k as int))),
        decreases writes.len() - k,
    {
        let (x, y, v) = writes[k];
        set_module(grid, size, x, y, v);
        proof {
            assert(int_writes(writes@.take(k + 1)) == int_writes(writes@.take(k as int)).push(
                (x as int, y as int, v),
            ));
            lemma_apply_writes_push(g0, size as int, int_writes(writes@.take(k as int)), (x as int, y as int, v));
        }
        k += 1;
    }
    assert(writes@.take(writes.len() as int) == writes@);
}

/// Lays out the data codewords `data` followed by `padding` in the symbol
/// of `version`, together with all function patterns, and returns its
/// modules row by row.
pub fn layout_data(data: &[u8], padding: &[u8], version: Version) -> (grid: Grid)
    requires
        data@.len() + padding@.len() == data_codewords_table()[version.index() as int],
    ensures
        grid_bits(grid) == symbol(data@, padding@, version.index()),
        grid_bits(grid).len() == symbol_size(version.index()) * symbol_size(version.index()),
{
    let mut buf: Vec<u8> = Vec::new();
    buf.extend_from_slice(data);
    buf.extend_from_slice(padding);
    assert(buf@ == data@ + padding@);

    let data = construct_message(buf.as_slice(), version);

    let size = version.size();
    let ghost index = version.index();
    let ghost g0 = Seq::new((size * size) as nat, |i: int| false);
    let ghost w = symbol_writes(data@, index);
    assert(size * size <= 177 * 177) by (nonlinear_arith)
        requires
            size <= 177,
    ;
    let mut grid = grid_new(size * size);
    assert(grid_bits(grid) == g0);

    proof {
        lemma_module_index_bound(size as int, 6, 6);
        lemma_module_index_bound(size as int, size - 1, 6);
        lemma_module_index_bound(size as int, 6, size - 1);
    }
    finder_pattern(&mut grid, size, 0, 0);
    finder_pattern(&mut grid, size, size - 7, 0);
    finder_pattern(&mut grid, size, 0, size - 7);
    proof {
        lemma_apply_writes_append(g0, size as int, finder_writes(0, 0, 49), finder_writes(size - 7, 0, 49));
        lemma_apply_writes_append(
            g0,
            size as int,
            finder_writes(0, 0, 49) + finder_writes(size - 7, 0, 49),
            finder_writes(0, size - 7, 49),
        );
    }
    let ghost w3 = finder_writes(0, 0, 49) + finder_writes(size - 7, 0, 49) + finder_writes(0, size - 7, 49);
    assert(grid_bits(grid) == apply_writes(g0, size as int, w3));

    let ghost g3 = grid_bits(grid);
    let mut i: usize = 8;
    while i < size - 8
        invariant
            size == symbol_size(index),
            index < VERSION_COUNT,
            8 <= i <= size - 8,
            grid_bits(grid).len() == size * size,
            grid_bits(grid) == apply_writes(g3, size as int, timing_writes(size as int).take(2 * (i - 8))),
        decreases size - 8 - i,
    {
        let ghost before = timing_writes(size as int).take(2 * (i - 8));
        proof {
            lemma_module_index_bound(size as int, i as int, 6);
            lemma_module_index_bound(size as int, 6, i as int);
        }
        set_module(&mut grid, size, i, 6, i % 2 == 0);
        set_module(&mut grid, size, 6, i, i % 2 == 0);
        proof {
            let tw = timing_writes(size as int);
            assert(tw[2 * (i - 8)] == (i as int, 6int, i % 2 == 0));
            assert(tw[2 * (i - 8) + 1] == (6int, i as int, i % 2 == 0));
            lemma_apply_writes_push(g3, size as int, before, (i as int, 6int, i % 2 == 0));
            lemma_apply_writes_push(g3, size as int, before.push((i as int, 6int, i % 2 == 0)), (6int, i as int, i % 2 == 0));
            assert(tw.take(2 * (i + 1 - 8)) == before.push((i as int, 6int, i % 2 == 0)).push((6int, i as int, i % 2 == 0)));
        }
        i += 1;
    }
    assert(timing_writes(size as int).take(2 * (size - 16)) == timing_writes(size as int));
    proof {
        lemma_apply_writes_append(g0, size as int, w3, timing_writes(size as int));
    }
    let ghost w4 = w3 + timing_writes(size as int);
    assert(grid_bits(grid) == apply_writes(g0, size as int, w4));

    let coords = version.alignment_pattern_coordinates();
    proof {
        lemma_alignment_table(index);
    }
    let ghost g4 = grid_bits(grid);
    let mut a: usize = 0;
    while a < coords.len()
        invariant
            size == symbol_size(index),
            index < VERSION_COUNT,
            coords@ == alignment_table(index),
            forall|t: int| 0 <= t < coords.len() ==> 6 <= #[trigger] coords@[t] && coords@[t] + 7 <= size,
            a <= coords.len(),
            grid_bits(grid).len() == size * size,
            grid_bits(grid) == apply_writes(g4, size as int, alignment_stage(size as int, coords@, a as nat, 0)),
        decreases coords.len() - a,
    {
        let mut b: usize = 0;
        while b < coords.len()
            invariant
                size == symbol_size(index),
                index < VERSION_COUNT,
                coords@ == alignment_table(index),
                forall|t: int| 0 <= t < coords.len() ==> 6 <= #[trigger] coords@[t] && coords@[t] + 7 <= size,
                a < coords.len(),
                b <= coords.len(),
                grid_bits(grid).len() == size * size,
                grid_bits(grid) == apply_writes(g4, size as int, alignment_stage(size as int, coords@, a as nat, b as nat)),
            decreases coords.len() - b,
        {
            let x = coords[a];
            let y = coords[b];
            let ghost prev = alignment_stage(size as int, coords@, a as nat, b as nat);
            if !(x < 9 && y < 9) && !(x < 9 && y > size - 9) && !(x > size - 9 && y < 9) {
                proof {
                    lemma_module_index_bound(size as int, x + 2, y + 2);
                }
                alignment_pattern(&mut grid, size, x, y);
                proof {
                    lemma_apply_writes_append(g4, size as int, prev, alignment_writes(x as int, y as int, 25));
                }
            } else {
                assert(prev + Seq::empty() == prev);
            }
            b += 1;
        }
        assert(alignment_stage(size as int, coords@, (a + 1) as nat, 0) == alignment_stage(size as int, coords@, a as nat, coords.len() as nat));
        a += 1;
    }
    proof {
        lemma_apply_writes_append(g0, size as int, w4, alignment_stage(size as int, coords@, coords.len() as nat, 0));
    }
    let ghost w5 = w4 + alignment_stage(size as int, coords@, coords.len() as nat, 0);
    assert(grid_bits(grid) == apply_writes(g0, size as int, w5));

    let positions = data_layout(version);
    proof {
        lemma_data_positions_in_grid(index);
    }
    let ghost g5 = grid_bits(grid);
    let ghost dw = data_writes(data@, positions@);
    let nbits = 8 * data.len();
    let mut k: usize = 0;
    while k < positions.len()
        invariant
            size == symbol_size(index),
            index < VERSION_COUNT,
            positions@ == data_positions(index),
            forall|p: int| 0 <= p < positions@.len() ==> (#[trigger] positions@[p]).0 < size && positions@[p].1 < size,
            nbits == 8 * data@.len(),
            8 * data@.len() <= max_bits(),
            dw == data_writes(data@, positions@),
            k <= positions.len(),
            grid_bits(grid).len() == size * size,
            grid_bits(grid) == apply_writes(g5, size as int, dw.take(if k <= nbits { k as int } else { nbits as int })),
        decreases positions.len() - k,
    {
        if k < nbits {
            let (x, y) = positions[k];
            let bit = get_byte_bit(data.as_slice(), k);
            // data mask 001 for now
            let mask = y % 2 == 0;
            proof {
                lemma_module_index_bound(size as int, x as int, y as int);
            }
            set_module(&mut grid, size, x, y, bit ^ mask);
            proof {
                assert(dw[k as int] == (x as int, y as int, bit ^ mask));
                lemma_apply_writes_push(g5, size as int, dw.take(k as int), dw[k as int]);
                assert(dw.take(k + 1) == dw.take(k as int).push(dw[k as int]));
            }
        }
        k += 1;
    }
    assert(dw.take(dw.len() as int) == dw);
    proof {
        lemma_apply_writes_append(g0, size as int, w5, dw);
    }

    let masked_format_information: [bool; 15] = [false, false, true, false, false, true, true, true, false, true, true, true, true, true, false];
    let format = vec![
        (8, 0, masked_format_information[14]),
        (8, 1, masked_format_information[13]),
        (8, 2, masked_format_information[12]),
        (8, 3, masked_format_information[11]),
        (8, 4, masked_format_information[10]),
        (8, 5, masked_format_information[9]),
        (8, 7, masked_format_information[8]),
        (8, 8, masked_format_information[7]),
        (7, 8, masked_format_information[6]),
        (5, 8, masked_format_information[5]),
        (4, 8, masked_format_information[4]),
        (3, 8, masked_format_information[3]),
        (2, 8, masked_format_information[2]),
        (1, 8, masked_format_information[1]),
        (0, 8, masked_format_information[0]),
        (size - 1, 8, masked_format_information[14]),
        (size - 2, 8, masked_format_information[13]),
        (size - 3, 8, masked_format_information[12]),
        (size - 4, 8, masked_format_information[11]),
        (size - 5, 8, masked_format_information[10]),
        (size - 6, 8, masked_format_information[9]),
        (size - 7, 8, masked_format_information[8]),
        (size - 8, 8, masked_format_information[7]),
        (8, size - 8, true),
        (8, size - 7, masked_format_information[6]),
        (8, size - 6, masked_format_information[5]),
        (8, size - 5, masked_format_information[4]),
        (8, size - 4, masked_format_information[3]),
        (8, size - 3, masked_format_information[2]),
        (8, size - 2, masked_format_information[1]),
        (8, size - 1, masked_format_information[0])
    ];
    assert forall|k: int| 0 <= k < format.len() implies (#[trigger] format@[k]).0 + size * format@[k].1 < size
        * size by {
        lemma_module_index_bound(size as int, format@[k].0 as int, format@[k].1 as int);
    }
    draw(&mut grid, size, &format);
    proof {
        assert(int_writes(format@) == format_writes(size as int));
        lemma_apply_writes_append(g0, size as int, w5 + dw, format_writes(size as int));
        reveal(symbol);
    }
    grid
}

/// Every write of `w` is to a module of the `size` by `size` grid.
pub open spec fn writes_in_grid(w: Seq<(int, int, bool)>, size: int) -> bool {
    forall|k: int| 0 <= k < w.len() ==> 0 <= (#[trigger] w[k]).0 < size && 0 <= w[k].1 < size
}

/// Writes within the grid keep its length and leave every module that none
/// of them names as it was.
pub proof fn lemma_apply_writes_untouched(g: Seq<bool>, size: int, w: Seq<(int, int, bool)>, x: int, y: int)
    requires
        g.len() == size * size,
        writes_in_grid(w, size),
        0 <= x < size,
        0 <= y < size,
        forall|k: int| 0 <= k < w.len() ==> (#[trigger] w[k]).0 != x || w[k].1 != y,
    ensures
        apply_writes(g, size, w).len() == g.len(),
        apply_writes(g, size, w)[module_index(size, x, y)] == g[module_index(size, x, y)],
    decreases w.len(),
{
    if w.len() > 0 {
        let (wx, wy, v) = w.last();
        assert(writes_in_grid(w.drop_last(), size)) by {
            assert forall|k: int| 0 <= k < w.drop_last().len() implies 0 <= (#[trigger] w.drop_last()[k]).0 < size
                && 0 <= w.drop_last()[k].1 < size by {
                assert(w.drop_last()[k] == w[k]);
            }
        }
        assert forall|k: int| 0 <= k < w.drop_last().len() implies (#[trigger] w.drop_last()[k]).0 != x
            || w.drop_last()[k].1 != y by {
            assert(w.drop_last()[k] == w[k]);
        }
        lemma_apply_writes_untouched(g, size, w.drop_last(), x, y);
        lemma_module_index_bound(size, wx, wy);
        lemma_module_index_bound(size, x, y);
        if module_index(size, wx, wy) == module_index(size, x, y) {
            lemma_cell_index_injective(size, 0, 0, wx, wy, x, y);
        }
    }
}

proof fn lemma_apply_writes_untouched_len(g: Seq<bool>, size: int, w: Seq<(int, int, bool)>)
    requires
        g.len() == size * size,
        writes_in_grid(w, size),
    ensures
        apply_writes(g, size, w).len() == g.len(),
    decreases w.len(),
{
    if w.len() > 0 {
        assert(writes_in_grid(w.drop_last(), size)) by {
            assert forall|k: int| 0 <= k < w.drop_last().len() implies 0 <= (#[trigger] w.drop_last()[k]).0 < size
                && 0 <= w.drop_last()[k].1 < size by {
                assert(w.drop_last()[k] == w[k]);
            }
        }
        lemma_apply_writes_untouched_len(g, size, w.drop_last());
        lemma_module_index_bound(size, w.last().0, w.last().1);
    }
}

/// The last of the writes `w.push(e)` sets the module it names.
proof fn lemma_apply_writes_last(g: Seq<bool>, size: int, w: Seq<(int, int, bool)>, e: (int, int, bool))
    requires
        g.len() == size * size,
        writes_in_grid(w, size),
        0 <= e.0 < size,
        0 <= e.1 < size,
    ensures
        apply_writes(g, size, w.push(e))[module_index(size, e.0, e.1)] == e.2,
{
    lemma_apply_writes_untouched_len(g, size, w);
    lemma_apply_writes_push(g, size, w, e);
    lemma_module_index_bound(size, e.0, e.1);
}

proof fn lemma_writes_in_grid_append(a: Seq<(int, int, bool)>, b: Seq<(int, int, bool)>, size: int)
    requires
        writes_in_grid(a, size),
        writes_in_grid(b, size),
    ensures
        writes_in_grid(a + b, size),
{
    assert forall|k: int| 0 <= k < (a + b).len() implies 0 <= (#[trigger] (a + b)[k]).0 < size && 0 <= (a
        + b)[k].1 < size by {
        if k < a.len() {
            assert((a + b)[k] == a[k]);
        } else {
            assert((a + b)[k] == b[k - a.len()]);
        }
    }
}

proof fn lemma_finder_writes_in_grid(x: int, y: int, c: nat, size: int)
    requires
        0 <= x,
        0 <= y,
        x + 7 <= size,
        y + 7 <= size,
        c <= 49,
    ensures
        writes_in_grid(finder_writes(x, y, c), size),
    decreases c,
{
    if c > 0 {
        lemma_finder_writes_in_grid(x, y, (c - 1) as nat, size);
        let prev = finder_writes(x, y, (c - 1) as nat);
        assert((c - 1) / 7 < 7 && (c - 1) % 7 < 7);
        assert forall|k: int| 0 <= k < finder_writes(x, y, c).len() implies 0 <= (#[trigger] finder_writes(x, y, c)[k]).0
            < size && 0 <= finder_writes(x, y, c)[k].1 < size by {
            if k < prev.len() {
                assert(finder_writes(x, y, c)[k] == prev[k]);
            }
        }
    }
}

proof fn lemma_alignment_writes_in_window(x: int, y: int, c: nat)
    requires
        c <= 25,
    ensures
        forall|k: int|
            0 <= k < alignment_writes(x, y, c).len() ==> within_two((#[trigger] alignment_writes(x, y, c)[k]).0, x)
                && within_two(alignment_writes(x, y, c)[k].1, y),
    decreases c,
{
    if c > 0 {
        lemma_alignment_writes_in_window(x, y, (c - 1) as nat);
        assert((c - 1) / 5 < 5 && (c - 1) % 5 < 5);
        let prev = alignment_writes(x, y, (c - 1) as nat);
        assert forall|k: int| 0 <= k < alignment_writes(x, y, c).len() implies within_two(
            (#[trigger] alignment_writes(x, y, c)[k]).0,
            x,
        ) && within_two(alignment_writes(x, y, c)[k].1, y) by {
            if k < prev.len() {
                assert(alignment_writes(x, y, c)[k] == prev[k]);
            }
        }
    }
}

/// Every write of the alignment stage lies within a drawn alignment pattern.
proof fn lemma_alignment_stage_in_patterns(index: nat, i: nat, j: nat)
    requires
        i <= alignment_table(index).len(),
        j <= alignment_table(index).len(),
        i == alignment_table(index).len() ==> j == 0,
    ensures
        forall|k: int|
            0 <= k < alignment_stage(symbol_size(index), alignment_table(index), i, j).len() ==> in_alignment_pattern(
                (#[trigger] alignment_stage(symbol_size(index), alignment_table(index), i, j)[k]).0,
                alignment_stage(symbol_size(index), alignment_table(index), i, j)[k].1,
                index,
            ),
    decreases i, j,
{
    let coords = alignment_table(index);
    let size = symbol_size(index);
    let w = alignment_stage(size, coords, i, j);
    if j == 0 {
        if i > 0 {
            lemma_alignment_stage_in_patterns(index, (i - 1) as nat, coords.len());
            assert(w == alignment_stage(size, coords, (i - 1) as nat, coords.len()));
        }
    } else {
        lemma_alignment_stage_in_patterns(index, i, (j - 1) as nat);
        let prev = alignment_stage(size, coords, i, (j - 1) as nat);
        let cx = coords[i as int] as int;
        let cy = coords[j - 1] as int;
        let extra = if alignment_kept(cx, cy, size) { alignment_writes(cx, cy, 25) } else { Seq::empty() };
        lemma_alignment_writes_in_window(cx, cy, 25);
        assert forall|k: int| 0 <= k < w.len() implies in_alignment_pattern((#[trigger] w[k]).0, w[k].1, index) by {
            if k < prev.len() {
                assert(w[k] == prev[k]);
            } else {
                assert(w[k] == extra[k - prev.len()]);
                assert(within_two(w[k].0, coords[i as int] as int) && within_two(w[k].1, coords[j - 1] as int));
            }
        }
    }
}

/// Every write that draws the symbol is to a module of the symbol.
proof fn lemma_symbol_writes_in_grid(message: Seq<u8>, index: nat)
    requires
        index < VERSION_COUNT,
    ensures
        writes_in_grid(symbol_writes(message, index), symbol_size(index)),
        writes_in_grid(pattern_writes(index), symbol_size(index)),
        writes_in_grid(data_writes(message, data_positions(index)), symbol_size(index)),
        writes_in_grid(format_writes(symbol_size(index)), symbol_size(index)),
        symbol_writes(message, index) == pattern_writes(index) + data_writes(message, data_positions(index))
            + format_writes(symbol_size(index)),
        writes_in_grid(
            finder_writes(0, 0, 49) + finder_writes(symbol_size(index) - 7, 0, 49) + finder_writes(
                0,
                symbol_size(index) - 7,
                49,
            ),
            symbol_size(index),
        ),
        writes_in_grid(timing_writes(symbol_size(index)), symbol_size(index)),
        writes_in_grid(
            alignment_stage(symbol_size(index), alignment_table(index), alignment_table(index).len(), 0),
            symbol_size(index),
        ),
{
    let size = symbol_size(index);
    let coords = alignment_table(index);
    let f1 = finder_writes(0, 0, 49);
    let f2 = finder_writes(size - 7, 0, 49);
    let f3 = finder_writes(0, size - 7, 49);
    let t = timing_writes(size);
    let a = alignment_stage(size, coords, coords.len(), 0);
    let d = data_writes(message, data_positions(index));
    let f = format_writes(size);
    lemma_finder_writes_in_grid(0, 0, 49, size);
    lemma_finder_writes_in_grid(size - 7, 0, 49, size);
    lemma_finder_writes_in_grid(0, size - 7, 49, size);
    assert(writes_in_grid(t, size));
    lemma_alignment_stage_in_patterns(index, coords.len(), 0);
    lemma_alignment_table(index);
    assert forall|k: int| 0 <= k < a.len() implies 0 <= (#[trigger] a[k]).0 < size && 0 <= a[k].1 < size by {
        assert(in_alignment_pattern(a[k].0, a[k].1, index));
        let (i, j) = choose|i: int, j: int|
            0 <= i < coords.len() && 0 <= j < coords.len() && alignment_kept(
                #[trigger] coords[i] as int,
                #[trigger] coords[j] as int,
                size,
            ) && within_two(a[k].0, coords[i] as int) && within_two(a[k].1, coords[j] as int);
    }
    lemma_data_positions_in_grid(index);
    assert forall|k: int| 0 <= k < d.len() implies 0 <= (#[trigger] d[k]).0 < size && 0 <= d[k].1 < size by {
        assert(d[k].0 == data_positions(index)[k].0 && d[k].1 == data_positions(index)[k].1);
    }
    assert(writes_in_grid(f, size));
    lemma_writes_in_grid_append(f1, f2, size);
    lemma_writes_in_grid_append(f1 + f2, f3, size);
    lemma_writes_in_grid_append(f1 + f2 + f3, t, size);
    lemma_writes_in_grid_append(f1 + f2 + f3 + t, a, size);
    lemma_writes_in_grid_append(f1 + f2 + f3 + t + a, d, size);
    lemma_writes_in_grid_append(f1 + f2 + f3 + t + a + d, f, size);
}

/// The grid after the function patterns, then after the data, then the
/// symbol after the format information; each of the size of the symbol.
proof fn lemma_symbol_stages(data: Seq<u8>, padding: Seq<u8>, index: nat)
    requires
        index < VERSION_COUNT,
    ensures
        ({
            let size = symbol_size(index);
            let m = message(data + padding, index);
            let g0 = Seq::new((size * size) as nat, |i: int| false);
            let gp = apply_writes(g0, size, pattern_writes(index));
            let gd = apply_writes(gp, size, data_writes(m, data_positions(index)));
            &&& gp.len() == size * size
            &&& gd.len() == size * size
            &&& symbol(data, padding, index) == apply_writes(gd, size, format_writes(size))
        }),
{
    let size = symbol_size(index);
    let m = message(data + padding, index);
    let g0 = Seq::new((size * size) as nat, |i: int| false);
    let p = pattern_writes(index);
    let d = data_writes(m, data_positions(index));
    let f = format_writes(size);
    lemma_symbol_writes_in_grid(m, index);
    reveal(symbol);
    lemma_apply_writes_append(g0, size, p + d, f);
    lemma_apply_writes_append(g0, size, p, d);
    lemma_apply_writes_untouched_len(g0, size, p);
    lemma_apply_writes_untouched_len(apply_writes(g0, size, p), size, d);
}

/// The dark module, at column 8 and row `size - 8`, is dark.
pub proof fn lemma_symbol_dark_module(data: Seq<u8>, padding: Seq<u8>, index: nat)
    requires
        index < VERSION_COUNT,
    ensures
        symbol(data, padding, index)[module_index(symbol_size(index), 8, symbol_size(index) - 8)],
{
    let size = symbol_size(index);
    let m = message(data + padding, index);
    let g0 = Seq::new((size * size) as nat, |i: int| false);
    let gp = apply_writes(g0, size, pattern_writes(index));
    let gd = apply_writes(gp, size, data_writes(m, data_positions(index)));
    let f = format_writes(size);
    lemma_symbol_stages(data, padding, index);
    assert(f.take(24) == f.take(23).push(f[23]));
    assert(f == f.take(24) + f.skip(24));
    lemma_apply_writes_append(gd, size, f.take(24), f.skip(24));
    assert(writes_in_grid(f.take(23), size));
    lemma_apply_writes_last(gd, size, f.take(23), f[23]);
    lemma_apply_writes_untouched_len(gd, size, f.take(24));
    assert(writes_in_grid(f.skip(24), size));
    lemma_apply_writes_untouched(apply_writes(gd, size, f.take(24)), size, f.skip(24), 8, size - 8);
}

/// The format information lies in row 8 and column 8, next to the finder
/// patterns: never on a data module nor on a timing pattern.
proof fn lemma_format_cells(size: int)
    requires
        size >= 21,
    ensures
        forall|k: int|
            0 <= k < format_writes(size).len() ==> {
                let (x, y, v) = #[trigger] format_writes(size)[k];
                &&& (x == 8 && (y <= 8 || y >= size - 8)) || (y == 8 && (x <= 8 || x >= size - 8))
                &&& x != 6 && y != 6
            },
{
    let f = format_writes(size);
    assert forall|k: int| 0 <= k < f.len() implies {
        let (x, y, v) = #[trigger] f[k];
        &&& (x == 8 && (y <= 8 || y >= size - 8)) || (y == 8 && (x <= 8 || x >= size - 8))
        &&& x != 6 && y != 6
    } by {
    }
}

/// Bit `k` of the message, masked, is in the `k`-th data position.
pub proof fn lemma_symbol_data_bit(data: Seq<u8>, padding: Seq<u8>, index: nat, k: int)
    requires
        index < VERSION_COUNT,
        data.len() + padding.len() == data_codewords_table()[index as int],
        0 <= k < 8 * message(data + padding, index).len(),
    ensures
        k < data_positions(index).len(),
        symbol(data, padding, index)[module_index(
            symbol_size(index),
            data_positions(index)[k].0 as int,
            data_positions(index)[k].1 as int,
        )] == (byte_bit(message(data + padding, index), k) != (data_positions(index)[k].1 % 2 == 0)),
{
    let size = symbol_size(index);
    let m = message(data + padding, index);
    let pos = data_positions(index);
    let g0 = Seq::new((size * size) as nat, |i: int| false);
    let gp = apply_writes(g0, size, pattern_writes(index));
    let d = data_writes(m, pos);
    let gd = apply_writes(gp, size, d);
    let f = format_writes(size);
    lemma_message_fits(data + padding, index);
    lemma_symbol_stages(data, padding, index);
    lemma_symbol_writes_in_grid(m, index);
    lemma_data_positions_in_grid(index);
    lemma_data_positions_distinct(index);
    let x = pos[k].0 as int;
    let y = pos[k].1 as int;
    assert(d.take(k + 1) == d.take(k).push(d[k]));
    assert(d == d.take(k + 1) + d.skip(k + 1));
    lemma_apply_writes_append(gp, size, d.take(k + 1), d.skip(k + 1));
    assert(writes_in_grid(d.take(k), size));
    lemma_apply_writes_last(gp, size, d.take(k), d[k]);
    lemma_apply_writes_untouched_len(gp, size, d.take(k + 1));
    assert(writes_in_grid(d.skip(k + 1), size));
    assert forall|t: int| 0 <= t < d.skip(k + 1).len() implies (#[trigger] d.skip(k + 1)[t]).0 != x
        || d.skip(k + 1)[t].1 != y by {
        assert(d.skip(k + 1)[t] == d[k + 1 + t]);
        assert(pos[k + 1 + t] != pos[k]);
    }
    lemma_apply_writes_untouched(apply_writes(gp, size, d.take(k + 1)), size, d.skip(k + 1), x, y);
    lemma_format_cells(size);
    assert(is_data_module(x, y, index));
    assert forall|t: int| 0 <= t < f.len() implies (#[trigger] f[t]).0 != x || f[t].1 != y by {
        let (fx, fy, v) = f[t];
    }
    lemma_apply_writes_untouched(gd, size, f, x, y);
}

/// Outside the alignment patterns, the timing patterns alternate dark and
/// light modules along row 6 and column 6, dark at even positions.
pub proof fn lemma_symbol_timing(data: Seq<u8>, padding: Seq<u8>, index: nat, i: int)
    requires
        index < VERSION_COUNT,
        8 <= i < symbol_size(index) - 8,
    ensures
        !in_alignment_pattern(i, 6, index) ==> symbol(data, padding, index)[module_index(symbol_size(index), i, 6)]
            == (i % 2 == 0),
        !in_alignment_pattern(6, i, index) ==> symbol(data, padding, index)[module_index(symbol_size(index), 6, i)]
            == (i % 2 == 0),
{
    if !in_alignment_pattern(i, 6, index) {
        lemma_symbol_timing_module(data, padding, index, i, true);
    }
    if !in_alignment_pattern(6, i, index) {
        lemma_symbol_timing_module(data, padding, index, i, false);
    }
}

proof fn lemma_symbol_timing_module(data: Seq<u8>, padding: Seq<u8>, index: nat, i: int, in_row: bool)
    requires
        index < VERSION_COUNT,
        8 <= i < symbol_size(index) - 8,
        !in_alignment_pattern(if in_row { i } else { 6 }, if in_row { 6 } else { i }, index),
    ensures
        symbol(data, padding, index)[module_index(
            symbol_size(index),
            if in_row { i } else { 6 },
            if in_row { 6 } else { i },
        )] == (i % 2 == 0),
{
    let size = symbol_size(index);
    let coords = alignment_table(index);
    let m = message(data + padding, index);
    let x = if in_row { i } else { 6 };
    let y = if in_row { 6 } else { i };
    let g0 = Seq::new((size * size) as nat, |j: int| false);
    let fw = finder_writes(0, 0, 49) + finder_writes(size - 7, 0, 49) + finder_writes(0, size - 7, 49);
    let t = timing_writes(size);
    let a = alignment_stage(size, coords, coords.len(), 0);
    let d = data_writes(m, data_positions(index));
    let f = format_writes(size);
    let gf = apply_writes(g0, size, fw);
    let gp = apply_writes(g0, size, pattern_writes(index));
    let gd = apply_writes(gp, size, d);
    lemma_symbol_stages(data, padding, index);
    lemma_symbol_writes_in_grid(m, index);
    lemma_apply_writes_untouched_len(g0, size, fw);
    // the timing write of this module, and no later timing write to it
    let c = if in_row { 2 * (i - 8) } else { 2 * (i - 8) + 1 };
    assert(t[c] == (x, y, i % 2 == 0));
    assert(t.take(c + 1) == t.take(c).push(t[c]));
    assert(t == t.take(c + 1) + t.skip(c + 1));
    lemma_apply_writes_append(gf, size, t.take(c + 1), t.skip(c + 1));
    assert(writes_in_grid(t.take(c), size));
    lemma_apply_writes_last(gf, size, t.take(c), t[c]);
    lemma_apply_writes_untouched_len(gf, size, t.take(c + 1));
    assert(writes_in_grid(t.skip(c + 1), size));
    assert forall|u: int| 0 <= u < t.skip(c + 1).len() implies (#[trigger] t.skip(c + 1)[u]).0 != x
        || t.skip(c + 1)[u].1 != y by {
        assert(t.skip(c + 1)[u] == t[c + 1 + u]);
    }
    lemma_apply_writes_untouched(apply_writes(gf, size, t.take(c + 1)), size, t.skip(c + 1), x, y);
    lemma_apply_writes_append(g0, size, fw, t);
    // the alignment patterns leave it alone
    let gt = apply_writes(g0, size, fw + t);
    lemma_apply_writes_append(g0, size, fw + t, a);
    lemma_writes_in_grid_append(fw, t, size);
    lemma_apply_writes_untouched_len(g0, size, fw + t);
    lemma_alignment_stage_in_patterns(index, coords.len(), 0);
    assert forall|u: int| 0 <= u < a.len() implies (#[trigger] a[u]).0 != x || a[u].1 != y by {}
    lemma_apply_writes_untouched(gt, size, a, x, y);
    // and so do the data and the format information
    lemma_data_positions_in_grid(index);
    assert forall|u: int| 0 <= u < d.len() implies (#[trigger] d[u]).0 != x || d[u].1 != y by {
        assert(is_data_module(data_positions(index)[u].0 as int, data_positions(index)[u].1 as int, index));
    }
    lemma_apply_writes_untouched(gp, size, d, x, y);
    lemma_format_cells(size);
    assert forall|u: int| 0 <= u < f.len() implies (#[trigger] f[u]).0 != x || f[u].1 != y by {
        let (fx, fy, v) = f[u];
    }
    lemma_apply_writes_untouched(gd, size, f, x, y);
}

/// Whether `(x, y)` lies in the 7 by 7 square with top left corner
/// `(ox, oy)`.
pub open spec fn in_square(ox: int, oy: int, x: int, y: int) -> bool {
    0 <= x - ox < 7 && 0 <= y - oy < 7
}

/// After the first `c` modules of a finder pattern are drawn, a module of
/// its square among them is dark where the pattern is dark; every other
/// module is as it was.
proof fn lemma_finder_writes_value(g: Seq<bool>, size: int, ox: int, oy: int, c: nat, x: int, y: int)
    requires
        g.len() == size * size,
        0 <= ox,
        0 <= oy,
        ox + 7 <= size,
        oy + 7 <= size,
        c <= 49,
        0 <= x < size,
        0 <= y < size,
    ensures
        apply_writes(g, size, finder_writes(ox, oy, c))[module_index(size, x, y)] == if in_square(ox, oy, x, y) && 7 * (y
            - oy) + (x - ox) < c && finder_module(x - ox, y - oy) {
            true
        } else {
            g[module_index(size, x, y)]
        },
    decreases c,
{
    if c > 0 {
        let c1 = (c - 1) as nat;
        lemma_finder_writes_value(g, size, ox, oy, c1, x, y);
        let dx = (c1 % 7) as int;
        let dy = (c1 / 7) as int;
        let prev = finder_writes(ox, oy, c1);
        lemma_finder_writes_in_grid(ox, oy, c1, size);
        if finder_module(dx, dy) {
            let e = (ox + dx, oy + dy, true);
            lemma_apply_writes_push(g, size, prev, e);
            lemma_apply_writes_untouched_len(g, size, prev);
            lemma_module_index_bound(size, ox + dx, oy + dy);
            lemma_module_index_bound(size, x, y);
            if module_index(size, x, y) == module_index(size, ox + dx, oy + dy) {
                lemma_cell_index_injective(size, 0, 0, x, y, ox + dx, oy + dy);
            } else if in_square(ox, oy, x, y) && 7 * (y - oy) + (x - ox) == c1 {
                assert(x - ox == dx && y - oy == dy);
            }
        } else if in_square(ox, oy, x, y) && 7 * (y - oy) + (x - ox) == c1 {
            assert(x - ox == dx && y - oy == dy);
        }
    }
}

/// The three finder patterns, each with its top left corner at `(ox, oy)`.
pub open spec fn is_finder_origin(size: int, ox: int, oy: int) -> bool {
    (ox == 0 && oy == 0) || (ox == size - 7 && oy == 0) || (ox == 0 && oy == size - 7)
}

/// A module outside the timing patterns, the alignment patterns, the data
/// modules and the format information keeps the value the finder patterns
/// give it.
proof fn lemma_symbol_after_finders(data: Seq<u8>, padding: Seq<u8>, index: nat, x: int, y: int)
    requires
        index < VERSION_COUNT,
        0 <= x < symbol_size(index),
        0 <= y < symbol_size(index),
        !(y == 6 && 8 <= x < symbol_size(index) - 8),
        !(x == 6 && 8 <= y < symbol_size(index) - 8),
        !in_alignment_pattern(x, y, index),
        !is_data_module(x, y, index),
        !((x == 8 && (y <= 8 || y >= symbol_size(index) - 8)) || (y == 8 && (x <= 8 || x >= symbol_size(index) - 8))),
    ensures
        ({
            let size = symbol_size(index);
            let g0 = Seq::new((size * size) as nat, |j: int| false);
            let fw = finder_writes(0, 0, 49) + finder_writes(size - 7, 0, 49) + finder_writes(0, size - 7, 49);
            symbol(data, padding, index)[module_index(size, x, y)] == apply_writes(g0, size, fw)[module_index(size, x, y)]
        }),
{
    let size = symbol_size(index);
    let coords = alignment_table(index);
    let m = message(data + padding, index);
    let g0 = Seq::new((size * size) as nat, |j: int| false);
    let fw = finder_writes(0, 0, 49) + finder_writes(size - 7, 0, 49) + finder_writes(0, size - 7, 49);
    let t = timing_writes(size);
    let a = alignment_stage(size, coords, coords.len(), 0);
    let d = data_writes(m, data_positions(index));
    let f = format_writes(size);
    let gf = apply_writes(g0, size, fw);
    let gp = apply_writes(g0, size, pattern_writes(index));
    let gd = apply_writes(gp, size, d);
    lemma_symbol_stages(data, padding, index);
    lemma_symbol_writes_in_grid(m, index);
    lemma_apply_writes_untouched_len(g0, size, fw);
    lemma_apply_writes_untouched(gf, size, t, x, y);
    lemma_apply_writes_append(g0, size, fw, t);
    lemma_writes_in_grid_append(fw, t, size);
    lemma_apply_writes_untouched_len(g0, size, fw + t);
    lemma_apply_writes_append(g0, size, fw + t, a);
    lemma_alignment_stage_in_patterns(index, coords.len(), 0);
    assert forall|u: int| 0 <= u < a.len() implies (#[trigger] a[u]).0 != x || a[u].1 != y by {}
    lemma_apply_writes_untouched(apply_writes(g0, size, fw + t), size, a, x, y);
    lemma_data_positions_in_grid(index);
    assert forall|u: int| 0 <= u < d.len() implies (#[trigger] d[u]).0 != x || d[u].1 != y by {
        assert(is_data_module(data_positions(index)[u].0 as int, data_positions(index)[u].1 as int, index));
    }
    lemma_apply_writes_untouched(gp, size, d, x, y);
    lemma_format_cells(size);
    assert forall|u: int| 0 <= u < f.len() implies (#[trigger] f[u]).0 != x || f[u].1 != y by {
        let (fx, fy, v) = f[u];
    }
    lemma_apply_writes_untouched(gd, size, f, x, y);
}

/// No drawn alignment pattern reaches into the corners of the symbol where
/// the finder patterns and their separators lie.
proof fn lemma_corners_free_of_alignment(index: nat, x: int, y: int)
    requires
        index < VERSION_COUNT,
        (x <= 7 && y <= 7) || (x >= symbol_size(index) - 8 && y <= 7) || (x <= 7 && y >= symbol_size(index) - 8),
    ensures
        !in_alignment_pattern(x, y, index),
{
    let size = symbol_size(index);
    let coords = alignment_table(index);
    if in_alignment_pattern(x, y, index) {
        let (i, j) = choose|i: int, j: int|
            0 <= i < coords.len() && 0 <= j < coords.len() && alignment_kept(
                #[trigger] coords[i] as int,
                #[trigger] coords[j] as int,
                size,
            ) && within_two(x, coords[i] as int) && within_two(y, coords[j] as int);
        lemma_coords_shaped(index);
        lemma_coord_bounds(coords, size, i);
        lemma_coord_bounds(coords, size, j);
    }
}

/// Each finder pattern is drawn in its corner: dark on its outer ring and
/// its 3 by 3 centre, light in between.
pub proof fn lemma_symbol_finder(data: Seq<u8>, padding: Seq<u8>, index: nat, ox: int, oy: int, i: int, j: int)
    requires
        index < VERSION_COUNT,
        is_finder_origin(symbol_size(index), ox, oy),
        0 <= i < 7,
        0 <= j < 7,
    ensures
        symbol(data, padding, index)[module_index(symbol_size(index), ox + i, oy + j)] == finder_module(i, j),
{
    let size = symbol_size(index);
    let x = ox + i;
    let y = oy + j;
    let g0 = Seq::new((size * size) as nat, |k: int| false);
    let f1 = finder_writes(0, 0, 49);
    let f2 = finder_writes(size - 7, 0, 49);
    let f3 = finder_writes(0, size - 7, 49);
    {
        lemma_corners_free_of_alignment(index, x, y);
        lemma_symbol_after_finders(data, padding, index, x, y);
        lemma_finder_writes_value(g0, size, 0, 0, 49, x, y);
        lemma_finder_writes_in_grid(0, 0, 49, size);
        lemma_finder_writes_in_grid(size - 7, 0, 49, size);
        lemma_finder_writes_in_grid(0, size - 7, 49, size);
        let g1 = apply_writes(g0, size, f1);
        lemma_apply_writes_untouched_len(g0, size, f1);
        lemma_apply_writes_append(g0, size, f1, f2);
        lemma_finder_writes_value(g1, size, size - 7, 0, 49, x, y);
        let g2 = apply_writes(g1, size, f2);
        lemma_apply_writes_untouched_len(g1, size, f2);
        lemma_apply_writes_append(g0, size, f1 + f2, f3);
        lemma_finder_writes_value(g2, size, 0, size - 7, 49, x, y);
        lemma_module_index_bound(size, x, y);
        assert(g0[module_index(size, x, y)] == false);
        assert(apply_writes(g0, size, f1 + f2 + f3) == apply_writes(g2, size, f3));
    }
}

/// Whether `(x, y)` lies on the light separator around one of the finder
/// patterns of a symbol of width `size`.
pub open spec fn is_separator(size: int, x: int, y: int) -> bool {
    ||| (x == 7 && 0 <= y <= 7) || (y == 7 && 0 <= x <= 7)
    ||| (x == size - 8 && 0 <= y <= 7) || (y == 7 && size - 8 <= x < size)
    ||| (x == 7 && size - 8 <= y < size) || (y == size - 8 && 0 <= x <= 7)
}

/// The separators around the finder patterns are light.
pub proof fn lemma_symbol_separator(data: Seq<u8>, padding: Seq<u8>, index: nat, x: int, y: int)
    requires
        index < VERSION_COUNT,
        is_separator(symbol_size(index), x, y),
    ensures
        !symbol(data, padding, index)[module_index(symbol_size(index), x, y)],
{
    let size = symbol_size(index);
    let g0 = Seq::new((size * size) as nat, |k: int| false);
    let f1 = finder_writes(0, 0, 49);
    let f2 = finder_writes(size - 7, 0, 49);
    let f3 = finder_writes(0, size - 7, 49);
    lemma_corners_free_of_alignment(index, x, y);
    lemma_symbol_after_finders(data, padding, index, x, y);
    lemma_finder_writes_value(g0, size, 0, 0, 49, x, y);
    lemma_finder_writes_in_grid(0, 0, 49, size);
    lemma_finder_writes_in_grid(size - 7, 0, 49, size);
    lemma_finder_writes_in_grid(0, size - 7, 49, size);
    let g1 = apply_writes(g0, size, f1);
    lemma_apply_writes_untouched_len(g0, size, f1);
    lemma_apply_writes_append(g0, size, f1, f2);
    lemma_finder_writes_value(g1, size, size - 7, 0, 49, x, y);
    let g2 = apply_writes(g1, size, f2);
    lemma_apply_writes_untouched_len(g1, size, f2);
    lemma_apply_writes_append(g0, size, f1 + f2, f3);
    lemma_finder_writes_value(g2, size, 0, size - 7, 49, x, y);
    lemma_module_index_bound(size, x, y);
    assert(g0[module_index(size, x, y)] == false);
    assert(apply_writes(g0, size, f1 + f2 + f3) == apply_writes(g2, size, f3));
}

/// The modules of the format information are distinct.
proof fn lemma_format_cells_distinct(size: int)
    requires
        size >= 21,
    ensures
        forall|k: int, l: int|
            0 <= k < l < format_writes(size).len() ==> (#[trigger] format_writes(size)[k]).0 != (
            #[trigger] format_writes(size)[l]).0 || format_writes(size)[k].1 != format_writes(size)[l].1,
{
}

/// Each bit of the format information is in its place in the symbol.
pub proof fn lemma_symbol_format_bit(data: Seq<u8>, padding: Seq<u8>, index: nat, k: int)
    requires
        index < VERSION_COUNT,
        0 <= k < format_writes(symbol_size(index)).len(),
    ensures
        symbol(data, padding, index)[module_index(
            symbol_size(index),
            format_writes(symbol_size(index))[k].0,
            format_writes(symbol_size(index))[k].1,
        )] == format_writes(symbol_size(index))[k].2,
{
    let size = symbol_size(index);
    let m = message(data + padding, index);
    let g0 = Seq::new((size * size) as nat, |i: int| false);
    let gp = apply_writes(g0, size, pattern_writes(index));
    let gd = apply_writes(gp, size, data_writes(m, data_positions(index)));
    let f = format_writes(size);
    let (x, y, v) = f[k];
    lemma_symbol_stages(data, padding, index);
    lemma_symbol_writes_in_grid(m, index);
    lemma_format_cells_distinct(size);
    assert(f.take(k + 1) == f.take(k).push(f[k]));
    assert(f == f.take(k + 1) + f.skip(k + 1));
    lemma_apply_writes_append(gd, size, f.take(k + 1), f.skip(k + 1));
    assert(writes_in_grid(f.take(k), size));
    lemma_apply_writes_last(gd, size, f.take(k), f[k]);
    lemma_apply_writes_untouched_len(gd, size, f.take(k + 1));
    assert(writes_in_grid(f.skip(k + 1), size));
    assert forall|u: int| 0 <= u < f.skip(k + 1).len() implies (#[trigger] f.skip(k + 1)[u]).0 != x
        || f.skip(k + 1)[u].1 != y by {
        assert(f.skip(k + 1)[u] == f[k + 1 + u]);
    }
    lemma_apply_writes_untouched(apply_writes(gd, size, f.take(k + 1)), size, f.skip(k + 1), x, y);
}

/// After the first `c` modules of an alignment pattern centred at `(x, y)`
/// are drawn, those modules hold the pattern and every other module is as it
/// was.
proof fn lemma_alignment_writes_value(g: Seq<bool>, size: int, x: int, y: int, c: nat, px: int, py: int)
    requires
        g.len() == size * size,
        2 <= x,
        2 <= y,
        x + 2 < size,
        y + 2 < size,
        c <= 25,
        0 <= px < size,
        0 <= py < size,
    ensures
        apply_writes(g, size, alignment_writes(x, y, c))[module_index(size, px, py)] == if within_two(px, x)
            && within_two(py, y) && 5 * (py - y + 2) + (px - x + 2) < c {
            alignment_module(px - x + 2, py - y + 2)
        } else {
            g[module_index(size, px, py)]
        },
        apply_writes(g, size, alignment_writes(x, y, c)).len() == g.len(),
    decreases c,
{
    lemma_alignment_writes_in_window(x, y, c);
    assert(writes_in_grid(alignment_writes(x, y, c), size));
    lemma_apply_writes_untouched_len(g, size, alignment_writes(x, y, c));
    if c > 0 {
        let c1 = (c - 1) as nat;
        lemma_alignment_writes_value(g, size, x, y, c1, px, py);
        let dx = (c1 % 5) as int;
        let dy = (c1 / 5) as int;
        let prev = alignment_writes(x, y, c1);
        let e = (x - 2 + dx, y - 2 + dy, alignment_module(dx, dy));
        lemma_alignment_writes_in_window(x, y, c1);
        lemma_apply_writes_push(g, size, prev, e);
        lemma_apply_writes_untouched_len(g, size, prev);
        lemma_module_index_bound(size, x - 2 + dx, y - 2 + dy);
        lemma_module_index_bound(size, px, py);
        if module_index(size, px, py) == module_index(size, x - 2 + dx, y - 2 + dy) {
            lemma_cell_index_injective(size, 0, 0, px, py, x - 2 + dx, y - 2 + dy);
        } else if within_two(px, x) && within_two(py, y) && 5 * (py - y + 2) + (px - x + 2) == c1 {
            assert(px - x + 2 == dx && py - y + 2 == dy);
        }
    }
}

/// Whether alignment coordinates `a` and `c` of the version come before the
/// pair `(i, j)` in the order the patterns are drawn: column coordinate
/// first, then row coordinate.
spec fn drawn_before(a: int, c: int, i: int, j: int) -> bool {
    a < i || (a == i && c < j)
}

/// Drawing the alignment patterns up to the pair `(i, j)` leaves, in the
/// window of a drawn pair `(a, c)`, the pattern if that pair came before
/// and the old value otherwise.
proof fn lemma_alignment_stage_value(g: Seq<bool>, index: nat, i: nat, j: nat, a: int, c: int, px: int, py: int)
    requires
        index < VERSION_COUNT,
        g.len() == symbol_size(index) * symbol_size(index),
        i <= alignment_table(index).len(),
        j <= alignment_table(index).len(),
        i == alignment_table(index).len() ==> j == 0,
        0 <= a < alignment_table(index).len(),
        0 <= c < alignment_table(index).len(),
        alignment_kept(alignment_table(index)[a] as int, alignment_table(index)[c] as int, symbol_size(index)),
        within_two(px, alignment_table(index)[a] as int),
        within_two(py, alignment_table(index)[c] as int),
    ensures
        ({
            let size = symbol_size(index);
            let coords = alignment_table(index);
            let w = apply_writes(g, size, alignment_stage(size, coords, i, j));
            &&& w.len() == g.len()
            &&& w[module_index(size, px, py)] == if drawn_before(a, c, i as int, j as int) {
                alignment_module(px - coords[a] + 2, py - coords[c] + 2)
            } else {
                g[module_index(size, px, py)]
            }
        }),
    decreases i, j,
{
    let size = symbol_size(index);
    let coords = alignment_table(index);
    let n = coords.len();
    lemma_coords_shaped(index);
    lemma_alignment_table(index);
    if j == 0 {
        if i > 0 {
            lemma_alignment_stage_value(g, index, (i - 1) as nat, n, a, c, px, py);
            assert(alignment_stage(size, coords, i, 0) == alignment_stage(size, coords, (i - 1) as nat, n));
        }
    } else {
        lemma_alignment_stage_value(g, index, i, (j - 1) as nat, a, c, px, py);
        let prev = alignment_stage(size, coords, i, (j - 1) as nat);
        let gw = apply_writes(g, size, prev);
        let cx = coords[i as int] as int;
        let cy = coords[j - 1] as int;
        lemma_apply_writes_append(
            g,
            size,
            prev,
            if alignment_kept(cx, cy, size) { alignment_writes(cx, cy, 25) } else { Seq::empty() },
        );
        if alignment_kept(cx, cy, size) {
            lemma_alignment_writes_value(gw, size, cx, cy, 25, px, py);
            if within_two(px, cx) && within_two(py, cy) {
                lemma_window_unique(coords, size, i as int, a, px);
                lemma_window_unique(coords, size, j - 1, c, py);
            }
        } else {
            assert(apply_writes(gw, size, Seq::empty()) == gw);
            if i == a && j - 1 == c {
                assert(false);
            }
        }
    }
}

/// Every drawn alignment pattern is in the symbol: for every pair of
/// alignment coordinates `(cx, cy)` except the three that would overlap a
/// finder pattern, the modules around `(cx, cy)` are dark on the outer ring
/// of the 5 by 5 square and at its centre, and light on the ring between.
pub proof fn lemma_symbol_alignment(data: Seq<u8>, padding: Seq<u8>, index: nat, a: int, c: int, dx: int, dy: int)
    requires
        index < VERSION_COUNT,
        0 <= a < alignment_table(index).len(),
        0 <= c < alignment_table(index).len(),
        ({
            let cx = alignment_table(index)[a];
            let cy = alignment_table(index)[c];
            let size = symbol_size(index);
            !((cx <= 8 && cy <= 8) || (cx >= size - 8 && cy <= 8) || (cx <= 8 && cy >= size - 8))
        }),
        -2 <= dx <= 2,
        -2 <= dy <= 2,
    ensures
        symbol(data, padding, index)[module_index(
            symbol_size(index),
            alignment_table(index)[a] + dx,
            alignment_table(index)[c] + dy,
        )] == (dx == -2 || dx == 2 || dy == -2 || dy == 2 || (dx == 0 && dy == 0)),
{
    let size = symbol_size(index);
    let coords = alignment_table(index);
    let cx = coords[a] as int;
    let cy = coords[c] as int;
    let px = cx + dx;
    let py = cy + dy;
    let m = message(data + padding, index);
    let g0 = Seq::new((size * size) as nat, |k: int| false);
    let fw = finder_writes(0, 0, 49) + finder_writes(size - 7, 0, 49) + finder_writes(0, size - 7, 49);
    let t = timing_writes(size);
    let st = alignment_stage(size, coords, coords.len(), 0);
    let d = data_writes(m, data_positions(index));
    let f = format_writes(size);
    let gp = apply_writes(g0, size, pattern_writes(index));
    let gd = apply_writes(gp, size, d);
    lemma_coords_shaped(index);
    lemma_coord_bounds(coords, size, a);
    lemma_coord_bounds(coords, size, c);
    lemma_symbol_stages(data, padding, index);
    lemma_symbol_writes_in_grid(m, index);
    // the alignment patterns
    lemma_writes_in_grid_append(fw, t, size);
    lemma_apply_writes_untouched_len(g0, size, fw + t);
    lemma_apply_writes_append(g0, size, fw + t, st);
    lemma_alignment_stage_value(apply_writes(g0, size, fw + t), index, coords.len(), 0, a, c, px, py);
    // the data and the format information leave them alone
    assert(in_alignment_pattern(px, py, index));
    lemma_data_positions_in_grid(index);
    assert forall|u: int| 0 <= u < d.len() implies (#[trigger] d[u]).0 != px || d[u].1 != py by {
        assert(is_data_module(data_positions(index)[u].0 as int, data_positions(index)[u].1 as int, index));
    }
    lemma_apply_writes_untouched(gp, size, d, px, py);
    lemma_format_cells(size);
    assert forall|u: int| 0 <= u < f.len() implies (#[trigger] f[u]).0 != px || f[u].1 != py by {
        let (fx, fy, v) = f[u];
    }
    lemma_apply_writes_untouched(gd, size, f, px, py);
}

} // verus!
