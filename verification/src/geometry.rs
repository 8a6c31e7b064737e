//! Pure arithmetic of a square grid of side `base * base`, cut into rows,
//! columns and `base`-by-`base` blocks.

use vstd::prelude::*;
use vstd::arithmetic::div_mod::{
    lemma_fundamental_div_mod,
    lemma_fundamental_div_mod_converse,
    lemma_div_pos_is_pos,
    lemma_mod_pos_bound,
};

verus! {

/// The three kinds of group whose cells must hold distinct values.
#[derive(Clone, Copy, Debug, PartialEq, Eq, Structural)]
pub enum House {
    Row,
    Column,
    Block,
}

/// `r` is the integer square root of `n`, rounded down.
pub open spec fn is_floor_sqrt(n: int, r: int) -> bool {
    0 <= r && r * r <= n < (r + 1) * (r + 1)
}

/// The integer square root of `n`, rounded down.
pub open spec fn floor_sqrt(n: int) -> int {
    choose|r: int| is_floor_sqrt(n, r)
}

/// A number has at most one rounded-down square root.
pub proof fn lemma_floor_sqrt_unique(n: int, r: int)
    requires
        is_floor_sqrt(n, r),
    ensures
        floor_sqrt(n) == r,
{
    let s = floor_sqrt(n);
    assert(is_floor_sqrt(n, s));
    if s < r {
        assert((s + 1) * (s + 1) <= r * r) by (nonlinear_arith)
            requires
                0 <= s,
                s + 1 <= r,
        ;
    }
    if r < s {
        assert((r + 1) * (r + 1) <= s * s) by (nonlinear_arith)
            requires
                0 <= r,
                r + 1 <= s,
        ;
    }
}

/// Every number from zero on has a rounded-down square root.
pub proof fn lemma_floor_sqrt_exists(n: int)
    requires
        0 <= n,
    ensures
        is_floor_sqrt(n, floor_sqrt(n)),
    decreases n,
{
    if n == 0 {
        assert(is_floor_sqrt(0, 0));
    } else {
        lemma_floor_sqrt_exists(n - 1);
        let r = floor_sqrt(n - 1);
        if (r + 1) * (r + 1) <= n {
            assert(n < (r + 2) * (r + 2)) by (nonlinear_arith)
                requires
                    n - 1 < (r + 1) * (r + 1),
                    0 <= r,
            ;
            assert(is_floor_sqrt(n, r + 1));
        } else {
            assert(is_floor_sqrt(n, r));
        }
    }
}

/// The square root of a perfect square is its root.
pub proof fn lemma_floor_sqrt_of_square(r: int)
    requires
        0 <= r,
    ensures
        floor_sqrt(r * r) == r,
{
    assert(r * r < (r + 1) * (r + 1)) by (nonlinear_arith)
        requires
            0 <= r,
    ;
    lemma_floor_sqrt_unique(r * r, r);
}

/// Integer square root, rounded down.
pub fn isqrt(n: usize) -> (r: usize)
    ensures
        is_floor_sqrt(n as int, r as int),
        r as int == floor_sqrt(n as int),
{
    let mut low: usize = 0;
    let mut high: usize = n;
    proof {
        assert(n < (n + 1) * (n + 1)) by (nonlinear_arith)
            requires
                n >= 0,
        ;
    }
    while low < high
        invariant
            low <= high <= n,
            low * low <= n,
            n < (high + 1) * (high + 1),
        decreases high - low,
    {
        let gap = high - low;
        let mid = low + gap / 2 + gap % 2;
        proof {
            let d = mid as int;
            lemma_fundamental_div_mod(n as int, d);
            lemma_mod_pos_bound(n as int, d);
            if d <= n as int / d {
                assert(d * d <= d * (n as int / d)) by (nonlinear_arith)
                    requires
                        d <= n as int / d,
                        d > 0,
                ;
            } else {
                assert(d * (n as int / d) + d <= d * d) by (nonlinear_arith)
                    requires
                        n as int / d + 1 <= d,
                        d > 0,
                ;
            }
        }
        if mid <= n / mid {
            low = mid;
        } else {
            high = mid - 1;
        }
    }
    proof {
        lemma_floor_sqrt_unique(n as int, low as int);
    }
    low
}

/// The house of kind `h` that cell `i` lies in, on a grid of block size `base`.
pub open spec fn house_of(base: int, h: House, i: int) -> int {
    let side = base * base;
    match h {
        House::Row => i / side,
        House::Column => i % side,
        House::Block => base * ((i / side) / base) + (i % side) / base,
    }
}

/// The place of cell `i` within its house of kind `h`, counted row-major.
pub open spec fn slot_of(base: int, h: House, i: int) -> int {
    let side = base * base;
    match h {
        House::Row => i % side,
        House::Column => i / side,
        House::Block => base * ((i / side) % base) + (i % side) % base,
    }
}

/// The index of the `k`-th cell of block number `n`, for blocks of side
/// `base` on a grid of `width` columns: the blocks are counted row by row,
/// and so are the cells of a block.
pub open spec fn block_index(width: int, base: int, n: int, k: int) -> int {
    width * (base * (n / base) + k / base) + (base * (n % base) + k % base)
}

/// The index of the `k`-th cell of house number `n` of kind `h`.
pub open spec fn house_cell(base: int, h: House, n: int, k: int) -> int {
    let side = base * base;
    match h {
        House::Row => side * n + k,
        House::Column => side * k + n,
        House::Block => block_index(side, base, n, k),
    }
}

/// The indices of the cells of house number `n` of kind `h`, in order.
pub open spec fn house_cells(base: int, h: House, n: int) -> Seq<int> {
    Seq::new((base * base) as nat, |k: int| house_cell(base, h, n, k))
}

/// A list of cell indices, as mathematical integers.
pub open spec fn as_ints(cells: Seq<usize>) -> Seq<int> {
    cells.map_values(|p: usize| p as int)
}

/// Two numbers below `base * base`, split by `base`, recombine below `base * base`.
proof fn lemma_mix_digits(base: int, hi: int, lo: int)
    requires
        base > 0,
        0 <= hi < base,
        0 <= lo < base,
    ensures
        0 <= base * hi + lo < base * base,
        (base * hi + lo) / base == hi,
        (base * hi + lo) % base == lo,
{
    assert(base * hi + lo < base * base) by (nonlinear_arith)
        requires
            hi + 1 <= base,
            lo < base,
            base > 0,
    ;
    assert(0 <= base * hi) by (nonlinear_arith)
        requires
            base > 0,
            hi >= 0,
    ;
    assert(base * hi == hi * base) by (nonlinear_arith);
    lemma_fundamental_div_mod_converse(base * hi + lo, base, hi, lo);
}

/// A number below `base * base` splits into two digits below `base`.
proof fn lemma_split_digits(base: int, x: int)
    requires
        base > 0,
        0 <= x < base * base,
    ensures
        0 <= x / base < base,
        0 <= x % base < base,
        x == base * (x / base) + x % base,
{
    lemma_fundamental_div_mod(x, base);
    lemma_mod_pos_bound(x, base);
    lemma_div_pos_is_pos(x, base);
    if x / base >= base {
        assert(base * (x / base) >= base * base) by (nonlinear_arith)
            requires
                x / base >= base,
                base > 0,
        ;
    }
}

/// Every cell of every house lies on the grid, in that house and at that place.
pub proof fn lemma_house_cell(base: int, h: House, n: int, k: int)
    requires
        base > 0,
        0 <= n < base * base,
        0 <= k < base * base,
    ensures
        0 <= house_cell(base, h, n, k) < (base * base) * (base * base),
        house_of(base, h, house_cell(base, h, n, k)) == n,
        slot_of(base, h, house_cell(base, h, n, k)) == k,
{
    let side = base * base;
    match h {
        House::Row => {
            lemma_mix_digits(side, n, k);
        },
        House::Column => {
            lemma_mix_digits(side, k, n);
        },
        House::Block => {
            lemma_split_digits(base, n);
            lemma_split_digits(base, k);
            let row = base * (n / base) + k / base;
            let col = base * (n % base) + k % base;
            lemma_mix_digits(base, n / base, k / base);
            lemma_mix_digits(base, n % base, k % base);
            lemma_mix_digits(side, row, col);
        },
    }
}

/// Every cell of the grid is the cell at its own place in its own house.
pub proof fn lemma_house_of(base: int, h: House, i: int)
    requires
        base > 0,
        0 <= i < (base * base) * (base * base),
    ensures
        0 <= house_of(base, h, i) < base * base,
        0 <= slot_of(base, h, i) < base * base,
        house_cell(base, h, house_of(base, h, i), slot_of(base, h, i)) == i,
{
    let side = base * base;
    assert(side > 0) by (nonlinear_arith)
        requires
            side == base * base,
            base > 0,
    ;
    lemma_split_digits(side, i);
    let row = i / side;
    let col = i % side;
    match h {
        House::Row => {},
        House::Column => {},
        House::Block => {
            lemma_split_digits(base, row);
            lemma_split_digits(base, col);
            let n = base * (row / base) + col / base;
            let k = base * (row % base) + col % base;
            lemma_mix_digits(base, row / base, col / base);
            lemma_mix_digits(base, row % base, col % base);
            assert(n / base == row / base);
            assert(k / base == row % base);
            assert(house_cell(base, h, n, k) == side * row + col);
        },
    }
}

/// Where the last cell of a block has an index that fits a bound, every
/// number met on the way to any cell of the block fits it.
pub proof fn lemma_block_index_fits(width: int, base: int, n: int, dr: int, dc: int, bound: int)
    requires
        width >= 1,
        base >= 1,
        0 <= n,
        0 <= dr < base,
        0 <= dc < base,
        block_index(width, base, n, base * base - 1) <= bound,
    ensures
        0 <= n / base,
        0 <= n % base < base,
        0 <= base * (n / base) + dr <= bound,
        0 <= base * (n % base) + dc <= bound,
        0 <= (n / base) * base <= bound,
        0 <= (n % base) * base <= bound,
        0 <= width * (base * (n / base) + dr) + (base * (n % base) + dc) <= bound,
        base * dr + dc < base * base,
        block_index(width, base, n, base * dr + dc) == width * (base * (n / base) + dr) + (base * (
        n % base) + dc),
{
    lemma_div_pos_is_pos(n, base);
    lemma_mod_pos_bound(n, base);
    lemma_mix_digits(base, dr, dc);
    lemma_mix_digits(base, base - 1, base - 1);
    assert(base * (base - 1) + (base - 1) == base * base - 1) by (nonlinear_arith);
    let top = n / base;
    let left = n % base;
    let last_row = base * top + (base - 1);
    let last_col = base * left + (base - 1);
    assert(block_index(width, base, n, base * base - 1) == width * last_row + last_col);
    assert(0 <= base * top && base * top == top * base) by (nonlinear_arith)
        requires
            base >= 1,
            top >= 0,
    ;
    assert(0 <= base * left && base * left == left * base) by (nonlinear_arith)
        requires
            base >= 1,
            left >= 0,
    ;
    assert(last_row <= width * last_row) by (nonlinear_arith)
        requires
            width >= 1,
            last_row >= 0,
    ;
    assert(width * (base * top + dr) <= width * last_row) by (nonlinear_arith)
        requires
            width >= 1,
            base * top + dr <= last_row,
    ;
    assert(0 <= width * (base * top + dr)) by (nonlinear_arith)
        requires
            width >= 1,
            base * top + dr >= 0,
    ;
}

} // verus!
