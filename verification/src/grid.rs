use vstd::prelude::*;

use crate::cell::Cell;

verus! {

/// Whether `(x, y)` lies on a square grid of side `n`.
pub open spec fn in_bounds(n: int, x: int, y: int) -> bool {
    0 <= x < n && 0 <= y < n
}

/// The linear index of `(x, y)` on a square grid of side `n`.
pub open spec fn cell_index(n: int, x: int, y: int) -> int {
    x + y * n
}

/// Horizontal offset of the `k`-th Moore neighbor, `k` in `0..8`.
pub open spec fn delta_x(k: int) -> int {
    if k == 0 {
        -1
    } else if k == 1 {
        0
    } else if k == 2 {
        1
    } else if k == 3 {
        -1
    } else if k == 4 {
        1
    } else if k == 5 {
        -1
    } else if k == 6 {
        0
    } else {
        1
    }
}

/// Vertical offset of the `k`-th Moore neighbor, `k` in `0..8`.
pub open spec fn delta_y(k: int) -> int {
    if k < 3 {
        -1
    } else if k < 5 {
        0
    } else {
        1
    }
}

/// 1 if `(x, y)` is in bounds and mined, 0 otherwise.
pub open spec fn mine_at(s: Seq<Cell>, n: int, x: int, y: int) -> int {
    if in_bounds(n, x, y) && s[cell_index(n, x, y)].is_mine {
        1
    } else {
        0
    }
}

/// Mined cells among the first `k` Moore neighbors of `(x, y)`.
pub open spec fn neighbor_mines_upto(s: Seq<Cell>, n: int, x: int, y: int, k: int) -> int
    decreases k,
{
    if k <= 0 {
        0
    } else {
        neighbor_mines_upto(s, n, x, y, k - 1) + mine_at(
            s,
            n,
            x + delta_x(k - 1),
            y + delta_y(k - 1),
        )
    }
}

/// Mined cells among the in-bounds Moore neighbors of `(x, y)`.
pub open spec fn neighbor_mines(s: Seq<Cell>, n: int, x: int, y: int) -> int {
    neighbor_mines_upto(s, n, x, y, 8)
}

pub proof fn lemma_cell_index_bounds(n: int, x: int, y: int)
    by (nonlinear_arith)
    requires
        in_bounds(n, x, y),
    ensures
        0 <= cell_index(n, x, y) < n * n,
        cell_index(n, x, y) == x + y * n,
{
}

pub proof fn lemma_cell_index_injective(n: int, x1: int, y1: int, x2: int, y2: int)
    by (nonlinear_arith)
    requires
        in_bounds(n, x1, y1),
        in_bounds(n, x2, y2),
        !(x1 == x2 && y1 == y2),
    ensures
        cell_index(n, x1, y1) != cell_index(n, x2, y2),
{
}

/// Mine neighbor counts depend only on where the mines are: two boards with
/// the same mine layout agree on them.
pub proof fn lemma_neighbor_mines_upto_same_mines(
    s1: Seq<Cell>,
    s2: Seq<Cell>,
    n: int,
    x: int,
    y: int,
    k: int,
)
    requires
        s1.len() == n * n,
        s2.len() == s1.len(),
        forall|i: int| 0 <= i < s1.len() ==> (#[trigger] s2[i]).is_mine == s1[i].is_mine,
    ensures
        neighbor_mines_upto(s2, n, x, y, k) == neighbor_mines_upto(s1, n, x, y, k),
    decreases k,
{
    if k > 0 {
        lemma_neighbor_mines_upto_same_mines(s1, s2, n, x, y, k - 1);
        let nx = x + delta_x(k - 1);
        let ny = y + delta_y(k - 1);
        if in_bounds(n, nx, ny) {
            lemma_cell_index_bounds(n, nx, ny);
        }
    }
}

/// The `k`-th Moore neighbor of `(x, y)`, or `None` if it falls off the grid.
pub fn neighbor_of(side: usize, x: usize, y: usize, k: usize) -> (r: Option<(usize, usize)>)
    requires
        x < side,
        y < side,
        k < 8,
    ensures
        in_bounds(side as int, x + delta_x(k as int), y + delta_y(k as int)) ==> r == Some(
            (
                ((x + delta_x(k as int)) as usize),
                ((y + delta_y(k as int)) as usize),
            ),
        ),
        !in_bounds(side as int, x + delta_x(k as int), y + delta_y(k as int)) ==> r is None,
{
    let left = x >= 1;
    let right = x + 1 < side;
    let up = y >= 1;
    let down = y + 1 < side;
    match k {
        0 => if left && up {
            Some((x - 1, y - 1))
        } else {
            None
        },
        1 => if up {
            Some((x, y - 1))
        } else {
            None
        },
        2 => if right && up {
            Some((x + 1, y - 1))
        } else {
            None
        },
        3 => if left {
            Some((x - 1, y))
        } else {
            None
        },
        4 => if right {
            Some((x + 1, y))
        } else {
            None
        },
        5 => if left && down {
            Some((x - 1, y + 1))
        } else {
            None
        },
        6 => if down {
            Some((x, y + 1))
        } else {
            None
        },
        _ => if right && down {
            Some((x + 1, y + 1))
        } else {
            None
        },
    }
}

} // verus!
