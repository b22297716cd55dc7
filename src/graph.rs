pub mod dijkstra;

use vstd::prelude::*;

verus! {

/// `(r, c)` as a one-element sequence when it lies on an `h` by `w` grid,
/// the empty sequence otherwise.
pub open spec fn cell_if_inside(h: int, w: int, r: int, c: int) -> Seq<(usize, usize)> {
    if 0 <= r < h && 0 <= c < w {
        seq![(r as usize, c as usize)]
    } else {
        seq![]
    }
}

/// The cells next to `(row, col)` on an `h` by `w` grid, in the order
/// down, right, up, left; those off the grid are left out.
pub open spec fn adjacent4_cells(h: int, w: int, row: int, col: int) -> Seq<(usize, usize)> {
    cell_if_inside(h, w, row + 1, col) + cell_if_inside(h, w, row, col + 1) + cell_if_inside(
        h,
        w,
        row - 1,
        col,
    ) + cell_if_inside(h, w, row, col - 1)
}

/// The four neighbours of `(row, col)` in a grid given as rows, in the order
/// down, right, up, left, leaving out those that fall off the grid. The
/// width of the grid is the length of its first row.
pub fn adjacent4<T>(graph: &Vec<Vec<T>>, row: usize, col: usize) -> (r: Vec<(usize, usize)>)
    requires
        graph@.len() > 0,
    ensures
        r@ == adjacent4_cells(graph@.len() as int, graph@[0]@.len() as int, row as int, col as int),
{
    let height = graph.len();
    let width = graph[0].len();
    let mut result: Vec<(usize, usize)> = Vec::new();
    if row < height - 1 && col < width {
        result.push((row + 1, col));
    }
    if row < height && width > 0 && col < width - 1 {
        result.push((row, col + 1));
    }
    if row >= 1 && row - 1 < height && col < width {
        result.push((row - 1, col));
    }
    if col >= 1 && row < height && col - 1 < width {
        result.push((row, col - 1));
    }
    assert(result@ =~= adjacent4_cells(height as int, width as int, row as int, col as int));
    result
}

} // verus!
