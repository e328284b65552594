//! Opening a cell and the empty region around it.
use vstd::prelude::*;
use crate::board::{
    adjacent, board_view, cell_at, closed_unflagged, in_bounds, lemma_neighbor_list, lemma_view_shape, map_cells,
    neighbor_list, neighbors, opened, pairs_view, set_cell, well_formed, CellDto, CellMark,
};

verus! {

/// A safe cell with no mine around it: opening it opens its neighbours too.
pub open spec fn is_zero(cell: CellDto) -> bool {
    !cell.is_mine && cell.adjacent_mines == 0
}

/// Step `i` of path `p` goes from a zero cell to one of its neighbours.
pub open spec fn path_step(b: Seq<Seq<CellDto>>, p: Seq<(int, int)>, i: int) -> bool {
    &&& is_zero(cell_at(b, p[i]))
    &&& adjacent(p[i].0, p[i].1, p[i + 1].0, p[i + 1].1)
}

/// `p` is a chain of closed, unflagged cells through which opening spreads:
/// every cell but the first is safe, every cell but the last is a zero cell.
pub open spec fn flood_path(b: Seq<Seq<CellDto>>, rows: int, cols: int, p: Seq<(int, int)>) -> bool {
    &&& p.len() >= 1
    &&& forall|i: int| 0 <= i < p.len() ==> in_bounds(rows, cols, p[i].0, p[i].1) && closed_unflagged(
        #[trigger] cell_at(b, p[i]),
    )
    &&& forall|i: int| 1 <= i < p.len() ==> !(#[trigger] cell_at(b, p[i])).is_mine
    &&& forall|i: int| 0 <= i < p.len() - 1 ==> #[trigger] path_step(b, p, i)
}

/// Opening `s` spreads to `x`.
pub open spec fn flood_reaches(b: Seq<Seq<CellDto>>, rows: int, cols: int, s: (int, int), x: (int, int)) -> bool {
    exists|p: Seq<(int, int)>| #[trigger] flood_path(b, rows, cols, p) && p[0] == s && p.last() == x
}

pub open spec fn flood_fn(b: Seq<Seq<CellDto>>, rows: int, cols: int, s: (int, int)) -> spec_fn(int, int, CellDto) -> CellDto {
    |r: int, c: int, cell: CellDto| if flood_reaches(b, rows, cols, s, (r, c)) { opened(cell) } else { cell }
}

/// The board after opening `s`: exactly the cells that opening `s` spreads to become open.
pub open spec fn flood(b: Seq<Seq<CellDto>>, rows: int, cols: int, s: (int, int)) -> Seq<Seq<CellDto>> {
    map_cells(b, flood_fn(b, rows, cols, s))
}

/// `b2` is `b` with some closed cells opened and nothing else changed.
pub open spec fn opens_only(b: Seq<Seq<CellDto>>, b2: Seq<Seq<CellDto>>) -> bool {
    &&& b2.len() == b.len()
    &&& forall|i: int| 0 <= i < b.len() ==> #[trigger] b2[i].len() == b[i].len()
    &&& forall|i: int, j: int| 0 <= i < b.len() && 0 <= j < b[i].len() ==>
        #[trigger] b2[i][j] == b[i][j] || (!b[i][j].is_open && b2[i][j] == opened(b[i][j]))
}

pub open spec fn newly_open(b: Seq<Seq<CellDto>>, b2: Seq<Seq<CellDto>>, i: int, j: int) -> bool {
    !b[i][j].is_open && b2[i][j].is_open
}

/// Every safe, unflagged neighbour of `(i, j)` is open.
pub open spec fn saturated(b2: Seq<Seq<CellDto>>, rows: int, cols: int, i: int, j: int) -> bool {
    forall|ni: int, nj: int|
        in_bounds(rows, cols, ni, nj) && adjacent(i, j, ni, nj) && !(#[trigger] b2[ni][nj]).is_mine
            && b2[ni][nj].mark != CellMark::Flag ==> b2[ni][nj].is_open
}

/// What one spreading step from `s` guarantees.
pub open spec fn flood_post(b: Seq<Seq<CellDto>>, b2: Seq<Seq<CellDto>>, rows: int, cols: int, s: (int, int)) -> bool {
    &&& opens_only(b, b2)
    &&& forall|i: int, j: int| in_bounds(rows, cols, i, j) && #[trigger] newly_open(b, b2, i, j) ==> flood_reaches(b, rows, cols, s, (i, j))
    &&& forall|i: int, j: int| in_bounds(rows, cols, i, j) && #[trigger] newly_open(b, b2, i, j) && is_zero(b[i][j]) ==> saturated(b2, rows, cols, i, j)
    &&& closed_unflagged(b[s.0][s.1]) ==> b2[s.0][s.1].is_open
}

pub open spec fn row_closed(row: Seq<CellDto>) -> nat
    decreases row.len(),
{
    if row.len() == 0 {
        0
    } else {
        row_closed(row.drop_last()) + if row.last().is_open { 0nat } else { 1nat }
    }
}

/// Number of closed cells on the board.
pub open spec fn closed_count(b: Seq<Seq<CellDto>>) -> nat
    decreases b.len(),
{
    if b.len() == 0 {
        0
    } else {
        closed_count(b.drop_last()) + row_closed(b.last())
    }
}

proof fn lemma_row_closed_mono(r0: Seq<CellDto>, r1: Seq<CellDto>)
    requires
        r0.len() == r1.len(),
        forall|j: int| 0 <= j < r0.len() ==> #[trigger] r0[j].is_open ==> r1[j].is_open,
    ensures
        row_closed(r1) <= row_closed(r0),
        (exists|j: int| 0 <= j < r0.len() && !r0[j].is_open && #[trigger] r1[j].is_open) ==> row_closed(r1) < row_closed(r0),
    decreases r0.len(),
{
    if r0.len() > 0 {
        let d0 = r0.drop_last();
        let d1 = r1.drop_last();
        assert forall|j: int| 0 <= j < d0.len() && #[trigger] d0[j].is_open implies d1[j].is_open by {
            assert(d0[j] == r0[j] && d1[j] == r1[j]);
        }
        lemma_row_closed_mono(d0, d1);
        if exists|j: int| 0 <= j < r0.len() && !r0[j].is_open && #[trigger] r1[j].is_open {
            let j = choose|j: int| 0 <= j < r0.len() && !r0[j].is_open && #[trigger] r1[j].is_open;
            if j < r0.len() - 1 {
                assert(d0[j] == r0[j] && d1[j] == r1[j]);
            }
        }
    }
}

proof fn lemma_closed_count_mono(b0: Seq<Seq<CellDto>>, b1: Seq<Seq<CellDto>>)
    requires
        opens_only(b0, b1),
    ensures
        closed_count(b1) <= closed_count(b0),
        (exists|i: int, j: int| 0 <= i < b0.len() && 0 <= j < b0[i].len() && #[trigger] newly_open(b0, b1, i, j))
            ==> closed_count(b1) < closed_count(b0),
    decreases b0.len(),
{
    if b0.len() > 0 {
        let d0 = b0.drop_last();
        let d1 = b1.drop_last();
        assert forall|i: int| 0 <= i < d0.len() implies #[trigger] d1[i].len() == d0[i].len() by {
            assert(d0[i] == b0[i] && d1[i] == b1[i]);
        }
        assert forall|i: int, j: int| 0 <= i < d0.len() && 0 <= j < d0[i].len() implies
            #[trigger] d1[i][j] == d0[i][j] || (!d0[i][j].is_open && d1[i][j] == opened(d0[i][j])) by {
            assert(d0[i] == b0[i] && d1[i] == b1[i]);
            assert(b1[i][j] == b0[i][j] || (!b0[i][j].is_open && b1[i][j] == opened(b0[i][j])));
        }
        lemma_closed_count_mono(d0, d1);
        let last = b0.len() - 1;
        assert(b1[last].len() == b0[last].len());
        assert forall|j: int| 0 <= j < b0[last].len() && #[trigger] b0[last][j].is_open implies b1[last][j].is_open by {
            assert(b1[last][j] == b0[last][j] || (!b0[last][j].is_open && b1[last][j] == opened(b0[last][j])));
        }
        lemma_row_closed_mono(b0[last], b1[last]);
        if exists|i: int, j: int| 0 <= i < b0.len() && 0 <= j < b0[i].len() && #[trigger] newly_open(b0, b1, i, j) {
            let (i, j) = choose|i: int, j: int| 0 <= i < b0.len() && 0 <= j < b0[i].len() && #[trigger] newly_open(b0, b1, i, j);
            if i < last {
                assert(d0[i] == b0[i] && d1[i] == b1[i]);
                assert(newly_open(d0, d1, i, j));
            } else {
                assert(!b0[last][j].is_open && b1[last][j].is_open);
            }
        }
    }
}

proof fn lemma_opens_only_trans(b0: Seq<Seq<CellDto>>, b1: Seq<Seq<CellDto>>, b2: Seq<Seq<CellDto>>)
    requires
        opens_only(b0, b1),
        opens_only(b1, b2),
    ensures
        opens_only(b0, b2),
{
    assert forall|i: int| 0 <= i < b0.len() implies #[trigger] b2[i].len() == b0[i].len() by {
        assert(b1[i].len() == b0[i].len());
    }
    assert forall|i: int, j: int| 0 <= i < b0.len() && 0 <= j < b0[i].len() implies
        #[trigger] b2[i][j] == b0[i][j] || (!b0[i][j].is_open && b2[i][j] == opened(b0[i][j])) by {
        assert(b1[i].len() == b0[i].len());
        assert(b1[i][j] == b0[i][j] || (!b0[i][j].is_open && b1[i][j] == opened(b0[i][j])));
        assert(b2[i][j] == b1[i][j] || (!b1[i][j].is_open && b2[i][j] == opened(b1[i][j])));
    }
}

/// Spreading from a neighbour `y` of a zero cell `s`, on a board that only has more cells
/// open, reaches nothing that spreading from `s` would not.
proof fn lemma_reach_extend(b0: Seq<Seq<CellDto>>, bk: Seq<Seq<CellDto>>, rows: int, cols: int, s: (int, int), y: (int, int), x: (int, int))
    requires
        well_formed(b0, rows, cols),
        opens_only(b0, bk),
        in_bounds(rows, cols, s.0, s.1),
        closed_unflagged(cell_at(b0, s)),
        is_zero(cell_at(b0, s)),
        adjacent(s.0, s.1, y.0, y.1),
        !cell_at(b0, y).is_mine,
        flood_reaches(bk, rows, cols, y, x),
    ensures
        flood_reaches(b0, rows, cols, s, x),
{
    let p = choose|p: Seq<(int, int)>| #[trigger] flood_path(bk, rows, cols, p) && p[0] == y && p.last() == x;
    let q = seq![s] + p;
    assert forall|i: int| 0 <= i < q.len() implies in_bounds(rows, cols, q[i].0, q[i].1) && closed_unflagged(
        #[trigger] cell_at(b0, q[i]),
    ) by {
        if i > 0 {
            assert(q[i] == p[i - 1]);
            assert(in_bounds(rows, cols, p[i - 1].0, p[i - 1].1) && closed_unflagged(cell_at(bk, p[i - 1])));
            let (a, c) = p[i - 1];
            assert(bk[a][c] == b0[a][c] || (!b0[a][c].is_open && bk[a][c] == opened(b0[a][c])));
        }
    }
    assert forall|i: int| 1 <= i < q.len() implies !(#[trigger] cell_at(b0, q[i])).is_mine by {
        assert(q[i] == p[i - 1]);
        let (a, c) = p[i - 1];
        assert(in_bounds(rows, cols, a, c) && closed_unflagged(cell_at(bk, p[i - 1])));
        assert(bk[a][c] == b0[a][c] || (!b0[a][c].is_open && bk[a][c] == opened(b0[a][c])));
        if i > 1 {
            assert(!cell_at(bk, p[i - 1]).is_mine);
        }
    }
    assert forall|i: int| 0 <= i < q.len() - 1 implies #[trigger] path_step(b0, q, i) by {
        if i > 0 {
            assert(q[i] == p[i - 1] && q[i + 1] == p[i]);
            assert(path_step(bk, p, i - 1));
            let (a, c) = p[i - 1];
            assert(in_bounds(rows, cols, a, c) && closed_unflagged(cell_at(bk, p[i - 1])));
            assert(bk[a][c] == b0[a][c] || (!b0[a][c].is_open && bk[a][c] == opened(b0[a][c])));
        } else {
            assert(q[0] == s && q[1] == p[0]);
        }
    }
    assert(flood_path(b0, rows, cols, q));
    assert(q[0] == s && q.last() == x);
}

/// Along a path from `s`, every cell ends up open.
proof fn lemma_path_opened(b0: Seq<Seq<CellDto>>, b1: Seq<Seq<CellDto>>, rows: int, cols: int, s: (int, int), p: Seq<(int, int)>, n: int)
    requires
        well_formed(b0, rows, cols),
        flood_post(b0, b1, rows, cols, s),
        flood_path(b0, rows, cols, p),
        p[0] == s,
        0 <= n < p.len(),
    ensures
        cell_at(b1, p[n]).is_open,
    decreases n,
{
    if n == 0 {
        assert(in_bounds(rows, cols, p[0].0, p[0].1) && closed_unflagged(cell_at(b0, p[0])));
    } else {
        lemma_path_opened(b0, b1, rows, cols, s, p, n - 1);
        let (a, c) = p[n - 1];
        let (a2, c2) = p[n];
        assert(in_bounds(rows, cols, a, c) && closed_unflagged(cell_at(b0, p[n - 1])));
        assert(in_bounds(rows, cols, a2, c2) && closed_unflagged(cell_at(b0, p[n])));
        assert(path_step(b0, p, n - 1));
        assert(!cell_at(b0, p[n]).is_mine);
        assert(newly_open(b0, b1, a, c));
        assert(saturated(b1, rows, cols, a, c));
        assert(b1[a2][c2] == b0[a2][c2] || (!b0[a2][c2].is_open && b1[a2][c2] == opened(b0[a2][c2])));
    }
}

/// The guarantees of one spreading step pin down the resulting board exactly.
proof fn lemma_flood_exact(b0: Seq<Seq<CellDto>>, b1: Seq<Seq<CellDto>>, rows: int, cols: int, s: (int, int))
    requires
        well_formed(b0, rows, cols),
        flood_post(b0, b1, rows, cols, s),
    ensures
        b1 == flood(b0, rows, cols, s),
{
    let fl = flood(b0, rows, cols, s);
    assert forall|i: int| 0 <= i < b1.len() implies #[trigger] b1[i] == fl[i] by {
        assert(b1[i].len() == b0[i].len());
        assert forall|j: int| 0 <= j < b1[i].len() implies #[trigger] b1[i][j] == fl[i][j] by {
            assert(b1[i][j] == b0[i][j] || (!b0[i][j].is_open && b1[i][j] == opened(b0[i][j])));
            if flood_reaches(b0, rows, cols, s, (i, j)) {
                let p = choose|p: Seq<(int, int)>| #[trigger] flood_path(b0, rows, cols, p) && p[0] == s && p.last() == (i, j);
                lemma_path_opened(b0, b1, rows, cols, s, p, p.len() - 1);
                assert(closed_unflagged(cell_at(b0, p[p.len() - 1])));
            } else {
                if newly_open(b0, b1, i, j) {
                    assert(in_bounds(rows, cols, i, j));
                }
            }
        }
        assert(b1[i] =~= fl[i]);
    }
    assert(b1 =~= fl);
}

/// Opens `(row, col)` and, from a zero cell, keeps spreading to its safe neighbours.
fn reveal_from(board: &mut Vec<Vec<CellDto>>, rows: i32, cols: i32, row: i32, col: i32)
    requires
        well_formed(board_view(old(board)), rows as int, cols as int),
        in_bounds(rows as int, cols as int, row as int, col as int),
    ensures
        flood_post(board_view(old(board)), board_view(final(board)), rows as int, cols as int, (row as int, col as int)),
    decreases closed_count(board_view(old(board))),
{
    let ghost b0 = board_view(board);
    let ghost s = (row as int, col as int);
    proof {
        lemma_view_shape(board);
        assert(b0[row as int].len() == cols);
    }
    let cell = board[row as usize][col as usize];
    assert(cell == b0[row as int][col as int]);
    if cell.is_open || cell.mark == CellMark::Flag {
        return;
    }
    let mut opened_cell = cell;
    opened_cell.is_open = true;
    set_cell(board, row as usize, col as usize, opened_cell);
    proof {
        let b1 = board_view(board);
        assert forall|i: int| 0 <= i < b0.len() implies #[trigger] b1[i].len() == b0[i].len() by {}
        assert forall|i: int, j: int| 0 <= i < b0.len() && 0 <= j < b0[i].len() implies
            #[trigger] b1[i][j] == b0[i][j] || (!b0[i][j].is_open && b1[i][j] == opened(b0[i][j])) by {}
        let p = seq![s];
        assert(flood_path(b0, rows as int, cols as int, p));
        assert forall|i: int, j: int| in_bounds(rows as int, cols as int, i, j) && #[trigger] newly_open(b0, b1, i, j)
            implies flood_reaches(b0, rows as int, cols as int, s, (i, j)) by {
            assert(i == row && j == col);
            assert(p[0] == s && p.last() == (i, j));
        }
    }
    if !cell.is_mine && cell.adjacent_mines == 0 {
        let ns = neighbors(rows, cols, row, col);
        let ghost nl = neighbor_list(rows as int, cols as int, row as int, col as int);
        proof { lemma_neighbor_list(rows as int, cols as int, row as int, col as int); }
        let mut k: usize = 0;
        while k < ns.len()
            invariant
                0 <= k <= ns@.len(),
                pairs_view(ns@) == nl,
                nl == neighbor_list(rows as int, cols as int, row as int, col as int),
                nl.len() <= 8,
                forall|i: int| 0 <= i < nl.len() ==> {
                    let p = #[trigger] nl[i];
                    in_bounds(rows as int, cols as int, p.0, p.1) && adjacent(row as int, col as int, p.0, p.1)
                },
                well_formed(b0, rows as int, cols as int),
                b0 == board_view(old(board)),
                in_bounds(rows as int, cols as int, row as int, col as int),
                s == (row as int, col as int),
                closed_unflagged(cell_at(b0, s)),
                is_zero(cell_at(b0, s)),
                opens_only(b0, board_view(board)),
                board_view(board)[row as int][col as int].is_open,
                forall|i: int, j: int| in_bounds(rows as int, cols as int, i, j) && #[trigger] newly_open(b0, board_view(board), i, j)
                    ==> flood_reaches(b0, rows as int, cols as int, s, (i, j)),
                forall|i: int, j: int| in_bounds(rows as int, cols as int, i, j) && #[trigger] newly_open(b0, board_view(board), i, j)
                    && !(i == row && j == col) && is_zero(b0[i][j]) ==> saturated(board_view(board), rows as int, cols as int, i, j),
                forall|q: int| 0 <= q < k ==> {
                    let y = #[trigger] nl[q];
                    !b0[y.0][y.1].is_mine && b0[y.0][y.1].mark != CellMark::Flag ==> board_view(board)[y.0][y.1].is_open
                },
            decreases ns@.len() - k,
        {
            let ghost bk = board_view(board);
            let (nr, nc) = ns[k];
            assert(pairs_view(ns@)[k as int] == nl[k as int]);
            let ghost y = (nr as int, nc as int);
            proof {
                lemma_view_shape(board);
                assert(bk[nr as int].len() == b0[nr as int].len());
                assert(bk[nr as int][nc as int] == b0[nr as int][nc as int] || (!b0[nr as int][nc as int].is_open
                    && bk[nr as int][nc as int] == opened(b0[nr as int][nc as int])));
            }
            if !board[nr as usize][nc as usize].is_open && !board[nr as usize][nc as usize].is_mine {
                proof {
                    assert(bk[row as int].len() == b0[row as int].len());
                    assert(0 <= row < b0.len() && 0 <= col < b0[row as int].len() && newly_open(b0, bk, row as int, col as int));
                    lemma_closed_count_mono(b0, bk);
                    assert(closed_count(bk) < closed_count(b0));
                    assert(well_formed(bk, rows as int, cols as int)) by {
                        assert forall|r: int| 0 <= r < rows implies #[trigger] bk[r].len() == cols by {
                            assert(bk[r].len() == b0[r].len());
                        }
                    }
                }
                reveal_from(board, rows, cols, nr, nc);
                proof {
                    let bn = board_view(board);
                    lemma_opens_only_trans(b0, bk, bn);
                    assert forall|i: int, j: int| in_bounds(rows as int, cols as int, i, j) && #[trigger] newly_open(b0, bn, i, j)
                        implies flood_reaches(b0, rows as int, cols as int, s, (i, j)) by {
                        assert(bk[i].len() == b0[i].len());
                        assert(bk[i][j] == b0[i][j] || (!b0[i][j].is_open && bk[i][j] == opened(b0[i][j])));
                        if !newly_open(b0, bk, i, j) {
                            assert(newly_open(bk, bn, i, j));
                            lemma_reach_extend(b0, bk, rows as int, cols as int, s, y, (i, j));
                        }
                    }
                    assert forall|i: int, j: int| in_bounds(rows as int, cols as int, i, j) && #[trigger] newly_open(b0, bn, i, j)
                        && !(i == row && j == col) && is_zero(b0[i][j]) implies saturated(bn, rows as int, cols as int, i, j) by {
                        assert(bk[i].len() == b0[i].len());
                        assert(bk[i][j] == b0[i][j] || (!b0[i][j].is_open && bk[i][j] == opened(b0[i][j])));
                        if newly_open(b0, bk, i, j) {
                            assert(saturated(bk, rows as int, cols as int, i, j));
                            assert forall|ni: int, nj: int|
                                in_bounds(rows as int, cols as int, ni, nj) && adjacent(i, j, ni, nj) && !(#[trigger] bn[ni][nj]).is_mine
                                    && bn[ni][nj].mark != CellMark::Flag implies bn[ni][nj].is_open by {
                                assert(bk[ni].len() == b0[ni].len());
                                assert(bn[ni][nj] == bk[ni][nj] || (!bk[ni][nj].is_open && bn[ni][nj] == opened(bk[ni][nj])));
                            }
                        } else {
                            assert(newly_open(bk, bn, i, j));
                        }
                    }
                    assert forall|q: int| 0 <= q < k + 1 implies {
                        let yy = #[trigger] nl[q];
                        !b0[yy.0][yy.1].is_mine && b0[yy.0][yy.1].mark != CellMark::Flag ==> bn[yy.0][yy.1].is_open
                    } by {
                        let yy = nl[q];
                        assert(in_bounds(rows as int, cols as int, yy.0, yy.1));
                        assert(bk[yy.0].len() == b0[yy.0].len());
                        assert(bn[yy.0][yy.1] == bk[yy.0][yy.1] || (!bk[yy.0][yy.1].is_open && bn[yy.0][yy.1] == opened(bk[yy.0][yy.1])));
                    }
                    assert(bn[row as int].len() == bk[row as int].len());
                    assert(bn[row as int][col as int] == bk[row as int][col as int] || (!bk[row as int][col as int].is_open
                        && bn[row as int][col as int] == opened(bk[row as int][col as int])));
                }
            }
            k = k + 1;
        }
        proof {
            let bn = board_view(board);
            assert forall|ni: int, nj: int|
                in_bounds(rows as int, cols as int, ni, nj) && adjacent(row as int, col as int, ni, nj) && !(#[trigger] bn[ni][nj]).is_mine
                    && bn[ni][nj].mark != CellMark::Flag implies bn[ni][nj].is_open by {
                assert(nl.contains((ni, nj)));
                let q = choose|q: int| 0 <= q < nl.len() && nl[q] == (ni, nj);
                assert(b0[ni].len() == cols);
                assert(bn[ni][nj] == b0[ni][nj] || (!b0[ni][nj].is_open && bn[ni][nj] == opened(b0[ni][nj])));
            }
            assert(saturated(bn, rows as int, cols as int, row as int, col as int));
        }
    }
}

/// Opens `(row, col)`; from a cell with no mine around it the opening spreads
/// over the connected empty region and its border.
pub fn reveal_empty(board: &mut Vec<Vec<CellDto>>, rows: i32, cols: i32, row: i32, col: i32)
    requires
        well_formed(board_view(old(board)), rows as int, cols as int),
        in_bounds(rows as int, cols as int, row as int, col as int),
    ensures
        board_view(final(board)) == flood(board_view(old(board)), rows as int, cols as int, (row as int, col as int)),
{
    let ghost b0 = board_view(board);
    reveal_from(board, rows, cols, row, col);
    proof { lemma_flood_exact(b0, board_view(board), rows as int, cols as int, (row as int, col as int)); }
}

} // verus!
