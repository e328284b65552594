//! Properties that hold across the moves of a game.
use vstd::prelude::*;
use crate::board::{
    adjacent, all_safe_open, cell_at, closed_unflagged, count_closed_unflagged, count_flags, flag_mine_fn, in_bounds, lemma_map_cells_shape, lemma_neighbor_list,
    map_cells, mines_flagged, mines_revealed, neighbor_list, number_fn, numbered, opened, reveal_mine_fn, well_formed, CellDto,
    CellMark, GameStatus,
};
use crate::flood::{flood, flood_fn, flood_path, flood_reaches, path_step};
use crate::game::{
    chord_fold, chord_step, flag_around_fn, next_mark, open_at, open_cell_spec, open_closed, reveal_result, shown_cell,
};
use crate::mines::{free_cells, in_zone, law_relocation_clears_zone, relocate_fn, relocated, zone_mines};

verus! {

/// `b2` comes from `b` by play: same shape, same mines and numbers, and open cells stay open.
pub open spec fn progresses(b: Seq<Seq<CellDto>>, b2: Seq<Seq<CellDto>>, rows: int, cols: int) -> bool {
    &&& well_formed(b2, rows, cols)
    &&& forall|i: int, j: int| 0 <= i < rows && 0 <= j < cols ==> {
        let c = #[trigger] b[i][j];
        let c2 = b2[i][j];
        &&& c2.is_mine == c.is_mine
        &&& c2.adjacent_mines == c.adjacent_mines
        &&& (c.is_open ==> c2.is_open)
    }
}

/// Every mine is open.
pub open spec fn all_mines_open(b: Seq<Seq<CellDto>>, rows: int, cols: int) -> bool {
    forall|i: int, j: int| 0 <= i < rows && 0 <= j < cols && (#[trigger] b[i][j]).is_mine ==> b[i][j].is_open
}

/// Every mine carries a flag.
pub open spec fn all_mines_flagged(b: Seq<Seq<CellDto>>, rows: int, cols: int) -> bool {
    forall|i: int, j: int| 0 <= i < rows && 0 <= j < cols && (#[trigger] b[i][j]).is_mine ==> b[i][j].mark == CellMark::Flag
}

proof fn lemma_progresses_trans(b0: Seq<Seq<CellDto>>, b1: Seq<Seq<CellDto>>, b2: Seq<Seq<CellDto>>, rows: int, cols: int)
    requires
        progresses(b0, b1, rows, cols),
        progresses(b1, b2, rows, cols),
    ensures
        progresses(b0, b2, rows, cols),
{
    assert forall|i: int, j: int| 0 <= i < rows && 0 <= j < cols implies {
        let c = #[trigger] b0[i][j];
        let c2 = b2[i][j];
        &&& c2.is_mine == c.is_mine
        &&& c2.adjacent_mines == c.adjacent_mines
        &&& (c.is_open ==> c2.is_open)
    } by {
        let _ = b1[i][j];
    }
}

proof fn lemma_progresses_refl(b: Seq<Seq<CellDto>>, rows: int, cols: int)
    requires
        well_formed(b, rows, cols),
    ensures
        progresses(b, b, rows, cols),
{
}

proof fn lemma_progress_map(b: Seq<Seq<CellDto>>, f: spec_fn(int, int, CellDto) -> CellDto, rows: int, cols: int)
    requires
        well_formed(b, rows, cols),
        forall|i: int, j: int| 0 <= i < rows && 0 <= j < cols ==> {
            let c = #[trigger] b[i][j];
            let c2 = f(i, j, c);
            &&& c2.is_mine == c.is_mine
            &&& c2.adjacent_mines == c.adjacent_mines
            &&& (c.is_open ==> c2.is_open)
        },
    ensures
        progresses(b, map_cells(b, f), rows, cols),
{
    lemma_map_cells_shape(b, f, rows, cols);
}

proof fn lemma_progress_flood(b: Seq<Seq<CellDto>>, rows: int, cols: int, p: (int, int))
    requires
        well_formed(b, rows, cols),
    ensures
        progresses(b, flood(b, rows, cols, p), rows, cols),
{
    lemma_progress_map(b, flood_fn(b, rows, cols, p), rows, cols);
}

proof fn lemma_progress_open_closed(b: Seq<Seq<CellDto>>, rows: int, cols: int, p: (int, int), dev: bool, st: GameStatus)
    requires
        well_formed(b, rows, cols),
        in_bounds(rows, cols, p.0, p.1),
    ensures
        progresses(b, open_closed(b, rows, cols, p, dev, st).0, rows, cols),
        open_closed(b, rows, cols, p, dev, st).1 == st || open_closed(b, rows, cols, p, dev, st).1 == GameStatus::Lost,
        open_closed(b, rows, cols, p, dev, st).1 == GameStatus::Lost && st != GameStatus::Lost ==> all_mines_open(
            open_closed(b, rows, cols, p, dev, st).0,
            rows,
            cols,
        ),
{
    if cell_at(b, p).is_mine {
        if !dev {
            let o = open_at(b, p);
            assert(progresses(b, o, rows, cols)) by {
                assert forall|r: int| 0 <= r < rows implies #[trigger] o[r].len() == cols by {
                    assert(b[r].len() == cols);
                }
            }
            lemma_progress_map(o, reveal_mine_fn(), rows, cols);
            lemma_progresses_trans(b, o, mines_revealed(o), rows, cols);
            lemma_map_cells_shape(o, reveal_mine_fn(), rows, cols);
        }
    } else {
        lemma_progress_flood(b, rows, cols, p);
    }
}

proof fn lemma_progress_chord(
    b: Seq<Seq<CellDto>>,
    rows: int,
    cols: int,
    st: GameStatus,
    ns: Seq<(int, int)>,
    dev: bool,
    k: nat,
)
    requires
        well_formed(b, rows, cols),
        k <= ns.len(),
        forall|i: int| 0 <= i < ns.len() ==> in_bounds(rows, cols, (#[trigger] ns[i]).0, ns[i].1),
    ensures
        progresses(b, chord_fold(b, rows, cols, st, ns, dev, k).0, rows, cols),
        chord_fold(b, rows, cols, st, ns, dev, k).1 == st || chord_fold(b, rows, cols, st, ns, dev, k).1 == GameStatus::Lost,
        chord_fold(b, rows, cols, st, ns, dev, k).1 == GameStatus::Lost && st != GameStatus::Lost ==> all_mines_open(
            chord_fold(b, rows, cols, st, ns, dev, k).0,
            rows,
            cols,
        ),
    decreases k,
{
    if k == 0 {
        lemma_progresses_refl(b, rows, cols);
    } else {
        lemma_progress_chord(b, rows, cols, st, ns, dev, (k - 1) as nat);
        let prev = chord_fold(b, rows, cols, st, ns, dev, (k - 1) as nat);
        let y = ns[k - 1];
        if closed_unflagged(cell_at(prev.0, y)) {
            lemma_progress_open_closed(prev.0, rows, cols, y, dev, prev.1);
            lemma_progresses_trans(b, prev.0, chord_step(prev.0, rows, cols, prev.1, y, dev).0, rows, cols);
            let next = chord_step(prev.0, rows, cols, prev.1, y, dev);
            if next.1 == GameStatus::Lost && st != GameStatus::Lost && prev.1 == GameStatus::Lost {
                assert forall|i: int, j: int| 0 <= i < rows && 0 <= j < cols && (#[trigger] next.0[i][j]).is_mine implies next.0[i][j].is_open by {
                    let _ = prev.0[i][j];
                }
            }
        }
    }
}

proof fn lemma_progress_open_cell(
    b: Seq<Seq<CellDto>>,
    rows: int,
    cols: int,
    p: (int, int),
    chord: bool,
    dev: bool,
    st: GameStatus,
)
    requires
        well_formed(b, rows, cols),
        in_bounds(rows, cols, p.0, p.1),
    ensures
        progresses(b, open_cell_spec(b, rows, cols, p, chord, dev, st).0, rows, cols),
        open_cell_spec(b, rows, cols, p, chord, dev, st).1 == st || open_cell_spec(b, rows, cols, p, chord, dev, st).1
            == GameStatus::Lost,
        open_cell_spec(b, rows, cols, p, chord, dev, st).1 == GameStatus::Lost && st != GameStatus::Lost ==> all_mines_open(
            open_cell_spec(b, rows, cols, p, chord, dev, st).0,
            rows,
            cols,
        ),
{
    let cell = cell_at(b, p);
    let ns = neighbor_list(rows, cols, p.0, p.1);
    lemma_neighbor_list(rows, cols, p.0, p.1);
    if cell.is_open && cell.adjacent_mines > 0 {
        if !chord {
        } else if crate::board::count_closed_unflagged(b, ns) == cell.adjacent_mines - crate::board::count_flags(b, ns)
            && crate::board::count_closed_unflagged(b, ns) > 0 {
            lemma_progress_map(b, flag_around_fn(ns), rows, cols);
        } else if crate::board::count_flags(b, ns) == cell.adjacent_mines {
            lemma_progress_chord(b, rows, cols, st, ns, dev, ns.len());
        }
    } else if cell.is_open || cell.mark == CellMark::Flag {
    } else {
        lemma_progress_open_closed(b, rows, cols, p, dev, st);
    }
}

/// Once a game is under way, a move never moves a mine or changes a number, and open cells stay open.
pub proof fn law_moves_keep_mines(
    b: Seq<Seq<CellDto>>,
    rows: int,
    cols: int,
    random_field: bool,
    chord: bool,
    dev: bool,
    p: (int, int),
)
    requires
        well_formed(b, rows, cols),
        in_bounds(rows, cols, p.0, p.1),
    ensures
        progresses(b, reveal_result(b, rows, cols, GameStatus::Playing, random_field, chord, dev, p).0, rows, cols),
{
    lemma_progress_open_cell(b, rows, cols, p, chord, dev, GameStatus::Playing);
    let after = open_cell_spec(b, rows, cols, p, chord, dev, GameStatus::Playing);
    if after.1 != GameStatus::Lost && all_safe_open(after.0) {
        lemma_progress_map(after.0, flag_mine_fn(), rows, cols);
        lemma_progresses_trans(b, after.0, mines_flagged(after.0), rows, cols);
    }
}

/// A move that wins leaves every safe cell open and every mine flagged; a move that loses
/// shows every mine.
pub proof fn law_game_end_boards(
    b: Seq<Seq<CellDto>>,
    rows: int,
    cols: int,
    st: GameStatus,
    random_field: bool,
    chord: bool,
    dev: bool,
    p: (int, int),
)
    requires
        well_formed(b, rows, cols),
        in_bounds(rows, cols, p.0, p.1),
        st == GameStatus::Idle || st == GameStatus::Playing,
    ensures
        ({
            let res = reveal_result(b, rows, cols, st, random_field, chord, dev, p);
            &&& res.1 == GameStatus::Won ==> all_safe_open(res.0) && all_mines_flagged(res.0, rows, cols)
            &&& res.1 == GameStatus::Won ==> forall|r: int, c: int| 0 <= r < rows && 0 <= c < cols ==>
                (#[trigger] res.0[r][c]).is_mine || res.0[r][c].is_open
            &&& res.1 == GameStatus::Lost ==> all_mines_open(res.0, rows, cols)
            &&& res.1 != GameStatus::Idle
        }),
{
    let pre = if random_field { b } else { relocated(b, rows, cols, p.0, p.1) };
    if st == GameStatus::Idle {
        if !random_field {
            let z = zone_mines(b, rows, cols, p.0, p.1);
            let m = crate::mines::moved_count(b, rows, cols, p.0, p.1);
            lemma_map_cells_shape(b, relocate_fn(z.take(m), free_cells(b, rows, cols, p.0, p.1).take(m)), rows, cols);
        }
        lemma_map_cells_shape(pre, number_fn(pre, rows, cols), rows, cols);
    }
    let prepared = if st == GameStatus::Idle { (numbered(pre, rows, cols), GameStatus::Playing) } else { (b, st) };
    lemma_progress_open_cell(prepared.0, rows, cols, p, chord, dev, prepared.1);
    let after = open_cell_spec(prepared.0, rows, cols, p, chord, dev, prepared.1);
    if after.1 != GameStatus::Lost && all_safe_open(after.0) {
        let fb = mines_flagged(after.0);
        lemma_map_cells_shape(after.0, flag_mine_fn(), rows, cols);
        assert forall|r: int, c: int| 0 <= r < fb.len() && 0 <= c < fb[r].len() implies (#[trigger] fb[r][c]).is_mine || fb[r][c].is_open by {
            assert(after.0[r][c].is_mine || after.0[r][c].is_open);
        }
        assert forall|r: int, c: int| 0 <= r < rows && 0 <= c < cols implies (#[trigger] fb[r][c]).is_mine || fb[r][c].is_open by {
            assert(after.0[r][c].is_mine || after.0[r][c].is_open);
        }
    }
}

/// Safe first opening: in a fresh game without a fully random field, when the board has room
/// outside the 3x3 zone for the mines inside it, the first opening never loses and opens the
/// chosen cell.
pub proof fn law_safe_first_reveal(
    b: Seq<Seq<CellDto>>,
    rows: int,
    cols: int,
    chord: bool,
    dev: bool,
    p: (int, int),
)
    requires
        well_formed(b, rows, cols),
        in_bounds(rows, cols, p.0, p.1),
        closed_unflagged(cell_at(b, p)),
        zone_mines(b, rows, cols, p.0, p.1).len() <= free_cells(b, rows, cols, p.0, p.1).len(),
    ensures
        reveal_result(b, rows, cols, GameStatus::Idle, false, chord, dev, p).1 != GameStatus::Lost,
        cell_at(reveal_result(b, rows, cols, GameStatus::Idle, false, chord, dev, p).0, p).is_open,
{
    let rb = relocated(b, rows, cols, p.0, p.1);
    law_relocation_clears_zone(b, rows, cols, p.0, p.1);
    let z = zone_mines(b, rows, cols, p.0, p.1);
    let m = crate::mines::moved_count(b, rows, cols, p.0, p.1);
    let rf = relocate_fn(z.take(m), free_cells(b, rows, cols, p.0, p.1).take(m));
    lemma_map_cells_shape(b, rf, rows, cols);
    assert(rb[p.0][p.1] == rf(p.0, p.1, b[p.0][p.1]));
    assert(in_zone(p.0, p.1, p.0, p.1));
    let nb = numbered(rb, rows, cols);
    lemma_map_cells_shape(rb, number_fn(rb, rows, cols), rows, cols);
    let cell = cell_at(nb, p);
    assert(!cell.is_open && cell.mark != CellMark::Flag && !cell.is_mine);
    let after = open_cell_spec(nb, rows, cols, p, chord, dev, GameStatus::Playing);
    assert(after == (flood(nb, rows, cols, p), GameStatus::Playing));
    let path = seq![p];
    assert(flood_path(nb, rows, cols, path));
    assert(path[0] == p && path.last() == p);
    lemma_map_cells_shape(nb, flood_fn(nb, rows, cols, p), rows, cols);
    assert(after.0[p.0][p.1] == flood_fn(nb, rows, cols, p)(p.0, p.1, nb[p.0][p.1]));
    if all_safe_open(after.0) {
        lemma_map_cells_shape(after.0, flag_mine_fn(), rows, cols);
    }
}

/// Marking a closed cell cycles through no mark, flag and question mark (when question marks
/// are on) and back; without question marks it alternates between no mark and flag.
pub proof fn law_mark_cycle(m: CellMark)
    ensures
        next_mark(next_mark(next_mark(m, true), true), true) == m,
        m != CellMark::Question ==> next_mark(next_mark(m, false), false) == m,
{
}

/// Opening a cell only opens cells: it never opens a flagged cell, and never opens a mine
/// other than the opened cell itself.
pub proof fn law_opening_spares_mines_and_flags(b: Seq<Seq<CellDto>>, rows: int, cols: int, s: (int, int), i: int, j: int)
    requires
        well_formed(b, rows, cols),
        in_bounds(rows, cols, i, j),
    ensures
        flood(b, rows, cols, s)[i][j] == b[i][j] || flood(b, rows, cols, s)[i][j] == opened(b[i][j]),
        b[i][j].mark == CellMark::Flag ==> flood(b, rows, cols, s)[i][j] == b[i][j],
        b[i][j].is_mine && (i, j) != s ==> flood(b, rows, cols, s)[i][j] == b[i][j],
{
    lemma_map_cells_shape(b, flood_fn(b, rows, cols, s), rows, cols);
    if flood_reaches(b, rows, cols, s, (i, j)) {
        let p = choose|p: Seq<(int, int)>| #[trigger] flood_path(b, rows, cols, p) && p[0] == s && p.last() == (i, j);
        let k = p.len() - 1;
        assert(closed_unflagged(cell_at(b, p[k])));
        if (i, j) != s {
            assert(k >= 1);
            assert(!cell_at(b, p[k]).is_mine);
        }
    }
}

/// What a client is shown of a cell: without developer mode a closed cell does not tell
/// whether it is a mine; nothing else of any cell changes (position, openness, mark, number).
pub proof fn law_shown_cell_hides_only_closed_mines(cell: CellDto, dev_mode: bool)
    ensures
        shown_cell(cell, dev_mode).row == cell.row,
        shown_cell(cell, dev_mode).col == cell.col,
        shown_cell(cell, dev_mode).is_open == cell.is_open,
        shown_cell(cell, dev_mode).mark == cell.mark,
        shown_cell(cell, dev_mode).adjacent_mines == cell.adjacent_mines,
        shown_cell(cell, dev_mode).is_mine == (cell.is_mine && (dev_mode || cell.is_open)),
{
}

/// Acting on an open numbered cell (a chord) changes nothing when chording is off, and
/// nothing when the flags around it differ from its number unless its closed unflagged
/// neighbours are exactly the mines still unaccounted for. In that case those neighbours, and
/// only they, get a flag; nothing else changes.
pub proof fn law_chord_acts_only_when_forced(
    b: Seq<Seq<CellDto>>,
    rows: int,
    cols: int,
    p: (int, int),
    chord: bool,
    dev: bool,
    st: GameStatus,
)
    requires
        well_formed(b, rows, cols),
        in_bounds(rows, cols, p.0, p.1),
        b[p.0][p.1].is_open,
        b[p.0][p.1].adjacent_mines > 0,
    ensures
        ({
            let ns = neighbor_list(rows, cols, p.0, p.1);
            let flags = count_flags(b, ns);
            let closed = count_closed_unflagged(b, ns);
            let number = b[p.0][p.1].adjacent_mines;
            let res = open_cell_spec(b, rows, cols, p, chord, dev, st);
            &&& !chord ==> res == (b, st)
            &&& flags != number && !(closed == number - flags && closed > 0) ==> res == (b, st)
            &&& chord && closed == number - flags && closed > 0 ==> {
                &&& res.1 == st
                &&& well_formed(res.0, rows, cols)
                &&& forall|i: int, j: int| 0 <= i < rows && 0 <= j < cols ==> #[trigger] res.0[i][j] == if adjacent(
                    p.0,
                    p.1,
                    i,
                    j,
                ) && !b[i][j].is_open && b[i][j].mark != CellMark::Flag {
                    CellDto { mark: CellMark::Flag, ..b[i][j] }
                } else {
                    b[i][j]
                }
            }
        }),
{
    let ns = neighbor_list(rows, cols, p.0, p.1);
    lemma_neighbor_list(rows, cols, p.0, p.1);
    lemma_map_cells_shape(b, flag_around_fn(ns), rows, cols);
    let m = map_cells(b, flag_around_fn(ns));
    assert forall|i: int, j: int| 0 <= i < rows && 0 <= j < cols implies (ns.contains((i, j)) <==> adjacent(p.0, p.1, i, j)) by {
        if ns.contains((i, j)) {
            let w = choose|w: int| 0 <= w < ns.len() && ns[w] == (i, j);
            assert(ns[w] == (i, j));
        }
    }
}

/// Opening a cell that is a mine or has a mine around it opens that cell alone (when it is
/// closed and unflagged); every other cell is left as it was.
pub proof fn law_numbered_cell_opens_alone(b: Seq<Seq<CellDto>>, rows: int, cols: int, s: (int, int))
    requires
        well_formed(b, rows, cols),
        in_bounds(rows, cols, s.0, s.1),
        b[s.0][s.1].is_mine || b[s.0][s.1].adjacent_mines != 0,
    ensures
        forall|i: int, j: int| 0 <= i < rows && 0 <= j < cols ==> #[trigger] flood(b, rows, cols, s)[i][j] == if (i, j) == s
            && b[i][j].mark != CellMark::Flag {
            CellDto { is_open: true, ..b[i][j] }
        } else {
            b[i][j]
        },
{
    lemma_map_cells_shape(b, flood_fn(b, rows, cols, s), rows, cols);
    assert forall|i: int, j: int| 0 <= i < rows && 0 <= j < cols implies #[trigger] flood(b, rows, cols, s)[i][j] == if (i, j) == s
        && b[i][j].mark != CellMark::Flag {
        CellDto { is_open: true, ..b[i][j] }
    } else {
        b[i][j]
    } by {
        if flood_reaches(b, rows, cols, s, (i, j)) {
            let q = choose|q: Seq<(int, int)>| #[trigger] flood_path(b, rows, cols, q) && q[0] == s && q.last() == (i, j);
            if q.len() > 1 {
                assert(path_step(b, q, 0));
                assert(false);
            }
            assert(closed_unflagged(cell_at(b, q[0])));
        } else if (i, j) == s && b[i][j].mark != CellMark::Flag && !b[i][j].is_open {
            let q = seq![s];
            assert(flood_path(b, rows, cols, q));
            assert(false);
        }
    }
}

/// Opening a closed, unflagged safe cell with no mine around it opens it and every closed,
/// unflagged safe cell next to it.
pub proof fn law_empty_cell_opens_its_neighbours(b: Seq<Seq<CellDto>>, rows: int, cols: int, s: (int, int), x: (int, int))
    requires
        well_formed(b, rows, cols),
        in_bounds(rows, cols, s.0, s.1),
        !b[s.0][s.1].is_open && b[s.0][s.1].mark != CellMark::Flag,
        !b[s.0][s.1].is_mine && b[s.0][s.1].adjacent_mines == 0,
        in_bounds(rows, cols, x.0, x.1),
        adjacent(s.0, s.1, x.0, x.1),
        !b[x.0][x.1].is_open && b[x.0][x.1].mark != CellMark::Flag && !b[x.0][x.1].is_mine,
    ensures
        flood(b, rows, cols, s)[s.0][s.1].is_open,
        flood(b, rows, cols, s)[x.0][x.1].is_open,
{
    lemma_map_cells_shape(b, flood_fn(b, rows, cols, s), rows, cols);
    let q0 = seq![s];
    assert(flood_path(b, rows, cols, q0));
    assert(flood_reaches(b, rows, cols, s, s));
    let q = seq![s, x];
    assert(path_step(b, q, 0));
    assert(flood_path(b, rows, cols, q));
    assert(flood_reaches(b, rows, cols, s, x));
}

/// Opening spreads only from empty cells: every cell that opening `s` opens, other than `s`,
/// lies next to a cell that was closed, is safe with no mine around it, and is opened too.
pub proof fn law_spread_comes_from_an_empty_cell(b: Seq<Seq<CellDto>>, rows: int, cols: int, s: (int, int), x: (int, int))
    requires
        well_formed(b, rows, cols),
        in_bounds(rows, cols, x.0, x.1),
        x != s,
        !b[x.0][x.1].is_open,
        flood(b, rows, cols, s)[x.0][x.1].is_open,
    ensures
        exists|y: (int, int)| #[trigger] adjacent(y.0, y.1, x.0, x.1) && in_bounds(rows, cols, y.0, y.1) && !b[y.0][y.1].is_mine
            && b[y.0][y.1].adjacent_mines == 0 && !b[y.0][y.1].is_open && flood(b, rows, cols, s)[y.0][y.1].is_open,
{
    lemma_map_cells_shape(b, flood_fn(b, rows, cols, s), rows, cols);
    assert(flood_reaches(b, rows, cols, s, x));
    let q = choose|q: Seq<(int, int)>| #[trigger] flood_path(b, rows, cols, q) && q[0] == s && q.last() == x;
    let k = q.len() - 1;
    assert(k >= 1);
    assert(path_step(b, q, k - 1));
    let y = q[k - 1];
    let q2 = q.take(k);
    assert(q2.last() == y);
    assert forall|i: int| 0 <= i < q2.len() implies in_bounds(rows, cols, q2[i].0, q2[i].1) && closed_unflagged(
        #[trigger] cell_at(b, q2[i]),
    ) by {
        assert(q2[i] == q[i]);
        assert(closed_unflagged(cell_at(b, q[i])));
    }
    assert forall|i: int| 1 <= i < q2.len() implies !(#[trigger] cell_at(b, q2[i])).is_mine by {
        assert(q2[i] == q[i]);
        assert(!cell_at(b, q[i]).is_mine);
    }
    assert forall|i: int| 0 <= i < q2.len() - 1 implies #[trigger] path_step(b, q2, i) by {
        assert(q2[i] == q[i] && q2[i + 1] == q[i + 1]);
        assert(path_step(b, q, i));
    }
    assert(flood_path(b, rows, cols, q2));
    assert(flood_reaches(b, rows, cols, s, y));
    assert(in_bounds(rows, cols, y.0, y.1) && closed_unflagged(cell_at(b, q[k - 1])));
    assert(adjacent(y.0, y.1, x.0, x.1));
}

/// Opening a closed, unflagged cell keeps every mark, and opens the cell unless it is a mine
/// in developer mode.
proof fn lemma_open_closed_marks(b: Seq<Seq<CellDto>>, rows: int, cols: int, p: (int, int), dev: bool, st: GameStatus)
    requires
        well_formed(b, rows, cols),
        in_bounds(rows, cols, p.0, p.1),
        closed_unflagged(cell_at(b, p)),
    ensures
        forall|i: int, j: int| 0 <= i < rows && 0 <= j < cols ==> (#[trigger] open_closed(b, rows, cols, p, dev, st).0[i][j]).mark
            == b[i][j].mark,
        !dev ==> open_closed(b, rows, cols, p, dev, st).0[p.0][p.1].is_open,
{
    let res = open_closed(b, rows, cols, p, dev, st);
    if cell_at(b, p).is_mine {
        if !dev {
            let o = open_at(b, p);
            assert forall|r: int| 0 <= r < rows implies #[trigger] o[r].len() == cols by {
                assert(b[r].len() == cols);
            }
            lemma_map_cells_shape(o, reveal_mine_fn(), rows, cols);
            assert forall|i: int, j: int| 0 <= i < rows && 0 <= j < cols implies (#[trigger] res.0[i][j]).mark == b[i][j].mark by {
                assert(b[i].len() == cols);
            }
        }
    } else {
        lemma_map_cells_shape(b, flood_fn(b, rows, cols, p), rows, cols);
        let q = seq![p];
        assert(flood_path(b, rows, cols, q));
        assert(flood_reaches(b, rows, cols, p, p));
    }
}

proof fn lemma_chord_fold_opens(
    b: Seq<Seq<CellDto>>,
    rows: int,
    cols: int,
    st: GameStatus,
    ns: Seq<(int, int)>,
    k: nat,
)
    requires
        well_formed(b, rows, cols),
        k <= ns.len(),
        forall|i: int| 0 <= i < ns.len() ==> in_bounds(rows, cols, (#[trigger] ns[i]).0, ns[i].1),
    ensures
        forall|i: int, j: int| 0 <= i < rows && 0 <= j < cols ==> (#[trigger] chord_fold(b, rows, cols, st, ns, false, k).0[i][j]).mark
            == b[i][j].mark,
        forall|w: int| 0 <= w < k && closed_unflagged(cell_at(b, #[trigger] ns[w])) ==> cell_at(
            chord_fold(b, rows, cols, st, ns, false, k).0,
            ns[w],
        ).is_open,
    decreases k,
{
    lemma_progress_chord(b, rows, cols, st, ns, false, k);
    if k > 0 {
        lemma_chord_fold_opens(b, rows, cols, st, ns, (k - 1) as nat);
        lemma_progress_chord(b, rows, cols, st, ns, false, (k - 1) as nat);
        let prev = chord_fold(b, rows, cols, st, ns, false, (k - 1) as nat);
        let next = chord_fold(b, rows, cols, st, ns, false, k);
        let y = ns[k - 1];
        assert(next == chord_step(prev.0, rows, cols, prev.1, y, false));
        if closed_unflagged(cell_at(prev.0, y)) {
            lemma_open_closed_marks(prev.0, rows, cols, y, false, prev.1);
            lemma_progress_open_closed(prev.0, rows, cols, y, false, prev.1);
        }
        assert forall|w: int| 0 <= w < k && closed_unflagged(cell_at(b, #[trigger] ns[w])) implies cell_at(next.0, ns[w]).is_open by {
            let z = ns[w];
            if w < k - 1 {
                assert(cell_at(prev.0, z).is_open);
                assert(prev.0[z.0][z.1].is_open);
            } else {
                assert(prev.0[z.0][z.1].mark == b[z.0][z.1].mark);
            }
        }
    }
}

/// A chord on an open numbered cell whose flags match its number opens every closed,
/// unflagged neighbour (outside developer mode), and changes no mark.
pub proof fn law_matched_chord_opens_the_neighbours(
    b: Seq<Seq<CellDto>>,
    rows: int,
    cols: int,
    p: (int, int),
    st: GameStatus,
    x: (int, int),
)
    requires
        well_formed(b, rows, cols),
        in_bounds(rows, cols, p.0, p.1),
        b[p.0][p.1].is_open,
        b[p.0][p.1].adjacent_mines > 0,
        count_flags(b, neighbor_list(rows, cols, p.0, p.1)) == b[p.0][p.1].adjacent_mines,
        in_bounds(rows, cols, x.0, x.1),
        adjacent(p.0, p.1, x.0, x.1),
        !b[x.0][x.1].is_open && b[x.0][x.1].mark != CellMark::Flag,
    ensures
        open_cell_spec(b, rows, cols, p, true, false, st).0[x.0][x.1].is_open,
        forall|i: int, j: int| 0 <= i < rows && 0 <= j < cols ==> (#[trigger] open_cell_spec(b, rows, cols, p, true, false, st).0[i][j]).mark
            == b[i][j].mark,
{
    let ns = neighbor_list(rows, cols, p.0, p.1);
    lemma_neighbor_list(rows, cols, p.0, p.1);
    assert(ns.contains(x));
    let w = choose|w: int| 0 <= w < ns.len() && ns[w] == x;
    lemma_chord_fold_opens(b, rows, cols, st, ns, ns.len());
    assert(closed_unflagged(cell_at(b, ns[w])));
}

} // verus!
