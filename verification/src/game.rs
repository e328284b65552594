//! Moves of a single minesweeper game: opening, chording and marking cells.
use vstd::prelude::*;
use crate::board::{
    board_view, cell_at, closed_unflagged, count_closed_unflagged, count_closed_unflagged_at, count_flags,
    count_flags_at, flagged, in_bounds, lemma_map_cells_shape, lemma_neighbor_list, lemma_view_shape, map_cells,
    mines_revealed, neighbor_list, neighbors, opened, pairs_view, reveal_all_mines, set_cell, well_formed, CellDto,
    CellMark, GameStatus,
};
use crate::board::{all_safe_open, calculate_numbers, check_win, flag_all_mines, mines_flagged, numbered};
use crate::errors::ApiError;
use crate::flood::{flood, flood_fn, reveal_empty};
use crate::mines::{new_board, new_board_spec, relocate_mines_from_zone, relocated};
use crate::online::{game_default_settings, params_valid, time_seed, time_seed_of, validate_params, default_lobby_settings};
use crate::text::str_eq;

verus! {

/// Per-game options chosen when the game is created.
#[derive(Clone, Debug)]
pub struct GameSettingsDto {
    pub field_generation: String,
    pub show_question_marks: bool,
    pub enable_chord: bool,
    pub dev_mode: bool,
}

/// The board with the cell at `p` opened.
pub open spec fn open_at(b: Seq<Seq<CellDto>>, p: (int, int)) -> Seq<Seq<CellDto>> {
    b.update(p.0, b[p.0].update(p.1, opened(b[p.0][p.1])))
}

/// Opening a closed, unflagged cell: a mine loses the game (except in developer mode,
/// where nothing happens), any other cell opens with the region it spreads to.
pub open spec fn open_closed(
    b: Seq<Seq<CellDto>>,
    rows: int,
    cols: int,
    p: (int, int),
    dev_mode: bool,
    st: GameStatus,
) -> (Seq<Seq<CellDto>>, GameStatus) {
    if cell_at(b, p).is_mine {
        if dev_mode {
            (b, st)
        } else {
            (mines_revealed(open_at(b, p)), GameStatus::Lost)
        }
    } else {
        (flood(b, rows, cols, p), st)
    }
}

/// One step of a chord: open the neighbour `y` if it is closed and unflagged.
pub open spec fn chord_step(
    b: Seq<Seq<CellDto>>,
    rows: int,
    cols: int,
    st: GameStatus,
    y: (int, int),
    dev_mode: bool,
) -> (Seq<Seq<CellDto>>, GameStatus) {
    if closed_unflagged(cell_at(b, y)) {
        open_closed(b, rows, cols, y, dev_mode, st)
    } else {
        (b, st)
    }
}

/// The first `k` chord steps over the neighbours `ns`, in order.
pub open spec fn chord_fold(
    b: Seq<Seq<CellDto>>,
    rows: int,
    cols: int,
    st: GameStatus,
    ns: Seq<(int, int)>,
    dev_mode: bool,
    k: nat,
) -> (Seq<Seq<CellDto>>, GameStatus)
    decreases k,
{
    if k == 0 {
        (b, st)
    } else {
        let prev = chord_fold(b, rows, cols, st, ns, dev_mode, (k - 1) as nat);
        chord_step(prev.0, rows, cols, prev.1, ns[k - 1], dev_mode)
    }
}

pub open spec fn flag_around_fn(ns: Seq<(int, int)>) -> spec_fn(int, int, CellDto) -> CellDto {
    |r: int, c: int, cell: CellDto| if ns.contains((r, c)) && closed_unflagged(cell) { flagged(cell) } else { cell }
}

/// Result of acting on the cell at `p`:
/// - an open numbered cell is a chord: when its closed unflagged neighbours are exactly the
///   mines still unaccounted for, they are all flagged; otherwise, when the flags around it
///   match its number, every closed unflagged neighbour is opened in turn;
/// - a closed unflagged cell is opened;
/// - anything else is left alone.
pub open spec fn open_cell_spec(
    b: Seq<Seq<CellDto>>,
    rows: int,
    cols: int,
    p: (int, int),
    enable_chord: bool,
    dev_mode: bool,
    st: GameStatus,
) -> (Seq<Seq<CellDto>>, GameStatus) {
    let cell = cell_at(b, p);
    let ns = neighbor_list(rows, cols, p.0, p.1);
    if cell.is_open && cell.adjacent_mines > 0 {
        if !enable_chord {
            (b, st)
        } else if count_closed_unflagged(b, ns) == cell.adjacent_mines - count_flags(b, ns)
            && count_closed_unflagged(b, ns) > 0 {
            (map_cells(b, flag_around_fn(ns)), st)
        } else if count_flags(b, ns) == cell.adjacent_mines {
            chord_fold(b, rows, cols, st, ns, dev_mode, ns.len())
        } else {
            (b, st)
        }
    } else if cell.is_open || cell.mark == CellMark::Flag {
        (b, st)
    } else {
        open_closed(b, rows, cols, p, dev_mode, st)
    }
}

proof fn lemma_open_closed_shape(b: Seq<Seq<CellDto>>, rows: int, cols: int, p: (int, int), dev_mode: bool, st: GameStatus)
    requires
        well_formed(b, rows, cols),
        in_bounds(rows, cols, p.0, p.1),
    ensures
        well_formed(open_closed(b, rows, cols, p, dev_mode, st).0, rows, cols),
{
    if cell_at(b, p).is_mine {
        if !dev_mode {
            let o = open_at(b, p);
            assert forall|r: int| 0 <= r < rows implies #[trigger] o[r].len() == cols by {
                assert(b[r].len() == cols);
            }
            lemma_map_cells_shape(o, crate::board::reveal_mine_fn(), rows, cols);
        }
    } else {
        lemma_map_cells_shape(b, flood_fn(b, rows, cols, p), rows, cols);
    }
}

proof fn lemma_open_cell_shape(
    b: Seq<Seq<CellDto>>,
    rows: int,
    cols: int,
    p: (int, int),
    enable_chord: bool,
    dev_mode: bool,
    st: GameStatus,
)
    requires
        well_formed(b, rows, cols),
        in_bounds(rows, cols, p.0, p.1),
    ensures
        well_formed(open_cell_spec(b, rows, cols, p, enable_chord, dev_mode, st).0, rows, cols),
{
    let cell = cell_at(b, p);
    let ns = neighbor_list(rows, cols, p.0, p.1);
    if cell.is_open && cell.adjacent_mines > 0 {
        if enable_chord {
            if count_closed_unflagged(b, ns) == cell.adjacent_mines - count_flags(b, ns) && count_closed_unflagged(b, ns) > 0 {
                lemma_map_cells_shape(b, flag_around_fn(ns), rows, cols);
            } else if count_flags(b, ns) == cell.adjacent_mines {
                lemma_neighbor_list(rows, cols, p.0, p.1);
                lemma_chord_fold_shape(b, rows, cols, st, ns, dev_mode, ns.len());
            }
        }
    } else if !(cell.is_open || cell.mark == CellMark::Flag) {
        lemma_open_closed_shape(b, rows, cols, p, dev_mode, st);
    }
}

proof fn lemma_chord_fold_shape(
    b: Seq<Seq<CellDto>>,
    rows: int,
    cols: int,
    st: GameStatus,
    ns: Seq<(int, int)>,
    dev_mode: bool,
    k: nat,
)
    requires
        well_formed(b, rows, cols),
        k <= ns.len(),
        forall|i: int| 0 <= i < ns.len() ==> in_bounds(rows, cols, (#[trigger] ns[i]).0, ns[i].1),
    ensures
        well_formed(chord_fold(b, rows, cols, st, ns, dev_mode, k).0, rows, cols),
    decreases k,
{
    if k > 0 {
        lemma_chord_fold_shape(b, rows, cols, st, ns, dev_mode, (k - 1) as nat);
        let prev = chord_fold(b, rows, cols, st, ns, dev_mode, (k - 1) as nat);
        let y = ns[k - 1];
        if closed_unflagged(cell_at(prev.0, y)) {
            lemma_open_closed_shape(prev.0, rows, cols, y, dev_mode, prev.1);
        }
    }
}

/// Opens a closed, unflagged cell (see `open_closed`).
fn open_closed_cell(
    board: &mut Vec<Vec<CellDto>>,
    rows: i32,
    cols: i32,
    row: i32,
    col: i32,
    dev_mode: bool,
    status: &mut GameStatus,
)
    requires
        well_formed(board_view(old(board)), rows as int, cols as int),
        in_bounds(rows as int, cols as int, row as int, col as int),
    ensures
        (board_view(final(board)), *final(status)) == open_closed(
            board_view(old(board)),
            rows as int,
            cols as int,
            (row as int, col as int),
            dev_mode,
            *old(status),
        ),
{
    let ghost b0 = board_view(board);
    proof {
        lemma_view_shape(board);
        assert(b0[row as int].len() == cols);
    }
    let cell = board[row as usize][col as usize];
    assert(cell == b0[row as int][col as int]);
    if cell.is_mine {
        if dev_mode {
            return;
        }
        let mut opened_cell = cell;
        opened_cell.is_open = true;
        set_cell(board, row as usize, col as usize, opened_cell);
        proof {
            let o = board_view(board);
            assert(o == open_at(b0, (row as int, col as int)));
            assert forall|r: int| 0 <= r < rows implies #[trigger] o[r].len() == cols by {
                assert(b0[r].len() == cols);
            }
        }
        reveal_all_mines(board, rows, cols);
        *status = GameStatus::Lost;
        return;
    }
    reveal_empty(board, rows, cols, row, col);
}

/// Acts on the cell at `(row, col)`: opens it, or chords around an open numbered cell
/// (see `open_cell_spec`).
pub fn open_cell(
    board: &mut Vec<Vec<CellDto>>,
    rows: i32,
    cols: i32,
    row: i32,
    col: i32,
    settings: &GameSettingsDto,
    status: &mut GameStatus,
)
    requires
        well_formed(board_view(old(board)), rows as int, cols as int),
        in_bounds(rows as int, cols as int, row as int, col as int),
    ensures
        (board_view(final(board)), *final(status)) == open_cell_spec(
            board_view(old(board)),
            rows as int,
            cols as int,
            (row as int, col as int),
            settings.enable_chord,
            settings.dev_mode,
            *old(status),
        ),
        well_formed(board_view(final(board)), rows as int, cols as int),
    decreases (if board_view(old(board))[row as int][col as int].is_open { 1nat } else { 0nat }),
{
    let ghost b0 = board_view(board);
    let ghost st0 = *status;
    let ghost p = (row as int, col as int);
    proof {
        lemma_view_shape(board);
        assert(b0[row as int].len() == cols);
        lemma_open_cell_shape(b0, rows as int, cols as int, p, settings.enable_chord, settings.dev_mode, st0);
    }
    let cell = board[row as usize][col as usize];
    assert(cell == b0[row as int][col as int]);
    if cell.is_open && cell.adjacent_mines > 0 {
        if !settings.enable_chord {
            return;
        }
        let ns = neighbors(rows, cols, row, col);
        let ghost nl = neighbor_list(rows as int, cols as int, row as int, col as int);
        proof {
            lemma_neighbor_list(rows as int, cols as int, row as int, col as int);
            assert forall|i: int| 0 <= i < ns@.len() implies {
                let q = #[trigger] ns@[i];
                0 <= q.0 < board@.len() && 0 <= q.1 < board@[q.0 as int]@.len()
            } by {
                assert(pairs_view(ns@)[i] == nl[i]);
                assert(b0[ns@[i].0 as int].len() == cols);
            }
        }
        let flagged_count = count_flags_at(board, &ns);
        let closed_count = count_closed_unflagged_at(board, &ns);
        if closed_count as i32 == cell.adjacent_mines - flagged_count as i32 && closed_count > 0 {
            let ghost f = flag_around_fn(nl);
            let mut k: usize = 0;
            while k < ns.len()
                invariant
                    0 <= k <= ns@.len(),
                    pairs_view(ns@) == nl,
                    nl.len() <= 8,
                    nl.no_duplicates(),
                    forall|i: int| 0 <= i < nl.len() ==> in_bounds(rows as int, cols as int, (#[trigger] nl[i]).0, nl[i].1),
                    well_formed(b0, rows as int, cols as int),
                    f == flag_around_fn(nl),
                    well_formed(board_view(board), rows as int, cols as int),
                    forall|i: int, j: int| 0 <= i < rows && 0 <= j < cols ==> #[trigger] board_view(board)[i][j] == if nl.take(
                        k as int,
                    ).contains((i, j)) && closed_unflagged(b0[i][j]) {
                        flagged(b0[i][j])
                    } else {
                        b0[i][j]
                    },
                decreases ns@.len() - k,
            {
                let (nr, nc) = ns[k];
                let ghost y = (nr as int, nc as int);
                let ghost bk = board_view(board);
                assert(pairs_view(ns@)[k as int] == nl[k as int]);
                assert(nl[k as int] == y);
                proof {
                    lemma_view_shape(board);
                    assert(bk[nr as int].len() == cols);
                    assert(!nl.take(k as int).contains(y)) by {
                        if nl.take(k as int).contains(y) {
                            let w = choose|w: int| 0 <= w < k && nl.take(k as int)[w] == y;
                            assert(nl[w] == nl[k as int]);
                        }
                    }
                    assert(bk[nr as int][nc as int] == b0[nr as int][nc as int]);
                }
                let mut c = board[nr as usize][nc as usize];
                if !c.is_open && c.mark != CellMark::Flag {
                    c.mark = CellMark::Flag;
                }
                set_cell(board, nr as usize, nc as usize, c);
                proof {
                    let bn = board_view(board);
                    assert forall|r: int| 0 <= r < rows implies #[trigger] bn[r].len() == cols by {
                        assert(bk[r].len() == cols);
                    }
                    assert forall|i: int, j: int| 0 <= i < rows && 0 <= j < cols implies #[trigger] bn[i][j] == if nl.take(
                        k + 1,
                    ).contains((i, j)) && closed_unflagged(b0[i][j]) {
                        flagged(b0[i][j])
                    } else {
                        b0[i][j]
                    } by {
                        assert(bk[i].len() == cols);
                        let t1 = nl.take(k + 1);
                        let t0 = nl.take(k as int);
                        assert(t1 == t0.push(y));
                        if (i, j) == y {
                            assert(t1[k as int] == y);
                        } else {
                            assert(bn[i][j] == bk[i][j]);
                            if t1.contains((i, j)) {
                                let w = choose|w: int| 0 <= w < t1.len() && t1[w] == (i, j);
                                assert(t0[w] == (i, j));
                            }
                            if t0.contains((i, j)) {
                                let w = choose|w: int| 0 <= w < t0.len() && t0[w] == (i, j);
                                assert(t1[w] == (i, j));
                            }
                        }
                    }
                }
                k = k + 1;
            }
            proof {
                let bn = board_view(board);
                let m = map_cells(b0, f);
                assert(nl.take(nl.len() as int) =~= nl);
                lemma_map_cells_shape(b0, f, rows as int, cols as int);
                assert forall|i: int| 0 <= i < rows implies #[trigger] bn[i] == m[i] by {
                    assert(bn[i] =~= m[i]);
                }
                assert(bn =~= m);
            }
            return;
        }
        if flagged_count as i32 == cell.adjacent_mines {
            let mut k: usize = 0;
            while k < ns.len()
                invariant
                    0 <= k <= ns@.len(),
                    pairs_view(ns@) == nl,
                    nl == neighbor_list(rows as int, cols as int, row as int, col as int),
                    nl.len() <= 8,
                    forall|i: int| 0 <= i < nl.len() ==> in_bounds(rows as int, cols as int, (#[trigger] nl[i]).0, nl[i].1),
                    b0[row as int][col as int].is_open,
                    b0 == board_view(old(board)),
                    (board_view(board), *status) == chord_fold(b0, rows as int, cols as int, st0, nl, settings.dev_mode, k as nat),
                    well_formed(board_view(board), rows as int, cols as int),
                decreases ns@.len() - k,
            {
                let (nr, nc) = ns[k];
                let ghost y = (nr as int, nc as int);
                let ghost bk = board_view(board);
                assert(pairs_view(ns@)[k as int] == nl[k as int]);
                assert(nl[k as int] == y);
                proof {
                    lemma_view_shape(board);
                    assert(bk[nr as int].len() == cols);
                }
                if !board[nr as usize][nc as usize].is_open && board[nr as usize][nc as usize].mark != CellMark::Flag {
                    assert(closed_unflagged(bk[nr as int][nc as int]));
                    open_cell(board, rows, cols, nr, nc, settings, status);
                    proof {
                        lemma_open_closed_shape(bk, rows as int, cols as int, y, settings.dev_mode, st0);
                    }
                }
                k = k + 1;
            }
            assert(nl.len() == ns@.len());
        }
        return;
    }
    if cell.is_open || cell.mark == CellMark::Flag {
        return;
    }
    open_closed_cell(board, rows, cols, row, col, settings.dev_mode, status);
}

/// Parameters of a new game.
#[derive(Clone, Debug)]
pub struct CreateGameRequest {
    pub rows: i32,
    pub cols: i32,
    pub mines: i32,
    pub seed: Option<i32>,
    pub settings: Option<GameSettingsDto>,
}

/// A cell a player acts on.
#[derive(Clone, Copy, Debug)]
pub struct CellActionRequest {
    pub row: i32,
    pub col: i32,
}

/// Query options when reading a game.
#[derive(Clone, Copy, Debug)]
pub struct GameStateQuery {
    pub dev_mode: Option<bool>,
}

/// A game as shown to a client.
#[derive(Clone, Debug)]
pub struct GameStateResponse {
    pub game_id: String,
    pub board: Vec<Vec<CellDto>>,
    pub game_status: GameStatus,
    pub rows: i32,
    pub cols: i32,
    pub mines: i32,
    pub seed: i32,
    pub time: i32,
}

/// What a move did.
#[derive(Clone, Copy, Debug, PartialEq, Eq, Structural)]
pub enum MoveOutcome {
    /// The game was already over; nothing changed and nothing needs saving.
    Unchanged,
    /// The move was applied; `started` is set when it was the first opening of the game.
    Applied { status: GameStatus, started: bool },
}

/// A won or lost game.
pub open spec fn is_finished(st: GameStatus) -> bool {
    st == GameStatus::Won || st == GameStatus::Lost
}

/// Board and status after opening `p` in a game that is not over.
/// The first opening of a game (status `Idle`) first moves the mines out of the zone around
/// `p` (unless the field is fully random), computes the numbers and starts play.
/// A move that leaves every safe cell open wins and flags every mine.
pub open spec fn reveal_result(
    b: Seq<Seq<CellDto>>,
    rows: int,
    cols: int,
    st: GameStatus,
    random_field: bool,
    enable_chord: bool,
    dev_mode: bool,
    p: (int, int),
) -> (Seq<Seq<CellDto>>, GameStatus) {
    let prepared = if st == GameStatus::Idle {
        (numbered(if random_field { b } else { relocated(b, rows, cols, p.0, p.1) }, rows, cols), GameStatus::Playing)
    } else {
        (b, st)
    };
    let after = open_cell_spec(prepared.0, rows, cols, p, enable_chord, dev_mode, prepared.1);
    if after.1 != GameStatus::Lost && all_safe_open(after.0) {
        (mines_flagged(after.0), GameStatus::Won)
    } else {
        after
    }
}

/// Whether the settings ask for a fully random field (no safe first opening).
pub open spec fn random_field(settings: GameSettingsDto) -> bool {
    settings.field_generation@ == "random"@
}

/// Whether the board has `rows` rows of `cols` cells.
pub fn board_has_shape(board: &Vec<Vec<CellDto>>, rows: i32, cols: i32) -> (ok: bool)
    ensures
        ok == well_formed(board_view(board), rows as int, cols as int),
{
    proof { lemma_view_shape(board); }
    if rows < 0 || cols < 0 || board.len() != rows as usize {
        return false;
    }
    let mut r: usize = 0;
    while r < board.len()
        invariant
            0 <= r <= board@.len(),
            board@.len() == rows,
            0 <= rows,
            0 <= cols,
            forall|i: int| 0 <= i < r ==> #[trigger] board_view(board)[i].len() == cols,
        decreases board@.len() - r,
    {
        proof { lemma_view_shape(board); }
        if board[r].len() != cols as usize {
            assert(board_view(board)[r as int].len() != cols);
            return false;
        }
        r = r + 1;
    }
    true
}

/// Opens the cell `(row, col)` of a game: see `reveal_result`.
/// A finished game is left unchanged; a cell outside the board is refused.
pub fn reveal_move(
    board: &mut Vec<Vec<CellDto>>,
    rows: i32,
    cols: i32,
    status: GameStatus,
    settings: &GameSettingsDto,
    row: i32,
    col: i32,
) -> (res: Result<MoveOutcome, ApiError>)
    requires
        well_formed(board_view(old(board)), rows as int, cols as int),
    ensures
        is_finished(status) ==> res == Ok::<MoveOutcome, ApiError>(MoveOutcome::Unchanged) && board_view(final(board)) == board_view(old(board)),
        !is_finished(status) && !in_bounds(rows as int, cols as int, row as int, col as int) ==>
            res == Err::<MoveOutcome, ApiError>(ApiError::InvalidCell) && board_view(final(board)) == board_view(old(board)),
        !is_finished(status) && in_bounds(rows as int, cols as int, row as int, col as int) ==> {
            let expected = reveal_result(
                board_view(old(board)),
                rows as int,
                cols as int,
                status,
                random_field(*settings),
                settings.enable_chord,
                settings.dev_mode,
                (row as int, col as int),
            );
            &&& res == Ok::<MoveOutcome, ApiError>(MoveOutcome::Applied { status: expected.1, started: status == GameStatus::Idle })
            &&& board_view(final(board)) == expected.0
        },
        well_formed(board_view(final(board)), rows as int, cols as int),
{
    if status == GameStatus::Won || status == GameStatus::Lost {
        return Ok(MoveOutcome::Unchanged);
    }
    if row < 0 || col < 0 || row >= rows || col >= cols {
        return Err(ApiError::InvalidCell);
    }
    let mut st = status;
    let started = status == GameStatus::Idle;
    if started {
        if !str_eq(settings.field_generation.as_str(), "random") {
            relocate_mines_from_zone(board, rows, cols, row, col);
        }
        calculate_numbers(board, rows, cols);
        proof {
            let b = board_view(old(board));
            let pre = if random_field(*settings) { b } else { relocated(b, rows as int, cols as int, row as int, col as int) };
            lemma_map_cells_shape(pre, crate::board::number_fn(pre, rows as int, cols as int), rows as int, cols as int);
        }
        st = GameStatus::Playing;
    }
    open_cell(board, rows, cols, row, col, settings, &mut st);
    if st != GameStatus::Lost && check_win(board) {
        st = GameStatus::Won;
        let ghost before = board_view(board);
        flag_all_mines(board);
        proof { lemma_map_cells_shape(before, crate::board::flag_mine_fn(), rows as int, cols as int); }
    }
    Ok(MoveOutcome::Applied { status: st, started })
}

/// The mark a closed cell gets when marked again: none, flag, question (when enabled), none.
pub open spec fn next_mark(m: CellMark, show_question_marks: bool) -> CellMark {
    match m {
        CellMark::Unmarked => CellMark::Flag,
        CellMark::Flag => if show_question_marks { CellMark::Question } else { CellMark::Unmarked },
        CellMark::Question => CellMark::Unmarked,
    }
}

/// The board after marking `p`: a closed cell moves to its next mark, an open cell is untouched.
pub open spec fn mark_result(b: Seq<Seq<CellDto>>, p: (int, int), show_question_marks: bool) -> Seq<Seq<CellDto>> {
    let cell = cell_at(b, p);
    if cell.is_open {
        b
    } else {
        b.update(p.0, b[p.0].update(p.1, CellDto { mark: next_mark(cell.mark, show_question_marks), ..cell }))
    }
}

/// Cycles the mark of the closed cell `(row, col)`.
/// A finished game is left unchanged; a cell outside the board is refused.
pub fn mark_move(
    board: &mut Vec<Vec<CellDto>>,
    rows: i32,
    cols: i32,
    status: GameStatus,
    settings: &GameSettingsDto,
    row: i32,
    col: i32,
) -> (res: Result<MoveOutcome, ApiError>)
    requires
        well_formed(board_view(old(board)), rows as int, cols as int),
    ensures
        is_finished(status) ==> res == Ok::<MoveOutcome, ApiError>(MoveOutcome::Unchanged) && board_view(final(board)) == board_view(old(board)),
        !is_finished(status) && !in_bounds(rows as int, cols as int, row as int, col as int) ==>
            res == Err::<MoveOutcome, ApiError>(ApiError::InvalidCell) && board_view(final(board)) == board_view(old(board)),
        !is_finished(status) && in_bounds(rows as int, cols as int, row as int, col as int) ==>
            res == Ok::<MoveOutcome, ApiError>(MoveOutcome::Applied { status, started: false })
            && board_view(final(board)) == mark_result(board_view(old(board)), (row as int, col as int), settings.show_question_marks),
        well_formed(board_view(final(board)), rows as int, cols as int),
{
    if status == GameStatus::Won || status == GameStatus::Lost {
        return Ok(MoveOutcome::Unchanged);
    }
    if row < 0 || col < 0 || row >= rows || col >= cols {
        return Err(ApiError::InvalidCell);
    }
    proof {
        lemma_view_shape(board);
        assert(board_view(board)[row as int].len() == cols);
    }
    let mut cell = board[row as usize][col as usize];
    if !cell.is_open {
        cell.mark = match cell.mark {
            CellMark::Unmarked => CellMark::Flag,
            CellMark::Flag => {
                if settings.show_question_marks {
                    CellMark::Question
                } else {
                    CellMark::Unmarked
                }
            },
            CellMark::Question => CellMark::Unmarked,
        };
        set_cell(board, row as usize, col as usize, cell);
        proof {
            let b = board_view(old(board));
            let bn = board_view(board);
            assert forall|r: int| 0 <= r < rows implies #[trigger] bn[r].len() == cols by {
                assert(b[r].len() == cols);
            }
        }
    }
    Ok(MoveOutcome::Applied { status, started: false })
}

/// Status named by a stored string; anything unknown counts as `Idle`.
pub open spec fn status_from(raw: Seq<char>) -> GameStatus {
    if raw == "playing"@ {
        GameStatus::Playing
    } else if raw == "won"@ {
        GameStatus::Won
    } else if raw == "lost"@ {
        GameStatus::Lost
    } else {
        GameStatus::Idle
    }
}

/// Stored name of a status.
pub open spec fn status_text(st: GameStatus) -> Seq<char> {
    match st {
        GameStatus::Idle => "idle"@,
        GameStatus::Playing => "playing"@,
        GameStatus::Won => "won"@,
        GameStatus::Lost => "lost"@,
    }
}

/// Reads a stored status name; anything unknown counts as `Idle`.
pub fn parse_status(raw: &str) -> (st: GameStatus)
    ensures
        st == status_from(raw@),
{
    if str_eq(raw, "playing") {
        GameStatus::Playing
    } else if str_eq(raw, "won") {
        GameStatus::Won
    } else if str_eq(raw, "lost") {
        GameStatus::Lost
    } else {
        GameStatus::Idle
    }
}

/// Stored name of a status.
pub fn status_to_str(status: GameStatus) -> (text: &'static str)
    ensures
        text@ == status_text(status),
{
    match status {
        GameStatus::Idle => "idle",
        GameStatus::Playing => "playing",
        GameStatus::Won => "won",
        GameStatus::Lost => "lost",
    }
}

/// Reading back the stored name of a status gives the same status.
pub proof fn law_status_round_trip(st: GameStatus)
    ensures
        status_from(status_text(st)) == st,
{
    reveal_strlit("idle");
    reveal_strlit("playing");
    reveal_strlit("won");
    reveal_strlit("lost");
    assert("idle"@ != "playing"@ && "idle"@ != "won"@ && "idle"@ != "lost"@) by {
        assert("idle"@[0] != "playing"@[0]);
        assert("idle"@.len() != "won"@.len());
        assert("idle"@[0] != "lost"@[0]);
    }
    assert("won"@ != "playing"@) by {
        assert("won"@.len() != "playing"@.len());
    }
    assert("lost"@ != "playing"@ && "lost"@ != "won"@) by {
        assert("lost"@.len() != "playing"@.len());
        assert("lost"@.len() != "won"@.len());
    }
}

/// The cell a client sees: without developer mode, a closed cell never shows its mine.
pub open spec fn shown_cell(cell: CellDto, dev_mode: bool) -> CellDto {
    if !dev_mode && !cell.is_open { CellDto { is_mine: false, ..cell } } else { cell }
}

/// Hides the mines of closed cells unless developer mode is on.
pub fn mask_board(board: &mut Vec<Vec<CellDto>>, dev_mode: bool)
    ensures
        board_view(final(board)).len() == board_view(old(board)).len(),
        forall|i: int| 0 <= i < board_view(old(board)).len() ==> #[trigger] board_view(final(board))[i].len() == board_view(old(board))[i].len(),
        forall|i: int, j: int| 0 <= i < board_view(old(board)).len() && 0 <= j < board_view(old(board))[i].len() ==>
            #[trigger] board_view(final(board))[i][j] == shown_cell(board_view(old(board))[i][j], dev_mode),
{
    let ghost b0 = board_view(board);
    if dev_mode {
        return;
    }
    let n = board.len();
    let mut r: usize = 0;
    while r < n
        invariant
            0 <= r <= n,
            n == b0.len(),
            !dev_mode,
            board_view(board).len() == n,
            forall|i: int| 0 <= i < n ==> #[trigger] board_view(board)[i].len() == b0[i].len(),
            forall|i: int, j: int| 0 <= i < n && 0 <= j < b0[i].len() ==>
                #[trigger] board_view(board)[i][j] == if i < r { shown_cell(b0[i][j], dev_mode) } else { b0[i][j] },
        decreases n - r,
    {
        proof {
            lemma_view_shape(board);
            assert(board_view(board)[r as int].len() == b0[r as int].len());
        }
        let m = board[r].len();
        let mut c: usize = 0;
        while c < m
            invariant
                0 <= r < n,
                0 <= c <= m,
                n == b0.len(),
                m == b0[r as int].len(),
                !dev_mode,
                board_view(board).len() == n,
                forall|i: int| 0 <= i < n ==> #[trigger] board_view(board)[i].len() == b0[i].len(),
                forall|i: int, j: int| 0 <= i < n && 0 <= j < b0[i].len() ==>
                    #[trigger] board_view(board)[i][j] == if i < r || (i == r && j < c) { shown_cell(b0[i][j], dev_mode) } else { b0[i][j] },
            decreases m - c,
        {
            proof {
                lemma_view_shape(board);
                assert(board_view(board)[r as int].len() == b0[r as int].len());
            }
            let mut cell = board[r][c];
            if !cell.is_open {
                cell.is_mine = false;
            }
            let ghost bk = board_view(board);
            set_cell(board, r, c, cell);
            proof {
                let bn = board_view(board);
                assert forall|i: int| 0 <= i < n implies #[trigger] bn[i].len() == b0[i].len() by {
                    assert(bk[i].len() == b0[i].len());
                }
                assert forall|i: int, j: int| 0 <= i < n && 0 <= j < b0[i].len() implies
                    #[trigger] bn[i][j] == if i < r || (i == r && j < c + 1) { shown_cell(b0[i][j], dev_mode) } else { b0[i][j] } by {
                    assert(bk[i].len() == b0[i].len());
                    if !(i == r && j == c) {
                        assert(bn[i][j] == bk[i][j]);
                    }
                }
            }
            c = c + 1;
        }
        r = r + 1;
    }
}

/// The game as shown to a client: the status is read from its stored name and,
/// unless developer mode is on, closed cells do not show their mines.
pub fn build_state_response(
    game_id: String,
    board: Vec<Vec<CellDto>>,
    game_status: &str,
    rows: i32,
    cols: i32,
    mines: i32,
    seed: i32,
    time: i32,
    dev_mode: bool,
) -> (resp: GameStateResponse)
    ensures
        resp.game_id == game_id,
        resp.game_status == status_from(game_status@),
        resp.rows == rows && resp.cols == cols && resp.mines == mines && resp.seed == seed && resp.time == time,
        board_view(&resp.board).len() == board_view(&board).len(),
        forall|i: int| 0 <= i < board_view(&board).len() ==> #[trigger] board_view(&resp.board)[i].len() == board_view(&board)[i].len(),
        forall|i: int, j: int| 0 <= i < board_view(&board).len() && 0 <= j < board_view(&board)[i].len() ==>
            #[trigger] board_view(&resp.board)[i][j] == shown_cell(board_view(&board)[i][j], dev_mode),
{
    let mut shown = board;
    mask_board(&mut shown, dev_mode);
    GameStateResponse {
        game_id,
        board: shown,
        game_status: parse_status(game_status),
        rows,
        cols,
        mines,
        seed,
        time,
    }
}

/// A new game: its seed, settings and board.
#[derive(Debug)]
pub struct GamePlan {
    pub seed: i32,
    pub settings: GameSettingsDto,
    pub board: Vec<Vec<CellDto>>,
}

/// Prepares a new game: the parameters must be valid; the seed is the requested one or one
/// taken from the clock; settings default to a safe first opening with question marks and
/// chording; the board gets its mines from the seed.
pub fn plan_game(req: CreateGameRequest, now_millis: i64) -> (res: Result<GamePlan, ApiError>)
    ensures
        !params_valid(req.rows as int, req.cols as int, req.mines as int) ==> res == Err::<GamePlan, ApiError>(ApiError::InvalidGameParams),
        params_valid(req.rows as int, req.cols as int, req.mines as int) ==> (res matches Ok(plan) && {
            let seed = match req.seed {
                Some(s) => s,
                None => time_seed_of(now_millis),
            };
            &&& plan.seed == seed
            &&& board_view(&plan.board) == new_board_spec(req.rows, req.cols, req.mines, seed)
            &&& match req.settings {
                Some(s) => plan.settings == s,
                None => (plan.settings.field_generation@, plan.settings.show_question_marks, plan.settings.enable_chord,
                    plan.settings.dev_mode) == default_lobby_settings(true),
            }
        }),
{
    validate_params(req.rows, req.cols, req.mines)?;
    let seed = match req.seed {
        Some(s) => s,
        None => time_seed(now_millis),
    };
    let settings = match req.settings {
        Some(s) => s,
        None => game_default_settings(),
    };
    let board = new_board(req.rows, req.cols, req.mines, seed);
    Ok(GamePlan { seed, settings, board })
}

/// Whole seconds a game has run, never negative, as a 32-bit value.
pub fn elapsed_seconds(secs: i64) -> (t: i32)
    ensures
        t == (if secs < 0 { 0 } else { secs as int }) as i32,
{
    let s = if secs < 0 { 0 } else { secs };
    s as i32
}

} // verus!
