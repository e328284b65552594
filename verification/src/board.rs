//! The minesweeper board: cells, coordinates, neighbourhoods and whole-board operations.
use vstd::prelude::*;

verus! {

/// Progress of one game.
#[derive(Clone, Copy, Debug, PartialEq, Eq, Structural)]
pub enum GameStatus {
    Idle,
    Playing,
    Won,
    Lost,
}

/// Player annotation on a closed cell.
#[derive(Clone, Copy, Debug, PartialEq, Eq, Structural)]
pub enum CellMark {
    Unmarked,
    Flag,
    Question,
}

/// One cell of the board, as stored and as sent to clients.
#[derive(Clone, Copy, Debug)]
pub struct CellDto {
    pub row: i32,
    pub col: i32,
    pub is_mine: bool,
    pub is_open: bool,
    pub mark: CellMark,
    pub adjacent_mines: i32,
}

/// A board as nested sequences of cells (row-major).
pub open spec fn board_view(b: &Vec<Vec<CellDto>>) -> Seq<Seq<CellDto>> {
    b@.map_values(|row: Vec<CellDto>| row@)
}

/// The board has `rows` rows of `cols` cells each.
pub open spec fn well_formed(b: Seq<Seq<CellDto>>, rows: int, cols: int) -> bool {
    &&& 0 <= rows
    &&& 0 <= cols
    &&& b.len() == rows
    &&& forall|r: int| 0 <= r < rows ==> #[trigger] b[r].len() == cols
}

pub open spec fn in_bounds(rows: int, cols: int, r: int, c: int) -> bool {
    0 <= r < rows && 0 <= c < cols
}

/// `(nr, nc)` is one of the eight cells around `(r, c)`.
pub open spec fn adjacent(r: int, c: int, nr: int, nc: int) -> bool {
    &&& -1 <= nr - r <= 1
    &&& -1 <= nc - c <= 1
    &&& !(nr == r && nc == c)
}

pub open spec fn cell_at(b: Seq<Seq<CellDto>>, p: (int, int)) -> CellDto {
    b[p.0][p.1]
}

/// Applies `f` to every cell, keeping the shape of the board.
pub open spec fn map_cells(b: Seq<Seq<CellDto>>, f: spec_fn(int, int, CellDto) -> CellDto) -> Seq<Seq<CellDto>> {
    Seq::new(b.len(), |r: int| Seq::new(b[r].len(), |c: int| f(r, c, b[r][c])))
}

pub open spec fn opened(cell: CellDto) -> CellDto {
    CellDto { is_open: true, ..cell }
}

pub open spec fn flagged(cell: CellDto) -> CellDto {
    CellDto { mark: CellMark::Flag, ..cell }
}

/// The eight neighbour offsets, in the order rows then columns.
pub open spec fn offset(k: int) -> (int, int) {
    if k == 0 { (-1, -1) }
    else if k == 1 { (-1, 0) }
    else if k == 2 { (-1, 1) }
    else if k == 3 { (0, -1) }
    else if k == 4 { (0, 1) }
    else if k == 5 { (1, -1) }
    else if k == 6 { (1, 0) }
    else { (1, 1) }
}

pub open spec fn neighbors_upto(rows: int, cols: int, r: int, c: int, k: nat) -> Seq<(int, int)>
    decreases k,
{
    if k == 0 {
        Seq::empty()
    } else {
        let prev = neighbors_upto(rows, cols, r, c, (k - 1) as nat);
        let o = offset(k - 1);
        if in_bounds(rows, cols, r + o.0, c + o.1) {
            prev.push((r + o.0, c + o.1))
        } else {
            prev
        }
    }
}

/// The in-bounds neighbours of `(r, c)`, in row-major order.
pub open spec fn neighbor_list(rows: int, cols: int, r: int, c: int) -> Seq<(int, int)> {
    neighbors_upto(rows, cols, r, c, 8)
}

pub open spec fn pairs_view(v: Seq<(i32, i32)>) -> Seq<(int, int)> {
    v.map_values(|p: (i32, i32)| (p.0 as int, p.1 as int))
}

proof fn lemma_neighbors_upto(rows: int, cols: int, r: int, c: int, k: nat)
    requires
        k <= 8,
    ensures
        neighbors_upto(rows, cols, r, c, k).len() <= k,
        forall|i: int| 0 <= i < neighbors_upto(rows, cols, r, c, k).len() ==> {
            let p = #[trigger] neighbors_upto(rows, cols, r, c, k)[i];
            &&& in_bounds(rows, cols, p.0, p.1)
            &&& adjacent(r, c, p.0, p.1)
            &&& exists|j: int| 0 <= j < k && p == (r + offset(j).0, c + offset(j).1)
        },
        forall|j: int| 0 <= j < k && in_bounds(rows, cols, r + offset(j).0, c + offset(j).1) ==>
            neighbors_upto(rows, cols, r, c, k).contains((r + #[trigger] offset(j).0, c + offset(j).1)),
        forall|i: int, i2: int| 0 <= i < i2 < neighbors_upto(rows, cols, r, c, k).len() ==>
            neighbors_upto(rows, cols, r, c, k)[i] != neighbors_upto(rows, cols, r, c, k)[i2],
    decreases k,
{
    if k > 0 {
        lemma_neighbors_upto(rows, cols, r, c, (k - 1) as nat);
        let prev = neighbors_upto(rows, cols, r, c, (k - 1) as nat);
        let o = offset(k - 1);
        let cur = neighbors_upto(rows, cols, r, c, k);
        if in_bounds(rows, cols, r + o.0, c + o.1) {
            assert(cur == prev.push((r + o.0, c + o.1)));
            assert forall|i: int| 0 <= i < cur.len() implies {
                let p = #[trigger] cur[i];
                &&& in_bounds(rows, cols, p.0, p.1)
                &&& adjacent(r, c, p.0, p.1)
                &&& exists|j: int| 0 <= j < k && p == (r + offset(j).0, c + offset(j).1)
            } by {
                if i == prev.len() {
                    assert(cur[i] == (r + offset(k - 1).0, c + offset(k - 1).1));
                } else {
                    assert(cur[i] == prev[i]);
                }
            }
            assert forall|j: int| 0 <= j < k && in_bounds(rows, cols, r + offset(j).0, c + offset(j).1) implies
                cur.contains((r + #[trigger] offset(j).0, c + offset(j).1)) by {
                if j == k - 1 {
                    assert(cur[prev.len() as int] == (r + offset(j).0, c + offset(j).1));
                } else {
                    let w = choose|w: int| 0 <= w < prev.len() && prev[w] == (r + offset(j).0, c + offset(j).1);
                    assert(cur[w] == prev[w]);
                }
            }
            assert forall|i: int, i2: int| 0 <= i < i2 < cur.len() implies cur[i] != cur[i2] by {
                if i2 == prev.len() {
                    let p = prev[i];
                    let j = choose|j: int| 0 <= j < k - 1 && p == (r + offset(j).0, c + offset(j).1);
                    assert(cur[i] == prev[i]);
                }
            }
        }
    }
}

/// Facts about the neighbour list: its members are exactly the in-bounds neighbours, without repeats.
pub proof fn lemma_neighbor_list(rows: int, cols: int, r: int, c: int)
    ensures
        neighbor_list(rows, cols, r, c).len() <= 8,
        forall|i: int| 0 <= i < neighbor_list(rows, cols, r, c).len() ==> {
            let p = #[trigger] neighbor_list(rows, cols, r, c)[i];
            in_bounds(rows, cols, p.0, p.1) && adjacent(r, c, p.0, p.1)
        },
        forall|nr: int, nc: int| in_bounds(rows, cols, nr, nc) && adjacent(r, c, nr, nc) ==>
            #[trigger] neighbor_list(rows, cols, r, c).contains((nr, nc)),
        neighbor_list(rows, cols, r, c).no_duplicates(),
{
    lemma_neighbors_upto(rows, cols, r, c, 8);
    let nl = neighbor_list(rows, cols, r, c);
    assert forall|nr: int, nc: int| in_bounds(rows, cols, nr, nc) && adjacent(r, c, nr, nc) implies
        #[trigger] nl.contains((nr, nc)) by {
        let dr = nr - r;
        let dc = nc - c;
        let j: int = if dr == -1 { dc + 1 } else if dr == 0 { if dc == -1 { 3 } else { 4 } } else { dc + 6 };
        assert(offset(j) == (dr, dc));
        assert((r + offset(j).0, c + offset(j).1) == (nr, nc));
        assert(neighbors_upto(rows, cols, r, c, 8).contains((r + offset(j).0, c + offset(j).1)));
    }
}

pub open spec fn cell_blank(r: int, c: int) -> CellDto {
    CellDto { row: r as i32, col: c as i32, is_mine: false, is_open: false, mark: CellMark::Unmarked, adjacent_mines: 0 }
}

/// A `rows` by `cols` board of closed, unmarked cells without mines.
pub open spec fn empty_board(rows: int, cols: int) -> Seq<Seq<CellDto>> {
    Seq::new(rows as nat, |r: int| Seq::new(cols as nat, |c: int| cell_blank(r, c)))
}

/// Builds a board of closed, unmarked cells without mines; each cell knows its coordinates.
pub fn create_empty_board(rows: i32, cols: i32) -> (board: Vec<Vec<CellDto>>)
    ensures
        board_view(&board) == empty_board(if rows < 0 { 0 } else { rows as int }, if cols < 0 { 0 } else { cols as int }),
{
    let mut board: Vec<Vec<CellDto>> = Vec::new();
    let ghost ncols: int = if cols < 0 { 0 } else { cols as int };
    let mut r: i32 = 0;
    while r < rows
        invariant
            0 <= r,
            r <= rows || (rows < 0 && r == 0),
            ncols == if cols < 0 { 0 } else { cols as int },
            board_view(&board) == empty_board(r as int, ncols),
        decreases rows - r,
    {
        let mut row: Vec<CellDto> = Vec::new();
        let mut c: i32 = 0;
        while c < cols
            invariant
                0 <= c,
                c <= cols || (cols < 0 && c == 0),
                0 <= r < rows,
                row@ == Seq::new(c as nat, |j: int| cell_blank(r as int, j)),
            decreases cols - c,
        {
            row.push(CellDto { row: r, col: c, is_mine: false, is_open: false, mark: CellMark::Unmarked, adjacent_mines: 0 });
            c = c + 1;
        }
        let ghost old_board = board_view(&board);
        board.push(row);
        assert(board_view(&board) =~= old_board.push(row@));
        assert(row@ =~= Seq::new(ncols as nat, |j: int| cell_blank(r as int, j)));
        assert(board_view(&board) =~= empty_board(r + 1, ncols));
        r = r + 1;
    }
    board
}

/// Offset number `k` (0 to 7) around a cell.
fn offset_at(k: usize) -> (o: (i32, i32))
    requires
        k < 8,
    ensures
        o.0 as int == offset(k as int).0,
        o.1 as int == offset(k as int).1,
{
    if k == 0 { (-1, -1) }
    else if k == 1 { (-1, 0) }
    else if k == 2 { (-1, 1) }
    else if k == 3 { (0, -1) }
    else if k == 4 { (0, 1) }
    else if k == 5 { (1, -1) }
    else if k == 6 { (1, 0) }
    else { (1, 1) }
}

/// The in-bounds neighbours of `(row, col)`, in row-major order.
pub fn neighbors(rows: i32, cols: i32, row: i32, col: i32) -> (list: Vec<(i32, i32)>)
    requires
        i32::MIN < row < i32::MAX,
        i32::MIN < col < i32::MAX,
    ensures
        pairs_view(list@) == neighbor_list(rows as int, cols as int, row as int, col as int),
{
    let mut list: Vec<(i32, i32)> = Vec::new();
    let mut k: usize = 0;
    while k < 8
        invariant
            k <= 8,
            i32::MIN < row < i32::MAX,
            i32::MIN < col < i32::MAX,
            pairs_view(list@) == neighbors_upto(rows as int, cols as int, row as int, col as int, k as nat),
        decreases 8 - k,
    {
        let (dr, dc) = offset_at(k);
        let nr = row + dr;
        let nc = col + dc;
        let ghost prev = list@;
        if nr >= 0 && nr < rows && nc >= 0 && nc < cols {
            list.push((nr, nc));
            assert(pairs_view(list@) =~= pairs_view(prev).push((nr as int, nc as int)));
        }
        k = k + 1;
    }
    list
}


/// Number of mines among the listed cells.
pub open spec fn count_mines(b: Seq<Seq<CellDto>>, ns: Seq<(int, int)>) -> nat
    decreases ns.len(),
{
    if ns.len() == 0 {
        0
    } else {
        count_mines(b, ns.drop_last()) + if cell_at(b, ns.last()).is_mine { 1nat } else { 0nat }
    }
}

/// Number of flagged cells among the listed cells.
pub open spec fn count_flags(b: Seq<Seq<CellDto>>, ns: Seq<(int, int)>) -> nat
    decreases ns.len(),
{
    if ns.len() == 0 {
        0
    } else {
        count_flags(b, ns.drop_last()) + if cell_at(b, ns.last()).mark == CellMark::Flag { 1nat } else { 0nat }
    }
}

/// A cell that is neither open nor flagged.
pub open spec fn closed_unflagged(cell: CellDto) -> bool {
    !cell.is_open && cell.mark != CellMark::Flag
}

/// Number of cells among the listed ones that are neither open nor flagged.
pub open spec fn count_closed_unflagged(b: Seq<Seq<CellDto>>, ns: Seq<(int, int)>) -> nat
    decreases ns.len(),
{
    if ns.len() == 0 {
        0
    } else {
        count_closed_unflagged(b, ns.drop_last()) + if closed_unflagged(cell_at(b, ns.last())) { 1nat } else { 0nat }
    }
}

proof fn lemma_count_mines_bound(b: Seq<Seq<CellDto>>, ns: Seq<(int, int)>)
    ensures
        count_mines(b, ns) <= ns.len(),
    decreases ns.len(),
{
    if ns.len() > 0 {
        lemma_count_mines_bound(b, ns.drop_last());
    }
}

proof fn lemma_count_flags_bound(b: Seq<Seq<CellDto>>, ns: Seq<(int, int)>)
    ensures
        count_flags(b, ns) <= ns.len(),
    decreases ns.len(),
{
    if ns.len() > 0 {
        lemma_count_flags_bound(b, ns.drop_last());
    }
}

proof fn lemma_count_mines_same(b0: Seq<Seq<CellDto>>, b1: Seq<Seq<CellDto>>, ns: Seq<(int, int)>)
    requires
        forall|i: int| 0 <= i < ns.len() ==> cell_at(b0, #[trigger] ns[i]).is_mine == cell_at(b1, ns[i]).is_mine,
    ensures
        count_mines(b0, ns) == count_mines(b1, ns),
    decreases ns.len(),
{
    if ns.len() > 0 {
        let d = ns.drop_last();
        assert forall|i: int| 0 <= i < d.len() implies cell_at(b0, #[trigger] d[i]).is_mine == cell_at(b1, d[i]).is_mine by {
            assert(d[i] == ns[i]);
        }
        lemma_count_mines_same(b0, b1, d);
        assert(ns.last() == ns[ns.len() - 1]);
    }
}

/// Number of mines around `(r, c)`.
pub open spec fn mines_around(b: Seq<Seq<CellDto>>, rows: int, cols: int, r: int, c: int) -> nat {
    count_mines(b, neighbor_list(rows, cols, r, c))
}

pub open spec fn reveal_mine_fn() -> spec_fn(int, int, CellDto) -> CellDto {
    |r: int, c: int, cell: CellDto| if cell.is_mine { opened(cell) } else { cell }
}

/// Every mine opened; other cells untouched.
pub open spec fn mines_revealed(b: Seq<Seq<CellDto>>) -> Seq<Seq<CellDto>> {
    map_cells(b, reveal_mine_fn())
}

pub open spec fn flag_mine_fn() -> spec_fn(int, int, CellDto) -> CellDto {
    |r: int, c: int, cell: CellDto| if cell.is_mine { flagged(cell) } else { cell }
}

/// Every mine flagged; other cells untouched.
pub open spec fn mines_flagged(b: Seq<Seq<CellDto>>) -> Seq<Seq<CellDto>> {
    map_cells(b, flag_mine_fn())
}

pub open spec fn number_fn(b: Seq<Seq<CellDto>>, rows: int, cols: int) -> spec_fn(int, int, CellDto) -> CellDto {
    |r: int, c: int, cell: CellDto|
        if cell.is_mine {
            cell
        } else {
            CellDto { adjacent_mines: mines_around(b, rows, cols, r, c) as i32, ..cell }
        }
}

/// Every safe cell carries the number of mines around it; mines untouched.
pub open spec fn numbered(b: Seq<Seq<CellDto>>, rows: int, cols: int) -> Seq<Seq<CellDto>> {
    map_cells(b, number_fn(b, rows, cols))
}

/// All safe cells are open.
pub open spec fn all_safe_open(b: Seq<Seq<CellDto>>) -> bool {
    forall|r: int, c: int| 0 <= r < b.len() && 0 <= c < b[r].len() ==> (#[trigger] b[r][c]).is_mine || b[r][c].is_open
}

/// The board reached after updating the cells before `(r, c)` in row-major order with `f`.
pub open spec fn mapped_until(b0: Seq<Seq<CellDto>>, b: Seq<Seq<CellDto>>, f: spec_fn(int, int, CellDto) -> CellDto, r: int, c: int) -> bool {
    &&& b.len() == b0.len()
    &&& forall|i: int| 0 <= i < b.len() ==> #[trigger] b[i].len() == b0[i].len()
    &&& forall|i: int, j: int| 0 <= i < b.len() && 0 <= j < b[i].len() ==>
        #[trigger] b[i][j] == if i < r || (i == r && j < c) { f(i, j, b0[i][j]) } else { b0[i][j] }
}

/// Shape facts of the nested view of a board.
pub proof fn lemma_view_shape(b: &Vec<Vec<CellDto>>)
    ensures
        board_view(b).len() == b@.len(),
        forall|i: int| 0 <= i < b@.len() ==> #[trigger] board_view(b)[i] == b@[i]@,
{
}

proof fn lemma_mapped_done(b0: Seq<Seq<CellDto>>, b: Seq<Seq<CellDto>>, f: spec_fn(int, int, CellDto) -> CellDto, rows: int, cols: int)
    requires
        well_formed(b0, rows, cols),
        mapped_until(b0, b, f, rows, 0),
    ensures
        b == map_cells(b0, f),
{
    let m = map_cells(b0, f);
    assert forall|i: int| 0 <= i < b.len() implies #[trigger] b[i] == m[i] by {
        assert(b[i] =~= m[i]);
    }
    assert(b =~= m);
}

proof fn lemma_mapped_step(b0: Seq<Seq<CellDto>>, b: Seq<Seq<CellDto>>, f: spec_fn(int, int, CellDto) -> CellDto, r: int, c: int)
    requires
        mapped_until(b0, b, f, r, c),
        0 <= r < b0.len(),
        0 <= c < b0[r].len(),
    ensures
        mapped_until(b0, b.update(r, b[r].update(c, f(r, c, b0[r][c]))), f, r, c + 1),
{
    let nb = b.update(r, b[r].update(c, f(r, c, b0[r][c])));
    assert forall|i: int| 0 <= i < nb.len() implies #[trigger] nb[i].len() == b0[i].len() by {
        assert(b[i].len() == b0[i].len());
    }
    assert forall|i: int, j: int| 0 <= i < nb.len() && 0 <= j < nb[i].len() implies
        #[trigger] nb[i][j] == if i < r || (i == r && j < c + 1) { f(i, j, b0[i][j]) } else { b0[i][j] } by {
        assert(b[i].len() == b0[i].len());
        if i == r && j == c {
        } else {
            assert(nb[i][j] == b[i][j]);
        }
    }
}

proof fn lemma_mapped_row(b0: Seq<Seq<CellDto>>, b: Seq<Seq<CellDto>>, f: spec_fn(int, int, CellDto) -> CellDto, r: int)
    requires
        mapped_until(b0, b, f, r, b0[r].len() as int),
        0 <= r < b0.len(),
    ensures
        mapped_until(b0, b, f, r + 1, 0),
{
    assert forall|i: int, j: int| 0 <= i < b.len() && 0 <= j < b[i].len() implies
        #[trigger] b[i][j] == if i < r + 1 || (i == r + 1 && j < 0) { f(i, j, b0[i][j]) } else { b0[i][j] } by {
        assert(b[i].len() == b0[i].len());
    }
}

/// Replaces the cell at `(r, c)`.
pub fn set_cell(board: &mut Vec<Vec<CellDto>>, r: usize, c: usize, cell: CellDto)
    requires
        r < old(board)@.len(),
        c < old(board)@[r as int]@.len(),
    ensures
        board_view(final(board)) == board_view(old(board)).update(r as int, board_view(old(board))[r as int].update(c as int, cell)),
{
    board[r][c] = cell;
    assert(board_view(board) =~= board_view(old(board)).update(r as int, board_view(old(board))[r as int].update(c as int, cell)));
}

/// Opens every mine (shown when a game is lost).
pub fn reveal_all_mines(board: &mut Vec<Vec<CellDto>>, rows: i32, cols: i32)
    requires
        well_formed(board_view(old(board)), rows as int, cols as int),
    ensures
        board_view(final(board)) == mines_revealed(board_view(old(board))),
{
    let ghost b0 = board_view(board);
    let ghost f = reveal_mine_fn();
    let mut r: i32 = 0;
    while r < rows
        invariant
            0 <= r <= rows,
            well_formed(b0, rows as int, cols as int),
            f == reveal_mine_fn(),
            mapped_until(b0, board_view(board), f, r as int, 0),
        decreases rows - r,
    {
        let mut c: i32 = 0;
        while c < cols
            invariant
                0 <= r < rows,
                0 <= c <= cols,
                well_formed(b0, rows as int, cols as int),
                f == reveal_mine_fn(),
                mapped_until(b0, board_view(board), f, r as int, c as int),
            decreases cols - c,
        {
            proof {
                lemma_view_shape(board);
                assert(board_view(board)[r as int].len() == b0[r as int].len());
            }
            let mut cell = board[r as usize][c as usize];
            assert(cell == b0[r as int][c as int]);
            if cell.is_mine {
                cell.is_open = true;
            }
            proof { lemma_mapped_step(b0, board_view(board), f, r as int, c as int); }
            set_cell(board, r as usize, c as usize, cell);
            c = c + 1;
        }
        proof { lemma_mapped_row(b0, board_view(board), f, r as int); }
        r = r + 1;
    }
    proof { lemma_mapped_done(b0, board_view(board), f, rows as int, cols as int); }
}

/// Flags every mine (done when a game is won).
pub fn flag_all_mines(board: &mut Vec<Vec<CellDto>>)
    ensures
        board_view(final(board)) == mines_flagged(board_view(old(board))),
{
    let ghost b0 = board_view(board);
    let ghost f = flag_mine_fn();
    let n = board.len();
    let mut r: usize = 0;
    while r < n
        invariant
            0 <= r <= n,
            n == b0.len(),
            f == flag_mine_fn(),
            mapped_until(b0, board_view(board), f, r as int, 0),
        decreases n - r,
    {
        proof {
            lemma_view_shape(board);
            assert(board_view(board)[r as int].len() == b0[r as int].len());
        }
        let m = board[r].len();
        let mut c: usize = 0;
        while c < m
            invariant
                0 <= r < n,
                n == b0.len(),
                0 <= c <= m,
                m == b0[r as int].len(),
                f == flag_mine_fn(),
                mapped_until(b0, board_view(board), f, r as int, c as int),
            decreases m - c,
        {
            proof {
                lemma_view_shape(board);
                assert(board_view(board)[r as int].len() == b0[r as int].len());
            }
            let mut cell = board[r][c];
            assert(cell == b0[r as int][c as int]);
            if cell.is_mine {
                cell.mark = CellMark::Flag;
            }
            proof { lemma_mapped_step(b0, board_view(board), f, r as int, c as int); }
            set_cell(board, r, c, cell);
            c = c + 1;
        }
        proof { lemma_mapped_row(b0, board_view(board), f, r as int); }
        r = r + 1;
    }
    proof {
        let b = board_view(board);
        let mm = map_cells(b0, f);
        assert forall|i: int| 0 <= i < b.len() implies #[trigger] b[i] == mm[i] by {
            assert(b[i] =~= mm[i]);
        }
        assert(b =~= mm);
    }
}

/// True when every cell without a mine is open.
pub fn check_win(board: &Vec<Vec<CellDto>>) -> (won: bool)
    ensures
        won == all_safe_open(board_view(board)),
        won <==> forall|i: int, j: int| 0 <= i < board_view(board).len() && 0 <= j < board_view(board)[i].len() ==>
            (#[trigger] board_view(board)[i][j]).is_mine || board_view(board)[i][j].is_open,
{
    let ghost b = board_view(board);
    proof { lemma_view_shape(board); }
    let n = board.len();
    let mut r: usize = 0;
    while r < n
        invariant
            0 <= r <= n,
            n == b.len(),
            b == board_view(board),
            forall|i: int, j: int| 0 <= i < r && 0 <= j < b[i].len() ==> (#[trigger] b[i][j]).is_mine || b[i][j].is_open,
        decreases n - r,
    {
        proof {
            lemma_view_shape(board);
        }
        assert(board[r as int]@ == b[r as int]);
        let m = board[r].len();
        let mut c: usize = 0;
        while c < m
            invariant
                0 <= r < n,
                n == b.len(),
                b == board_view(board),
                m == b[r as int].len(),
                0 <= c <= m,
                forall|i: int, j: int| 0 <= i < r && 0 <= j < b[i].len() ==> (#[trigger] b[i][j]).is_mine || b[i][j].is_open,
                forall|j: int| 0 <= j < c ==> (#[trigger] b[r as int][j]).is_mine || b[r as int][j].is_open,
            decreases m - c,
        {
            proof {
                lemma_view_shape(board);
            }
            assert(board[r as int]@ == b[r as int]);
            let cell = board[r][c];
            if !cell.is_mine && !cell.is_open {
                assert(!(b[r as int][c as int].is_mine || b[r as int][c as int].is_open));
                return false;
            }
            c = c + 1;
        }
        r = r + 1;
    }
    true
}

/// Number of mines on the listed cells of the board.
fn count_mines_at(board: &Vec<Vec<CellDto>>, ns: &Vec<(i32, i32)>) -> (count: u32)
    requires
        ns@.len() <= 8,
        forall|i: int| 0 <= i < ns@.len() ==> {
            let p = #[trigger] ns@[i];
            0 <= p.0 < board@.len() && 0 <= p.1 < board@[p.0 as int]@.len()
        },
    ensures
        count as nat == count_mines(board_view(board), pairs_view(ns@)),
        count <= 8,
{
    let ghost b = board_view(board);
    let ghost pv = pairs_view(ns@);
    proof { lemma_view_shape(board); }
    let mut count: u32 = 0;
    let mut i: usize = 0;
    while i < ns.len()
        invariant
            0 <= i <= ns@.len(),
            ns@.len() <= 8,
            b == board_view(board),
            pv == pairs_view(ns@),
            forall|k: int| 0 <= k < ns@.len() ==> {
                let p = #[trigger] ns@[k];
                0 <= p.0 < board@.len() && 0 <= p.1 < board@[p.0 as int]@.len()
            },
            count as nat == count_mines(b, pv.take(i as int)),
            count <= i,
        decreases ns@.len() - i,
    {
        let (nr, nc) = ns[i];
        assert(pv.take(i + 1).drop_last() =~= pv.take(i as int));
        assert(pv.take(i + 1).last() == (nr as int, nc as int));
        assert(board[nr as int]@ == b[nr as int]);
        if board[nr as usize][nc as usize].is_mine {
            count = count + 1;
        }
        i = i + 1;
    }
    assert(pv.take(ns@.len() as int) =~= pv);
    count
}

/// Writes into every safe cell the number of mines around it.
pub fn calculate_numbers(board: &mut Vec<Vec<CellDto>>, rows: i32, cols: i32)
    requires
        well_formed(board_view(old(board)), rows as int, cols as int),
    ensures
        board_view(final(board)) == numbered(board_view(old(board)), rows as int, cols as int),
{
    let ghost b0 = board_view(board);
    let ghost f = number_fn(b0, rows as int, cols as int);
    let mut r: i32 = 0;
    while r < rows
        invariant
            0 <= r <= rows,
            well_formed(b0, rows as int, cols as int),
            f == number_fn(b0, rows as int, cols as int),
            mapped_until(b0, board_view(board), f, r as int, 0),
        decreases rows - r,
    {
        let mut c: i32 = 0;
        while c < cols
            invariant
                0 <= r < rows,
                0 <= c <= cols,
                well_formed(b0, rows as int, cols as int),
                f == number_fn(b0, rows as int, cols as int),
                mapped_until(b0, board_view(board), f, r as int, c as int),
            decreases cols - c,
        {
            proof {
                lemma_view_shape(board);
                assert(board_view(board)[r as int].len() == b0[r as int].len());
            }
            let mut cell = board[r as usize][c as usize];
            assert(cell == b0[r as int][c as int]);
            if !cell.is_mine {
                let ns = neighbors(rows, cols, r, c);
                let ghost b = board_view(board);
                let ghost nl = neighbor_list(rows as int, cols as int, r as int, c as int);
                proof {
                    lemma_neighbor_list(rows as int, cols as int, r as int, c as int);
                    assert forall|i: int| 0 <= i < ns@.len() implies {
                        let p = #[trigger] ns@[i];
                        0 <= p.0 < board@.len() && 0 <= p.1 < board@[p.0 as int]@.len()
                    } by {
                        assert(pairs_view(ns@)[i] == nl[i]);
                        assert(b[ns@[i].0 as int].len() == b0[ns@[i].0 as int].len());
                    }
                    assert forall|i: int| 0 <= i < nl.len() implies cell_at(b0, #[trigger] nl[i]).is_mine == cell_at(b, nl[i]).is_mine by {
                        let p = nl[i];
                        assert(b[p.0].len() == b0[p.0].len());
                        assert(b[p.0][p.1] == if p.0 < r || (p.0 == r && p.1 < c) { f(p.0, p.1, b0[p.0][p.1]) } else { b0[p.0][p.1] });
                    }
                    lemma_count_mines_same(b0, b, nl);
                }
                let count = count_mines_at(board, &ns);
                cell.adjacent_mines = count as i32;
            }
            proof { lemma_mapped_step(b0, board_view(board), f, r as int, c as int); }
            set_cell(board, r as usize, c as usize, cell);
            c = c + 1;
        }
        proof { lemma_mapped_row(b0, board_view(board), f, r as int); }
        r = r + 1;
    }
    proof { lemma_mapped_done(b0, board_view(board), f, rows as int, cols as int); }
}

/// `map_cells` keeps the shape of a board.
pub proof fn lemma_map_cells_shape(b: Seq<Seq<CellDto>>, f: spec_fn(int, int, CellDto) -> CellDto, rows: int, cols: int)
    requires
        well_formed(b, rows, cols),
    ensures
        well_formed(map_cells(b, f), rows, cols),
        forall|i: int, j: int| 0 <= i < rows && 0 <= j < cols ==> #[trigger] map_cells(b, f)[i][j] == f(i, j, b[i][j]),
{
    let m = map_cells(b, f);
    assert forall|r: int| 0 <= r < rows implies #[trigger] m[r].len() == cols by {
        assert(b[r].len() == cols);
    }
    assert forall|i: int, j: int| 0 <= i < rows && 0 <= j < cols implies #[trigger] m[i][j] == f(i, j, b[i][j]) by {
        assert(b[i].len() == cols);
    }
}

/// Number of cells among the listed ones that carry a flag.
pub(crate) fn count_flags_at(board: &Vec<Vec<CellDto>>, ns: &Vec<(i32, i32)>) -> (count: u32)
    requires
        ns@.len() <= 8,
        forall|i: int| 0 <= i < ns@.len() ==> {
            let p = #[trigger] ns@[i];
            0 <= p.0 < board@.len() && 0 <= p.1 < board@[p.0 as int]@.len()
        },
    ensures
        count as nat == count_flags(board_view(board), pairs_view(ns@)),
        count <= 8,
{
    let ghost b = board_view(board);
    let ghost pv = pairs_view(ns@);
    proof { lemma_view_shape(board); }
    let mut count: u32 = 0;
    let mut i: usize = 0;
    while i < ns.len()
        invariant
            0 <= i <= ns@.len(),
            ns@.len() <= 8,
            b == board_view(board),
            pv == pairs_view(ns@),
            forall|k: int| 0 <= k < ns@.len() ==> {
                let p = #[trigger] ns@[k];
                0 <= p.0 < board@.len() && 0 <= p.1 < board@[p.0 as int]@.len()
            },
            count as nat == count_flags(b, pv.take(i as int)),
            count <= i,
        decreases ns@.len() - i,
    {
        let (nr, nc) = ns[i];
        assert(pv.take(i + 1).drop_last() =~= pv.take(i as int));
        assert(pv.take(i + 1).last() == (nr as int, nc as int));
        assert(board[nr as int]@ == b[nr as int]);
        if board[nr as usize][nc as usize].mark == CellMark::Flag {
            count = count + 1;
        }
        i = i + 1;
    }
    assert(pv.take(ns@.len() as int) =~= pv);
    count
}

/// Number of cells among the listed ones that are neither open nor flagged.
pub(crate) fn count_closed_unflagged_at(board: &Vec<Vec<CellDto>>, ns: &Vec<(i32, i32)>) -> (count: u32)
    requires
        ns@.len() <= 8,
        forall|i: int| 0 <= i < ns@.len() ==> {
            let p = #[trigger] ns@[i];
            0 <= p.0 < board@.len() && 0 <= p.1 < board@[p.0 as int]@.len()
        },
    ensures
        count as nat == count_closed_unflagged(board_view(board), pairs_view(ns@)),
        count <= 8,
{
    let ghost b = board_view(board);
    let ghost pv = pairs_view(ns@);
    proof { lemma_view_shape(board); }
    let mut count: u32 = 0;
    let mut i: usize = 0;
    while i < ns.len()
        invariant
            0 <= i <= ns@.len(),
            ns@.len() <= 8,
            b == board_view(board),
            pv == pairs_view(ns@),
            forall|k: int| 0 <= k < ns@.len() ==> {
                let p = #[trigger] ns@[k];
                0 <= p.0 < board@.len() && 0 <= p.1 < board@[p.0 as int]@.len()
            },
            count as nat == count_closed_unflagged(b, pv.take(i as int)),
            count <= i,
        decreases ns@.len() - i,
    {
        let (nr, nc) = ns[i];
        assert(pv.take(i + 1).drop_last() =~= pv.take(i as int));
        assert(pv.take(i + 1).last() == (nr as int, nc as int));
        assert(board[nr as int]@ == b[nr as int]);
        if !board[nr as usize][nc as usize].is_open && board[nr as usize][nc as usize].mark != CellMark::Flag {
            count = count + 1;
        }
        i = i + 1;
    }
    assert(pv.take(ns@.len() as int) =~= pv);
    count
}

/// The cells of the board that hold a mine.
pub open spec fn mine_set(b: Seq<Seq<CellDto>>, rows: int, cols: int) -> Set<(int, int)> {
    Set::new(|p: (int, int)| in_bounds(rows, cols, p.0, p.1) && cell_at(b, p).is_mine)
}

/// The neighbour counts of a chord count what they say: the flagged cells among `ns`, and
/// the cells among `ns` that are neither open nor flagged.
pub proof fn law_neighbour_counts(b: Seq<Seq<CellDto>>, ns: Seq<(int, int)>)
    ensures
        count_flags(b, ns) == ns.filter(|p: (int, int)| b[p.0][p.1].mark == CellMark::Flag).len(),
        count_closed_unflagged(b, ns) == ns.filter(
            |p: (int, int)| !b[p.0][p.1].is_open && b[p.0][p.1].mark != CellMark::Flag,
        ).len(),
    decreases ns.len(),
{
    reveal(Seq::filter);
    if ns.len() > 0 {
        law_neighbour_counts(b, ns.drop_last());
    }
}

/// A game is won exactly when no cell is both safe and closed: a closed safe cell, flagged or
/// not, keeps the game going, and a board whose every cell is a mine or open is won.
pub proof fn law_won_exactly_when_no_safe_cell_is_closed(b: Seq<Seq<CellDto>>, i: int, j: int)
    ensures
        0 <= i < b.len() && 0 <= j < b[i].len() && !b[i][j].is_mine && !b[i][j].is_open ==> !all_safe_open(b),
        (forall|r: int, c: int| 0 <= r < b.len() && 0 <= c < b[r].len() ==> (#[trigger] b[r][c]).is_mine || b[r][c].is_open)
            ==> all_safe_open(b),
{
}

} // verus!
