//! Seeded mine placement and the safe-start relocation of mines.
use vstd::prelude::*;
use crate::board::{
    board_view, cell_at, create_empty_board, empty_board, mine_set, in_bounds, lemma_map_cells_shape, lemma_view_shape, map_cells, set_cell, well_formed, CellDto,
};

verus! {

/// State after one step of the seeded generator.
pub open spec fn rng_next_state(state: u32) -> u32 {
    vstd::wrapping::u32_specs::wrapping_add(state, 0x6D2B79F5u32)
}

/// The 32-bit value the generator yields from an (already advanced) state.
pub open spec fn rng_output(state: u32) -> u32 {
    let t1 = vstd::wrapping::u32_specs::wrapping_mul(state ^ (state >> 15u32), state | 1u32);
    let t2 = t1 ^ vstd::wrapping::u32_specs::wrapping_add(
        t1,
        vstd::wrapping::u32_specs::wrapping_mul(t1 ^ (t1 >> 7u32), t1 | 61u32),
    );
    t2 ^ (t2 >> 14u32)
}

/// A 32-bit value scaled into `[0, n)`: the integer part of `t / 2^32 * n`.
pub open spec fn scale_below(t: u32, n: nat) -> nat {
    (t as nat * n) / 0x1_0000_0000
}

/// Deterministic pseudo-random generator seeded by an integer (32-bit state).
pub struct SeededRandom {
    pub state: u32,
}

/// A generator whose state starts at the bits of `seed`.
pub fn create_seeded_random(seed: i32) -> (rng: SeededRandom)
    ensures
        rng.state == seed as u32,
{
    SeededRandom { state: seed as u32 }
}

impl SeededRandom {
    /// Advances the state and returns the next 32-bit value.
    pub fn next_u32(&mut self) -> (t: u32)
        ensures
            final(self).state == rng_next_state(old(self).state),
            t == rng_output(final(self).state),
    {
        self.state = self.state.wrapping_add(0x6D2B79F5);
        let mut t = self.state;
        t = (t ^ (t >> 15)).wrapping_mul(t | 1);
        t ^= t.wrapping_add((t ^ (t >> 7)).wrapping_mul(t | 61));
        t ^ (t >> 14)
    }

    /// Advances the state and returns a value in `[0, n)`.
    pub fn next_below(&mut self, n: usize) -> (j: usize)
        requires
            n >= 1,
        ensures
            final(self).state == rng_next_state(old(self).state),
            j as nat == scale_below(rng_output(final(self).state), n as nat),
            j < n,
    {
        let t = self.next_u32();
        assert((t as int) * (n as int) <= 0xffff_ffff * (n as int)) by (nonlinear_arith)
            requires
                t <= 0xffff_ffff,
                n >= 0,
        ;
        assert(0xffff_ffff * (n as int) < 0x1_0000_0000 * 0x1_0000_0000_0000_0000) by (nonlinear_arith)
            requires
                n <= 0xffff_ffff_ffff_ffff,
        ;
        let prod: u128 = (t as u128) * (n as u128);
        let q: u128 = prod / 0x1_0000_0000u128;
        assert(q < n) by (nonlinear_arith)
            requires
                prod <= 0xffff_ffff * n,
                q == prod / 0x1_0000_0000,
                n >= 1,
        {
            assert(prod < 0x1_0000_0000 * n);
        }
        q as usize
    }
}

/// All cells in row-major order.
pub open spec fn cell_order(rows: int, cols: int) -> Seq<(int, int)> {
    Seq::new((rows * cols) as nat, |k: int| (k / cols, k % cols))
}

/// One swap of the shuffle: exchange the entries at `i` and `j`.
pub open spec fn swapped(s: Seq<(int, int)>, i: int, j: int) -> Seq<(int, int)> {
    s.update(i, s[j]).update(j, s[i])
}

/// Fisher–Yates shuffle from index `i` down to 1, drawing from the generator in `state`.
pub open spec fn shuffle(s: Seq<(int, int)>, state: u32, i: nat) -> Seq<(int, int)>
    decreases i,
{
    if i == 0 {
        s
    } else {
        let st = rng_next_state(state);
        let j = scale_below(rng_output(st), i + 1);
        shuffle(swapped(s, i as int, j as int), st, (i - 1) as nat)
    }
}

/// The cells in the order in which mines are assigned to them for this seed.
pub open spec fn mine_order(rows: int, cols: int, seed: i32) -> Seq<(int, int)> {
    let pos = cell_order(rows, cols);
    if pos.len() <= 1 {
        pos
    } else {
        shuffle(pos, seed as u32, (pos.len() - 1) as nat)
    }
}

/// How many leading cells of the order receive a mine.
pub open spec fn mines_taken(mines: int, total: int) -> int {
    if mines < 0 || mines > total { total } else { mines }
}

pub open spec fn place_fn(chosen: Seq<(int, int)>) -> spec_fn(int, int, CellDto) -> CellDto {
    |r: int, c: int, cell: CellDto| if chosen.contains((r, c)) { CellDto { is_mine: true, ..cell } } else { cell }
}

/// The cells chosen to hold mines.
pub open spec fn chosen_cells(rows: int, cols: int, mines: int, seed: i32) -> Seq<(int, int)> {
    mine_order(rows, cols, seed).take(mines_taken(mines, rows * cols))
}

/// The board with mines added on the chosen cells.
pub open spec fn with_mines(b: Seq<Seq<CellDto>>, rows: int, cols: int, mines: int, seed: i32) -> Seq<Seq<CellDto>> {
    map_cells(b, place_fn(chosen_cells(rows, cols, mines, seed)))
}

proof fn lemma_cell_order_step(rows: int, cols: int, r: int, c: int)
    requires
        0 <= r < rows,
        0 <= c < cols,
    ensures
        r * cols + c < rows * cols,
        (r * cols + c) / cols == r,
        (r * cols + c) % cols == c,
{
    vstd::arithmetic::div_mod::lemma_fundamental_div_mod_converse(r * cols + c, cols, r, c);
    assert(r * cols + c < rows * cols) by (nonlinear_arith)
        requires
            0 <= r < rows,
            0 <= c < cols,
    ;
}

/// Members of the row-major order are exactly the in-bounds cells, each once.
pub proof fn lemma_cell_order(rows: int, cols: int)
    requires
        0 <= rows,
        0 <= cols,
    ensures
        cell_order(rows, cols).no_duplicates(),
        forall|p: (int, int)| #[trigger] cell_order(rows, cols).contains(p) <==> in_bounds(rows, cols, p.0, p.1),
{
    let o = cell_order(rows, cols);
    if cols > 0 {
        assert forall|k: int| 0 <= k < o.len() implies in_bounds(rows, cols, (#[trigger] o[k]).0, o[k].1) by {
            vstd::arithmetic::div_mod::lemma_fundamental_div_mod(k, cols);
            assert(0 <= k % cols < cols) by {
                vstd::arithmetic::div_mod::lemma_mod_pos_bound(k, cols);
            }
            assert(0 <= k / cols) by {
                vstd::arithmetic::div_mod::lemma_div_pos_is_pos(k, cols);
            }
            assert(k / cols < rows) by (nonlinear_arith)
                requires
                    k == cols * (k / cols) + k % cols,
                    0 <= k % cols,
                    k < rows * cols,
                    cols > 0,
            {
                if k / cols >= rows {
                    assert(cols * (k / cols) >= cols * rows);
                }
            }
        }
        assert forall|p: (int, int)| in_bounds(rows, cols, p.0, p.1) implies #[trigger] o.contains(p) by {
            lemma_cell_order_step(rows, cols, p.0, p.1);
            assert(o[p.0 * cols + p.1] == p);
        }
        assert forall|i: int, j: int| 0 <= i < o.len() && 0 <= j < o.len() && i != j implies o[i] != o[j] by {
            vstd::arithmetic::div_mod::lemma_fundamental_div_mod(i, cols);
            vstd::arithmetic::div_mod::lemma_fundamental_div_mod(j, cols);
        }
    } else {
        assert(rows * cols == 0) by (nonlinear_arith)
            requires
                cols == 0,
        ;
    }
}

proof fn lemma_swapped_perm(s: Seq<(int, int)>, i: int, j: int)
    requires
        0 <= i < s.len(),
        0 <= j < s.len(),
    ensures
        swapped(s, i, j).len() == s.len(),
        forall|x: (int, int)| #[trigger] swapped(s, i, j).contains(x) <==> s.contains(x),
        s.no_duplicates() ==> swapped(s, i, j).no_duplicates(),
{
    let t = swapped(s, i, j);
    assert forall|x: (int, int)| #[trigger] t.contains(x) implies s.contains(x) by {
        let w = choose|w: int| 0 <= w < t.len() && t[w] == x;
        if w == i {
            assert(s[j] == x);
        } else if w == j {
            assert(s[i] == x);
        } else {
            assert(s[w] == x);
        }
    }
    assert forall|x: (int, int)| s.contains(x) implies #[trigger] t.contains(x) by {
        let w = choose|w: int| 0 <= w < s.len() && s[w] == x;
        if w == i {
            assert(t[j] == x);
        } else if w == j {
            assert(t[i] == x);
        } else {
            assert(t[w] == x);
        }
    }
    if s.no_duplicates() {
        assert forall|a: int, b: int| 0 <= a < t.len() && 0 <= b < t.len() && a != b implies t[a] != t[b] by {
            let sa = if a == j { i } else if a == i { j } else { a };
            let sb = if b == j { i } else if b == i { j } else { b };
            assert(t[a] == s[sa]);
            assert(t[b] == s[sb]);
        }
    }
}

/// The shuffle only reorders: same length, same members, still no repeats.
pub proof fn lemma_shuffle_perm(s: Seq<(int, int)>, state: u32, i: nat)
    requires
        i < s.len(),
    ensures
        shuffle(s, state, i).len() == s.len(),
        forall|x: (int, int)| #[trigger] shuffle(s, state, i).contains(x) <==> s.contains(x),
        s.no_duplicates() ==> shuffle(s, state, i).no_duplicates(),
    decreases i,
{
    if i > 0 {
        let st = rng_next_state(state);
        let j = scale_below(rng_output(st), i + 1);
        assert(j < i + 1) by (nonlinear_arith)
            requires
                j == (rng_output(st) as nat * (i + 1)) / 0x1_0000_0000,
                rng_output(st) < 0x1_0000_0000,
        {
            assert(rng_output(st) as nat * (i + 1) < 0x1_0000_0000 * (i + 1));
        }
        lemma_swapped_perm(s, i as int, j as int);
        lemma_shuffle_perm(swapped(s, i as int, j as int), st, (i - 1) as nat);
    }
}

/// The mine order lists every in-bounds cell exactly once.
pub proof fn lemma_mine_order(rows: int, cols: int, seed: i32)
    requires
        0 <= rows,
        0 <= cols,
    ensures
        mine_order(rows, cols, seed).len() == cell_order(rows, cols).len(),
        mine_order(rows, cols, seed).no_duplicates(),
        forall|p: (int, int)| #[trigger] mine_order(rows, cols, seed).contains(p) <==> in_bounds(rows, cols, p.0, p.1),
{
    lemma_cell_order(rows, cols);
    let pos = cell_order(rows, cols);
    if pos.len() > 1 {
        lemma_shuffle_perm(pos, seed as u32, (pos.len() - 1) as nat);
    }
}

/// Places `mines` mines (all cells when `mines` is negative or exceeds the cell count)
/// on the cells picked by a seeded shuffle of all cells.
pub fn place_mines_initial(board: &mut Vec<Vec<CellDto>>, rows: i32, cols: i32, mines: i32, seed: i32)
    requires
        well_formed(board_view(old(board)), rows as int, cols as int),
    ensures
        board_view(final(board)) == with_mines(board_view(old(board)), rows as int, cols as int, mines as int, seed),
        well_formed(board_view(final(board)), rows as int, cols as int),
{
    let ghost b0 = board_view(board);
    let ghost total = rows * cols;
    proof {
        assert(0 <= total) by (nonlinear_arith)
            requires
                0 <= rows,
                0 <= cols,
                total == rows * cols,
        ;
    }
    let mut positions: Vec<(i32, i32)> = Vec::new();
    let mut r: i32 = 0;
    while r < rows
        invariant
            0 <= r <= rows,
            0 <= cols,
            crate::board::pairs_view(positions@) == cell_order(rows as int, cols as int).take(r * cols),
            r * cols <= rows * cols,
        decreases rows - r,
    {
        let mut c: i32 = 0;
        while c < cols
            invariant
                0 <= r < rows,
                0 <= c <= cols,
                crate::board::pairs_view(positions@) == cell_order(rows as int, cols as int).take(r * cols + c),
            decreases cols - c,
        {
            let ghost prev = positions@;
            positions.push((r, c));
            proof {
                lemma_cell_order_step(rows as int, cols as int, r as int, c as int);
                let o = cell_order(rows as int, cols as int);
                assert(crate::board::pairs_view(positions@) =~= crate::board::pairs_view(prev).push((r as int, c as int)));
                assert(o[r * cols + c] == (r as int, c as int));
                assert(crate::board::pairs_view(positions@) =~= o.take(r * cols + c + 1));
            }
            c = c + 1;
        }
        assert((r + 1) * cols == r * cols + cols) by (nonlinear_arith);
        assert((r + 1) * cols <= rows * cols) by (nonlinear_arith)
            requires
                r + 1 <= rows,
                0 <= cols,
        ;
        r = r + 1;
    }
    let ghost order = cell_order(rows as int, cols as int);
    assert(order.take(rows * cols) =~= order);
    let n = positions.len();
    let mut rnd = create_seeded_random(seed);
    if n > 1 {
        let mut i: usize = n - 1;
        while i > 0
            invariant
                0 <= i < n,
                n == positions@.len(),
                n == order.len(),
                n > 1,
                shuffle(crate::board::pairs_view(positions@), rnd.state, i as nat) == mine_order(rows as int, cols as int, seed),
            decreases i,
        {
            let j = rnd.next_below(i + 1);
            let a = positions[i];
            let b = positions[j];
            let ghost before = crate::board::pairs_view(positions@);
            positions.set(i, b);
            positions.set(j, a);
            assert(crate::board::pairs_view(positions@) =~= swapped(before, i as int, j as int));
            i = i - 1;
        }
    }
    let ghost mo = crate::board::pairs_view(positions@);
    assert(mo == mine_order(rows as int, cols as int, seed));
    let take: usize = if mines < 0 {
        n
    } else if (mines as usize) < n {
        mines as usize
    } else {
        n
    };
    assert(take == mines_taken(mines as int, total));
    proof {
        lemma_mine_order(rows as int, cols as int, seed);
        assert forall|q: int| 0 <= q < n implies in_bounds(rows as int, cols as int, (#[trigger] mo[q]).0, mo[q].1) by {
            assert(mo.contains(mo[q]));
        }
        let m0 = map_cells(b0, place_fn(mo.take(0)));
        lemma_map_cells_shape(b0, place_fn(mo.take(0)), rows as int, cols as int);
        assert forall|i: int| 0 <= i < rows implies #[trigger] b0[i] == m0[i] by {
            assert(b0[i] =~= m0[i]);
        }
        assert(b0 =~= m0);
    }
    let ghost chosen = chosen_cells(rows as int, cols as int, mines as int, seed);
    let mut k: usize = 0;
    while k < take
        invariant
            0 <= k <= take,
            take <= n,
            n == positions@.len(),
            crate::board::pairs_view(positions@) == mo,
            chosen == mo.take(take as int),
            well_formed(b0, rows as int, cols as int),
            forall|q: int| 0 <= q < n ==> in_bounds(rows as int, cols as int, (#[trigger] mo[q]).0, mo[q].1),
            board_view(board) == map_cells(b0, place_fn(mo.take(k as int))),
        decreases take - k,
    {
        let (pr, pc) = positions[k];
        proof {
            assert(mo[k as int] == (pr as int, pc as int));
            lemma_map_cells_shape(b0, place_fn(mo.take(k as int)), rows as int, cols as int);
            lemma_view_shape(board);
            assert(board_view(board)[pr as int].len() == cols);
        }
        let mut cell = board[pr as usize][pc as usize];
        cell.is_mine = true;
        set_cell(board, pr as usize, pc as usize, cell);
        proof {
            let t0 = mo.take(k as int);
            let t1 = mo.take(k + 1);
            assert(t1 == t0.push((pr as int, pc as int)));
            let m1 = map_cells(b0, place_fn(t1));
            let bn = board_view(board);
            lemma_map_cells_shape(b0, place_fn(t1), rows as int, cols as int);
            assert forall|i: int| 0 <= i < rows implies #[trigger] bn[i] == m1[i] by {
                assert forall|j: int| 0 <= j < cols implies #[trigger] bn[i][j] == m1[i][j] by {
                    if (i, j) != (pr as int, pc as int) {
                        assert(t1.contains((i, j)) == t0.contains((i, j))) by {
                            if t1.contains((i, j)) {
                                let w = choose|w: int| 0 <= w < t1.len() && t1[w] == (i, j);
                                assert(t0[w] == (i, j));
                            }
                            if t0.contains((i, j)) {
                                let w = choose|w: int| 0 <= w < t0.len() && t0[w] == (i, j);
                                assert(t1[w] == (i, j));
                            }
                        }
                    } else {
                        assert(t1[k as int] == (i, j));
                    }
                }
                assert(bn[i] =~= m1[i]);
            }
            assert(bn =~= m1);
        }
        k = k + 1;
    }
    proof {
        lemma_map_cells_shape(b0, place_fn(chosen), rows as int, cols as int);
    }
}

/// Offset number `k` (0 to 8) of the 3x3 zone around a cell, centre included, row-major.
pub open spec fn zone_offset(k: int) -> (int, int) {
    (k / 3 - 1, k % 3 - 1)
}

/// `(x, y)` lies in the 3x3 zone centred on `(r, c)`.
pub open spec fn in_zone(r: int, c: int, x: int, y: int) -> bool {
    -1 <= x - r <= 1 && -1 <= y - c <= 1
}

pub open spec fn zone_mines_upto(b: Seq<Seq<CellDto>>, rows: int, cols: int, r: int, c: int, k: nat) -> Seq<(int, int)>
    decreases k,
{
    if k == 0 {
        Seq::empty()
    } else {
        let prev = zone_mines_upto(b, rows, cols, r, c, (k - 1) as nat);
        let o = zone_offset(k - 1);
        let n = (r + o.0, c + o.1);
        if in_bounds(rows, cols, n.0, n.1) && cell_at(b, n).is_mine {
            prev.push(n)
        } else {
            prev
        }
    }
}

/// The mines in the 3x3 zone around `(r, c)`, row-major.
pub open spec fn zone_mines(b: Seq<Seq<CellDto>>, rows: int, cols: int, r: int, c: int) -> Seq<(int, int)> {
    zone_mines_upto(b, rows, cols, r, c, 9)
}

/// A cell that can take a mine moved out of the zone around `(r, c)`.
pub open spec fn free_cell(b: Seq<Seq<CellDto>>, r: int, c: int, p: (int, int)) -> bool {
    !in_zone(r, c, p.0, p.1) && !cell_at(b, p).is_mine
}

pub open spec fn free_in(b: Seq<Seq<CellDto>>, r: int, c: int, s: Seq<(int, int)>) -> Seq<(int, int)>
    decreases s.len(),
{
    if s.len() == 0 {
        Seq::empty()
    } else {
        let prev = free_in(b, r, c, s.drop_last());
        if free_cell(b, r, c, s.last()) {
            prev.push(s.last())
        } else {
            prev
        }
    }
}

/// Cells outside the zone around `(r, c)` without a mine, row-major.
pub open spec fn free_cells(b: Seq<Seq<CellDto>>, rows: int, cols: int, r: int, c: int) -> Seq<(int, int)> {
    free_in(b, r, c, cell_order(rows, cols))
}

pub open spec fn relocate_fn(from: Seq<(int, int)>, to: Seq<(int, int)>) -> spec_fn(int, int, CellDto) -> CellDto {
    |r: int, c: int, cell: CellDto|
        if to.contains((r, c)) {
            CellDto { is_mine: true, ..cell }
        } else if from.contains((r, c)) {
            CellDto { is_mine: false, ..cell }
        } else {
            cell
        }
}

/// How many zone mines get moved: as many as there are free cells for.
pub open spec fn moved_count(b: Seq<Seq<CellDto>>, rows: int, cols: int, r: int, c: int) -> int {
    let z = zone_mines(b, rows, cols, r, c).len();
    let f = free_cells(b, rows, cols, r, c).len();
    if z <= f { z as int } else { f as int }
}

/// The board after moving the mines of the zone around `(r, c)`, in order, to the first free cells.
pub open spec fn relocated(b: Seq<Seq<CellDto>>, rows: int, cols: int, r: int, c: int) -> Seq<Seq<CellDto>> {
    let m = moved_count(b, rows, cols, r, c);
    map_cells(b, relocate_fn(zone_mines(b, rows, cols, r, c).take(m), free_cells(b, rows, cols, r, c).take(m)))
}

proof fn lemma_zone_mines_upto(b: Seq<Seq<CellDto>>, rows: int, cols: int, r: int, c: int, k: nat)
    requires
        k <= 9,
    ensures
        zone_mines_upto(b, rows, cols, r, c, k).len() <= k,
        forall|i: int| 0 <= i < zone_mines_upto(b, rows, cols, r, c, k).len() ==> {
            let p = #[trigger] zone_mines_upto(b, rows, cols, r, c, k)[i];
            &&& in_bounds(rows, cols, p.0, p.1)
            &&& in_zone(r, c, p.0, p.1)
            &&& cell_at(b, p).is_mine
            &&& exists|j: int| 0 <= j < k && p == (r + zone_offset(j).0, c + zone_offset(j).1)
        },
        forall|j: int| 0 <= j < k && in_bounds(rows, cols, r + zone_offset(j).0, c + zone_offset(j).1)
            && cell_at(b, (r + zone_offset(j).0, c + zone_offset(j).1)).is_mine ==>
            zone_mines_upto(b, rows, cols, r, c, k).contains((r + #[trigger] zone_offset(j).0, c + zone_offset(j).1)),
        zone_mines_upto(b, rows, cols, r, c, k).no_duplicates(),
    decreases k,
{
    if k > 0 {
        lemma_zone_mines_upto(b, rows, cols, r, c, (k - 1) as nat);
        let prev = zone_mines_upto(b, rows, cols, r, c, (k - 1) as nat);
        let o = zone_offset(k - 1);
        let n = (r + o.0, c + o.1);
        let cur = zone_mines_upto(b, rows, cols, r, c, k);
        if in_bounds(rows, cols, n.0, n.1) && cell_at(b, n).is_mine {
            assert(cur == prev.push(n));
            assert forall|i: int| 0 <= i < cur.len() implies {
                let p = #[trigger] cur[i];
                &&& in_bounds(rows, cols, p.0, p.1)
                &&& in_zone(r, c, p.0, p.1)
                &&& cell_at(b, p).is_mine
                &&& exists|j: int| 0 <= j < k && p == (r + zone_offset(j).0, c + zone_offset(j).1)
            } by {
                if i == prev.len() {
                    assert(cur[i] == (r + zone_offset(k - 1).0, c + zone_offset(k - 1).1));
                } else {
                    assert(cur[i] == prev[i]);
                }
            }
            assert forall|j: int| 0 <= j < k && in_bounds(rows, cols, r + zone_offset(j).0, c + zone_offset(j).1)
                && cell_at(b, (r + zone_offset(j).0, c + zone_offset(j).1)).is_mine implies
                cur.contains((r + #[trigger] zone_offset(j).0, c + zone_offset(j).1)) by {
                if j == k - 1 {
                    assert(cur[prev.len() as int] == (r + zone_offset(j).0, c + zone_offset(j).1));
                } else {
                    let w = choose|w: int| 0 <= w < prev.len() && prev[w] == (r + zone_offset(j).0, c + zone_offset(j).1);
                    assert(cur[w] == prev[w]);
                }
            }
            assert forall|i: int, i2: int| 0 <= i < cur.len() && 0 <= i2 < cur.len() && i != i2 implies cur[i] != cur[i2] by {
                if i2 == prev.len() {
                    let p = prev[i];
                    let j = choose|j: int| 0 <= j < k - 1 && p == (r + zone_offset(j).0, c + zone_offset(j).1);
                    assert(cur[i] == prev[i]);
                } else if i == prev.len() {
                    let p = prev[i2];
                    let j = choose|j: int| 0 <= j < k - 1 && p == (r + zone_offset(j).0, c + zone_offset(j).1);
                    assert(cur[i2] == prev[i2]);
                } else {
                    assert(cur[i] == prev[i] && cur[i2] == prev[i2]);
                }
            }
        }
    }
}

/// The zone list holds exactly the in-bounds mines of the zone, each once.
pub proof fn lemma_zone_mines(b: Seq<Seq<CellDto>>, rows: int, cols: int, r: int, c: int)
    ensures
        zone_mines(b, rows, cols, r, c).len() <= 9,
        forall|i: int| 0 <= i < zone_mines(b, rows, cols, r, c).len() ==> {
            let p = #[trigger] zone_mines(b, rows, cols, r, c)[i];
            in_bounds(rows, cols, p.0, p.1) && in_zone(r, c, p.0, p.1) && cell_at(b, p).is_mine
        },
        forall|p: (int, int)| in_bounds(rows, cols, p.0, p.1) && in_zone(r, c, p.0, p.1) && cell_at(b, p).is_mine ==>
            #[trigger] zone_mines(b, rows, cols, r, c).contains(p),
        zone_mines(b, rows, cols, r, c).no_duplicates(),
{
    lemma_zone_mines_upto(b, rows, cols, r, c, 9);
    let z = zone_mines(b, rows, cols, r, c);
    assert forall|p: (int, int)| in_bounds(rows, cols, p.0, p.1) && in_zone(r, c, p.0, p.1) && cell_at(b, p).is_mine implies
        #[trigger] z.contains(p) by {
        let j = (p.0 - r + 1) * 3 + (p.1 - c + 1);
        assert(zone_offset(j) == (p.0 - r, p.1 - c));
        assert((r + zone_offset(j).0, c + zone_offset(j).1) == p);
    }
}

/// The free list holds, in order, exactly the free members of `s`, each once when `s` has no repeats.
pub proof fn lemma_free_in(b: Seq<Seq<CellDto>>, r: int, c: int, s: Seq<(int, int)>)
    ensures
        free_in(b, r, c, s).len() <= s.len(),
        forall|p: (int, int)| #[trigger] free_in(b, r, c, s).contains(p) <==> s.contains(p) && free_cell(b, r, c, p),
        s.no_duplicates() ==> free_in(b, r, c, s).no_duplicates(),
    decreases s.len(),
{
    if s.len() > 0 {
        let d = s.drop_last();
        lemma_free_in(b, r, c, d);
        let prev = free_in(b, r, c, d);
        let cur = free_in(b, r, c, s);
        assert forall|p: (int, int)| #[trigger] cur.contains(p) <==> s.contains(p) && free_cell(b, r, c, p) by {
            if cur.contains(p) {
                let w = choose|w: int| 0 <= w < cur.len() && cur[w] == p;
                if w < prev.len() {
                    assert(prev[w] == p);
                    assert(prev.contains(p));
                    let v = choose|v: int| 0 <= v < d.len() && d[v] == p;
                    assert(s[v] == p);
                } else {
                    assert(s[s.len() - 1] == p);
                }
            }
            if s.contains(p) && free_cell(b, r, c, p) {
                let v = choose|v: int| 0 <= v < s.len() && s[v] == p;
                if v < s.len() - 1 {
                    assert(d[v] == p);
                    assert(prev.contains(p));
                    let w = choose|w: int| 0 <= w < prev.len() && prev[w] == p;
                    if free_cell(b, r, c, s.last()) {
                        assert(cur[w] == p);
                    }
                } else {
                    assert(cur[cur.len() - 1] == p);
                }
            }
        }
        if s.no_duplicates() {
            assert(d.no_duplicates()) by {
                assert forall|i: int, j: int| 0 <= i < d.len() && 0 <= j < d.len() && i != j implies d[i] != d[j] by {
                    assert(d[i] == s[i] && d[j] == s[j]);
                }
            }
            if free_cell(b, r, c, s.last()) {
                assert(!d.contains(s.last())) by {
                    if d.contains(s.last()) {
                        let v = choose|v: int| 0 <= v < d.len() && d[v] == s.last();
                        assert(s[v] == s[s.len() - 1]);
                    }
                }
                assert(!prev.contains(s.last()));
                assert forall|i: int, j: int| 0 <= i < cur.len() && 0 <= j < cur.len() && i != j implies cur[i] != cur[j] by {
                    if i == prev.len() {
                        assert(prev.contains(cur[j]));
                    } else if j == prev.len() {
                        assert(prev.contains(cur[i]));
                    } else {
                        assert(cur[i] == prev[i] && cur[j] == prev[j]);
                    }
                }
            }
        }
    }
}

/// Moves the mines of the 3x3 zone around the clicked cell, in row-major order,
/// to the first cells (row-major) outside the zone that hold no mine, as long as such cells remain.
pub fn relocate_mines_from_zone(board: &mut Vec<Vec<CellDto>>, rows: i32, cols: i32, click_row: i32, click_col: i32)
    requires
        well_formed(board_view(old(board)), rows as int, cols as int),
        i32::MIN < click_row < i32::MAX,
        i32::MIN < click_col < i32::MAX,
    ensures
        board_view(final(board)) == relocated(board_view(old(board)), rows as int, cols as int, click_row as int, click_col as int),
        well_formed(board_view(final(board)), rows as int, cols as int),
{
    let ghost b0 = board_view(board);
    let ghost cr = click_row as int;
    let ghost cc = click_col as int;
    proof { lemma_view_shape(board); }
    let mut mines_to_move: Vec<(i32, i32)> = Vec::new();
    let mut k: usize = 0;
    while k < 9
        invariant
            0 <= k <= 9,
            b0 == board_view(board),
            well_formed(b0, rows as int, cols as int),
            i32::MIN < cr < i32::MAX,
            i32::MIN < cc < i32::MAX,
            cr == click_row,
            cc == click_col,
            crate::board::pairs_view(mines_to_move@) == zone_mines_upto(b0, rows as int, cols as int, cr, cc, k as nat),
        decreases 9 - k,
    {
        let dr: i32 = (k / 3) as i32 - 1;
        let dc: i32 = (k % 3) as i32 - 1;
        assert(zone_offset(k as int) == (dr as int, dc as int));
        let nr = click_row + dr;
        let nc = click_col + dc;
        let ghost prev = mines_to_move@;
        if nr >= 0 && nr < rows && nc >= 0 && nc < cols {
            proof {
                lemma_view_shape(board);
                assert(b0[nr as int].len() == cols);
            }
            if board[nr as usize][nc as usize].is_mine {
                mines_to_move.push((nr, nc));
                assert(crate::board::pairs_view(mines_to_move@) =~= crate::board::pairs_view(prev).push((nr as int, nc as int)));
            }
        }
        k = k + 1;
    }
    let ghost zone = zone_mines(b0, rows as int, cols as int, cr, cc);
    proof { lemma_zone_mines(b0, rows as int, cols as int, cr, cc); }
    let ghost order = cell_order(rows as int, cols as int);
    let ghost free_all = free_cells(b0, rows as int, cols as int, cr, cc);
    if mines_to_move.len() == 0 {
        proof {
            let m0 = relocated(b0, rows as int, cols as int, cr, cc);
            let f = relocate_fn(zone.take(0), free_all.take(0));
            lemma_map_cells_shape(b0, f, rows as int, cols as int);
            assert forall|i: int| 0 <= i < rows implies #[trigger] b0[i] == m0[i] by {
                assert(b0[i] =~= m0[i]);
            }
            assert(b0 =~= m0);
        }
        return;
    }
    proof {
        let p = zone[0];
        assert(in_bounds(rows as int, cols as int, p.0, p.1) && in_zone(cr, cc, p.0, p.1));
    }
    let mut free: Vec<(i32, i32)> = Vec::new();
    let mut r: i32 = 0;
    while r < rows
        invariant
            0 <= r <= rows,
            0 <= cols,
            b0 == board_view(board),
            well_formed(b0, rows as int, cols as int),
            -1 <= cr <= rows,
            -1 <= cc <= cols,
            cr == click_row,
            cc == click_col,
            order == cell_order(rows as int, cols as int),
            crate::board::pairs_view(free@) == free_in(b0, cr, cc, order.take(r * cols)),
            r * cols <= rows * cols,
        decreases rows - r,
    {
        let mut c: i32 = 0;
        while c < cols
            invariant
                0 <= r < rows,
                0 <= c <= cols,
                b0 == board_view(board),
                well_formed(b0, rows as int, cols as int),
                -1 <= cr <= rows,
                -1 <= cc <= cols,
                cr == click_row,
                cc == click_col,
                order == cell_order(rows as int, cols as int),
                crate::board::pairs_view(free@) == free_in(b0, cr, cc, order.take(r * cols + c)),
            decreases cols - c,
        {
            proof {
                lemma_cell_order_step(rows as int, cols as int, r as int, c as int);
                lemma_view_shape(board);
                assert(b0[r as int].len() == cols);
            }
            let in_zone_now = (r - click_row) >= -1 && (r - click_row) <= 1 && (c - click_col) >= -1 && (c - click_col) <= 1;
            let ghost prev = free@;
            let ghost t1 = order.take(r * cols + c + 1);
            assert(t1.drop_last() =~= order.take(r * cols + c));
            assert(t1.last() == (r as int, c as int));
            if !in_zone_now && !board[r as usize][c as usize].is_mine {
                free.push((r, c));
                assert(crate::board::pairs_view(free@) =~= crate::board::pairs_view(prev).push((r as int, c as int)));
            }
            c = c + 1;
        }
        assert((r + 1) * cols == r * cols + cols) by (nonlinear_arith);
        assert((r + 1) * cols <= rows * cols) by (nonlinear_arith)
            requires
                r + 1 <= rows,
                0 <= cols,
        ;
        r = r + 1;
    }
    assert(order.take(rows * cols) =~= order);
    assert(crate::board::pairs_view(free@) == free_all);
    proof {
        lemma_cell_order(rows as int, cols as int);
        lemma_free_in(b0, cr, cc, order);
    }
    let ghost m = moved_count(b0, rows as int, cols as int, cr, cc);
    assert(zone.len() == mines_to_move@.len());
    assert(free_all.len() == free@.len());
    proof {
        let f = relocate_fn(zone.take(0), free_all.take(0));
        let m0 = map_cells(b0, f);
        lemma_map_cells_shape(b0, f, rows as int, cols as int);
        assert forall|i: int| 0 <= i < rows implies #[trigger] b0[i] == m0[i] by {
            assert(b0[i] =~= m0[i]);
        }
        assert(b0 =~= m0);
    }
    let mut idx: usize = 0;
    while idx < mines_to_move.len()
        invariant_except_break
            idx <= mines_to_move@.len(),
            idx <= free@.len(),
            crate::board::pairs_view(mines_to_move@) == zone,
            crate::board::pairs_view(free@) == free_all,
            zone == zone_mines(b0, rows as int, cols as int, cr, cc),
            free_all == free_cells(b0, rows as int, cols as int, cr, cc),
            zone.len() == mines_to_move@.len(),
            free_all.len() == free@.len(),
            m == moved_count(b0, rows as int, cols as int, cr, cc),
            well_formed(b0, rows as int, cols as int),
            forall|i: int| 0 <= i < zone.len() ==> {
                let p = #[trigger] zone[i];
                in_bounds(rows as int, cols as int, p.0, p.1) && in_zone(cr, cc, p.0, p.1) && cell_at(b0, p).is_mine
            },
            forall|p: (int, int)| #[trigger] free_all.contains(p) <==> order.contains(p) && free_cell(b0, cr, cc, p),
            forall|p: (int, int)| #[trigger] order.contains(p) <==> in_bounds(rows as int, cols as int, p.0, p.1),
            board_view(board) == map_cells(b0, relocate_fn(zone.take(idx as int), free_all.take(idx as int))),
        ensures
            board_view(board) == map_cells(b0, relocate_fn(zone.take(m), free_all.take(m))),
        decreases mines_to_move@.len() - idx,
    {
        if idx >= free.len() {
            assert(m == idx);
            break;
        }
        let from = mines_to_move[idx];
        let to = free[idx];
        let ghost fp = (from.0 as int, from.1 as int);
        let ghost tp = (to.0 as int, to.1 as int);
        assert(crate::board::pairs_view(mines_to_move@)[idx as int] == fp);
        assert(crate::board::pairs_view(free@)[idx as int] == tp);
        assert(zone[idx as int] == fp);
        assert(free_all[idx as int] == tp);
        assert(free_all.contains(tp));
        let ghost f0 = relocate_fn(zone.take(idx as int), free_all.take(idx as int));
        let ghost f1 = relocate_fn(zone.take(idx + 1), free_all.take(idx + 1));
        proof {
            lemma_map_cells_shape(b0, f0, rows as int, cols as int);
            lemma_view_shape(board);
            assert(board_view(board)[fp.0].len() == cols);
            assert(board_view(board)[tp.0].len() == cols);
        }
        let mut fcell = board[from.0 as usize][from.1 as usize];
        fcell.is_mine = false;
        set_cell(board, from.0 as usize, from.1 as usize, fcell);
        proof {
            lemma_view_shape(board);
            assert(board_view(board)[tp.0].len() == cols);
        }
        let mut tcell = board[to.0 as usize][to.1 as usize];
        tcell.is_mine = true;
        set_cell(board, to.0 as usize, to.1 as usize, tcell);
        proof {
            let bn = board_view(board);
            let m1 = map_cells(b0, f1);
            lemma_map_cells_shape(b0, f1, rows as int, cols as int);
            let z0 = zone.take(idx as int);
            let z1 = zone.take(idx + 1);
            let t0 = free_all.take(idx as int);
            let t1 = free_all.take(idx + 1);
            assert(z1 == z0.push(fp));
            assert(t1 == t0.push(tp));
            assert(!free_cell(b0, cr, cc, fp));
            assert(fp != tp);
            assert(!t1.contains(fp)) by {
                if t1.contains(fp) {
                    let w = choose|w: int| 0 <= w < t1.len() && t1[w] == fp;
                    assert(free_all[w] == fp);
                    assert(free_all.contains(fp));
                }
            }
            assert forall|i: int| 0 <= i < rows implies #[trigger] bn[i] == m1[i] by {
                assert forall|j: int| 0 <= j < cols implies #[trigger] bn[i][j] == m1[i][j] by {
                    if (i, j) == tp {
                        assert(t1[idx as int] == tp);
                    } else if (i, j) == fp {
                        assert(z1[idx as int] == fp);
                    } else {
                        assert(t1.contains((i, j)) == t0.contains((i, j))) by {
                            if t1.contains((i, j)) {
                                let w = choose|w: int| 0 <= w < t1.len() && t1[w] == (i, j);
                                assert(t0[w] == (i, j));
                            }
                            if t0.contains((i, j)) {
                                let w = choose|w: int| 0 <= w < t0.len() && t0[w] == (i, j);
                                assert(t1[w] == (i, j));
                            }
                        }
                        assert(z1.contains((i, j)) == z0.contains((i, j))) by {
                            if z1.contains((i, j)) {
                                let w = choose|w: int| 0 <= w < z1.len() && z1[w] == (i, j);
                                assert(z0[w] == (i, j));
                            }
                            if z0.contains((i, j)) {
                                let w = choose|w: int| 0 <= w < z0.len() && z0[w] == (i, j);
                                assert(z1[w] == (i, j));
                            }
                        }
                    }
                }
                assert(bn[i] =~= m1[i]);
            }
            assert(bn =~= m1);
        }
        idx = idx + 1;
    }
    proof {
        lemma_map_cells_shape(b0, relocate_fn(zone.take(m), free_all.take(m)), rows as int, cols as int);
    }
}

/// A fresh board of the given size with mines placed by the seeded shuffle.
pub open spec fn new_board_spec(rows: i32, cols: i32, mines: i32, seed: i32) -> Seq<Seq<CellDto>> {
    let r = if rows < 0 { 0 } else { rows as int };
    let c = if cols < 0 { 0 } else { cols as int };
    with_mines(empty_board(r, c), r, c, mines as int, seed)
}

/// Builds a fresh board and places its mines from the seed.
pub fn new_board(rows: i32, cols: i32, mines: i32, seed: i32) -> (board: Vec<Vec<CellDto>>)
    ensures
        board_view(&board) == new_board_spec(rows, cols, mines, seed),
{
    let r: i32 = if rows < 0 { 0 } else { rows };
    let c: i32 = if cols < 0 { 0 } else { cols };
    let mut board = create_empty_board(rows, cols);
    proof {
        let e = empty_board(r as int, c as int);
        assert(board_view(&board) == e);
        assert forall|i: int| 0 <= i < r implies #[trigger] e[i].len() == c by {}
    }
    place_mines_initial(&mut board, r, c, mines, seed);
    board
}

/// A fresh board holds exactly the requested number of mines (capped at the number of
/// cells, and every cell when the count is negative), and all its cells are closed and unmarked.
pub proof fn law_new_board_mine_count(rows: i32, cols: i32, mines: i32, seed: i32)
    requires
        0 <= rows,
        0 <= cols,
    ensures
        mine_set(new_board_spec(rows, cols, mines, seed), rows as int, cols as int).finite(),
        mine_set(new_board_spec(rows, cols, mines, seed), rows as int, cols as int).len() == mines_taken(
            mines as int,
            rows * cols,
        ),
        forall|i: int, j: int| 0 <= i < rows && 0 <= j < cols ==> {
            let cell = #[trigger] new_board_spec(rows, cols, mines, seed)[i][j];
            !cell.is_open && cell.mark == crate::board::CellMark::Unmarked
        },
{
    let e = empty_board(rows as int, cols as int);
    let chosen = chosen_cells(rows as int, cols as int, mines as int, seed);
    let b = new_board_spec(rows, cols, mines, seed);
    let mo = mine_order(rows as int, cols as int, seed);
    let total = rows * cols;
    assert(0 <= total) by (nonlinear_arith)
        requires
            0 <= rows,
            0 <= cols,
            total == rows * cols,
    ;
    lemma_mine_order(rows as int, cols as int, seed);
    assert forall|i: int| 0 <= i < rows implies #[trigger] e[i].len() == cols by {}
    lemma_map_cells_shape(e, place_fn(chosen), rows as int, cols as int);
    let k = mines_taken(mines as int, total);
    assert(chosen == mo.take(k));
    assert(chosen.no_duplicates()) by {
        assert forall|a: int, c: int| 0 <= a < chosen.len() && 0 <= c < chosen.len() && a != c implies chosen[a] != chosen[c] by {
            assert(chosen[a] == mo[a] && chosen[c] == mo[c]);
        }
    }
    chosen.unique_seq_to_set();
    assert(mine_set(b, rows as int, cols as int) =~= chosen.to_set()) by {
        assert forall|p: (int, int)| mine_set(b, rows as int, cols as int).contains(p) implies chosen.to_set().contains(p) by {
            assert(b[p.0][p.1] == place_fn(chosen)(p.0, p.1, e[p.0][p.1]));
        }
        assert forall|p: (int, int)| chosen.to_set().contains(p) implies mine_set(b, rows as int, cols as int).contains(p) by {
            let w = choose|w: int| 0 <= w < chosen.len() && chosen[w] == p;
            assert(mo[w] == p);
            assert(mo.contains(p));
            assert(b[p.0][p.1] == place_fn(chosen)(p.0, p.1, e[p.0][p.1]));
        }
    }
}

/// Moving mines out of the zone keeps their number.
pub proof fn law_relocation_keeps_mine_count(b: Seq<Seq<CellDto>>, rows: int, cols: int, r: int, c: int)
    requires
        well_formed(b, rows, cols),
    ensures
        mine_set(b, rows, cols).finite(),
        mine_set(relocated(b, rows, cols, r, c), rows, cols).len() == mine_set(b, rows, cols).len(),
{
    let z = zone_mines(b, rows, cols, r, c);
    let fr = free_cells(b, rows, cols, r, c);
    let m = moved_count(b, rows, cols, r, c);
    let from = z.take(m);
    let to = fr.take(m);
    let nb = relocated(b, rows, cols, r, c);
    let f = relocate_fn(from, to);
    lemma_zone_mines(b, rows, cols, r, c);
    lemma_cell_order(rows, cols);
    lemma_free_in(b, r, c, cell_order(rows, cols));
    lemma_map_cells_shape(b, f, rows, cols);
    let grid = cell_order(rows, cols).to_set();
    let before = mine_set(b, rows, cols);
    let after = mine_set(nb, rows, cols);
    assert(before.subset_of(grid));
    vstd::set_lib::lemma_set_subset_finite(grid, before);
    let fs = from.to_set();
    let ts = to.to_set();
    assert(from.no_duplicates()) by {
        assert forall|a: int, d: int| 0 <= a < from.len() && 0 <= d < from.len() && a != d implies from[a] != from[d] by {
            assert(from[a] == z[a] && from[d] == z[d]);
        }
    }
    assert(to.no_duplicates()) by {
        assert forall|a: int, d: int| 0 <= a < to.len() && 0 <= d < to.len() && a != d implies to[a] != to[d] by {
            assert(to[a] == fr[a] && to[d] == fr[d]);
        }
    }
    from.unique_seq_to_set();
    to.unique_seq_to_set();
    assert(fs.subset_of(before)) by {
        assert forall|p: (int, int)| fs.contains(p) implies before.contains(p) by {
            let w = choose|w: int| 0 <= w < from.len() && from[w] == p;
            assert(z[w] == p);
        }
    }
    assert(ts.disjoint(before)) by {
        assert forall|p: (int, int)| ts.contains(p) implies !before.contains(p) by {
            let w = choose|w: int| 0 <= w < to.len() && to[w] == p;
            assert(fr[w] == p);
            assert(fr.contains(p));
        }
    }
    assert(after =~= before.difference(fs).union(ts)) by {
        assert forall|p: (int, int)| after.contains(p) <==> before.difference(fs).union(ts).contains(p) by {
            if in_bounds(rows, cols, p.0, p.1) {
                assert(nb[p.0][p.1] == f(p.0, p.1, b[p.0][p.1]));
            }
            if ts.contains(p) {
                let w = choose|w: int| 0 <= w < to.len() && to[w] == p;
                assert(fr[w] == p);
                assert(fr.contains(p));
                assert(cell_order(rows, cols).contains(p));
            }
            if fs.contains(p) {
                let w = choose|w: int| 0 <= w < from.len() && from[w] == p;
                assert(z[w] == p);
            }
        }
    }
    vstd::set_lib::lemma_set_subset_finite(before, fs);
    vstd::set_lib::lemma_len_subset(fs, before);
    let d = before.difference(fs);
    vstd::set_lib::lemma_set_difference_len(before, fs);
    assert(before.intersect(fs) =~= fs);
    assert(d.disjoint(ts));
    vstd::set_lib::lemma_set_disjoint_lens(d, ts);
}

/// When there is room outside the zone for all its mines, the zone is left without mines.
pub proof fn law_relocation_clears_zone(b: Seq<Seq<CellDto>>, rows: int, cols: int, r: int, c: int)
    requires
        well_formed(b, rows, cols),
        zone_mines(b, rows, cols, r, c).len() <= free_cells(b, rows, cols, r, c).len(),
    ensures
        forall|x: int, y: int| in_bounds(rows, cols, x, y) && in_zone(r, c, x, y) ==>
            !(#[trigger] relocated(b, rows, cols, r, c)[x][y]).is_mine,
{
    let z = zone_mines(b, rows, cols, r, c);
    let fr = free_cells(b, rows, cols, r, c);
    let m = moved_count(b, rows, cols, r, c);
    let f = relocate_fn(z.take(m), fr.take(m));
    lemma_zone_mines(b, rows, cols, r, c);
    lemma_cell_order(rows, cols);
    lemma_free_in(b, r, c, cell_order(rows, cols));
    lemma_map_cells_shape(b, f, rows, cols);
    assert(z.take(m) =~= z);
    assert forall|x: int, y: int| in_bounds(rows, cols, x, y) && in_zone(r, c, x, y) implies
        !(#[trigger] relocated(b, rows, cols, r, c)[x][y]).is_mine by {
        let nb = relocated(b, rows, cols, r, c);
        assert(nb[x][y] == f(x, y, b[x][y]));
        if fr.take(m).contains((x, y)) {
            let w = choose|w: int| 0 <= w < fr.take(m).len() && fr.take(m)[w] == (x, y);
            assert(fr[w] == (x, y));
            assert(fr.contains((x, y)));
        }
        if b[x][y].is_mine {
            assert(z.contains((x, y)));
        }
    }
}

/// Asking for one more mine only adds a mine: with the same size and seed, every mine placed
/// for `mines` is also placed for `mines + 1`.
pub proof fn law_more_mines_keep_the_others(rows: i32, cols: i32, mines: i32, seed: i32)
    requires
        0 <= rows,
        0 <= cols,
        0 <= mines < i32::MAX,
    ensures
        mine_set(new_board_spec(rows, cols, mines, seed), rows as int, cols as int).subset_of(
            mine_set(new_board_spec(rows, cols, (mines + 1) as i32, seed), rows as int, cols as int),
        ),
{
    let e = empty_board(rows as int, cols as int);
    let total = rows * cols;
    assert(0 <= total) by (nonlinear_arith)
        requires
            0 <= rows,
            0 <= cols,
            total == rows * cols,
    ;
    let mo = mine_order(rows as int, cols as int, seed);
    lemma_mine_order(rows as int, cols as int, seed);
    assert(mo.len() == total);
    let k1 = mines_taken(mines as int, total);
    let k2 = mines_taken(mines + 1, total);
    assert(k1 <= k2 <= mo.len());
    let c1 = chosen_cells(rows as int, cols as int, mines as int, seed);
    let c2 = chosen_cells(rows as int, cols as int, (mines + 1) as i32 as int, seed);
    assert(c1 == mo.take(k1));
    assert(c2 == mo.take(k2));
    let b1 = new_board_spec(rows, cols, mines, seed);
    let b2 = new_board_spec(rows, cols, (mines + 1) as i32, seed);
    assert forall|i: int| 0 <= i < rows implies #[trigger] e[i].len() == cols by {}
    lemma_map_cells_shape(e, place_fn(c1), rows as int, cols as int);
    lemma_map_cells_shape(e, place_fn(c2), rows as int, cols as int);
    assert forall|p: (int, int)| mine_set(b1, rows as int, cols as int).contains(p) implies
        mine_set(b2, rows as int, cols as int).contains(p) by {
        assert(b1[p.0][p.1] == place_fn(c1)(p.0, p.1, e[p.0][p.1]));
        assert(b2[p.0][p.1] == place_fn(c2)(p.0, p.1, e[p.0][p.1]));
        assert(c1.contains(p));
        let w = choose|w: int| 0 <= w < c1.len() && c1[w] == p;
        assert(c2[w] == mo[w]);
        assert(c2.contains(p));
    }
}

} // verus!
