use minesweeper_backend::board::{
    calculate_numbers, check_win, create_empty_board, flag_all_mines, neighbors, reveal_all_mines, CellDto, CellMark,
    GameStatus,
};
use minesweeper_backend::errors::ApiError;
use minesweeper_backend::flood::reveal_empty;
use minesweeper_backend::game::{
    board_has_shape, build_state_response, elapsed_seconds, mark_move, open_cell, parse_status, plan_game,
    reveal_move, status_to_str, CreateGameRequest, GameSettingsDto, MoveOutcome,
};
use minesweeper_backend::mines::{create_seeded_random, new_board, place_mines_initial, relocate_mines_from_zone};

fn settings(field: &str, question: bool, chord: bool, dev: bool) -> GameSettingsDto {
    GameSettingsDto {
        field_generation: field.to_string(),
        show_question_marks: question,
        enable_chord: chord,
        dev_mode: dev,
    }
}

fn board_with_mines(rows: i32, cols: i32, mines: &[(i32, i32)]) -> Vec<Vec<CellDto>> {
    let mut b = create_empty_board(rows, cols);
    for &(r, c) in mines {
        b[r as usize][c as usize].is_mine = true;
    }
    b
}

fn mine_count(b: &[Vec<CellDto>]) -> usize {
    b.iter().flatten().filter(|c| c.is_mine).count()
}

/// The mine positions of the generator computed with floating-point scaling: each draw is
/// taken as a fraction of 2^32 and multiplied by the size of the range.
fn float_scaled_mines(rows: i32, cols: i32, mines: i32, seed: i32) -> Vec<(i32, i32)> {
    let mut positions = vec![];
    for r in 0..rows {
        for c in 0..cols {
            positions.push((r, c));
        }
    }
    let mut state = seed as u32;
    let mut rnd = move || {
        state = state.wrapping_add(0x6D2B79F5);
        let mut t = state;
        t = (t ^ (t >> 15)).wrapping_mul(t | 1);
        t ^= t.wrapping_add((t ^ (t >> 7)).wrapping_mul(t | 61));
        ((t ^ (t >> 14)) as f64) / 4294967296.0
    };
    for i in (1..positions.len()).rev() {
        let j = (rnd() * ((i + 1) as f64)).floor() as usize;
        positions.swap(i, j);
    }
    positions.into_iter().take(mines as usize).collect()
}

#[test]
fn empty_board_has_requested_shape() {
    let b = create_empty_board(3, 4);
    assert_eq!(b.len(), 3);
    for (r, row) in b.iter().enumerate() {
        assert_eq!(row.len(), 4);
        for (c, cell) in row.iter().enumerate() {
            assert_eq!(cell.row, r as i32);
            assert_eq!(cell.col, c as i32);
            assert!(!cell.is_mine && !cell.is_open);
            assert_eq!(cell.mark, CellMark::Unmarked);
            assert_eq!(cell.adjacent_mines, 0);
        }
    }
    assert_eq!(create_empty_board(-2, 3).len(), 0);
}

#[test]
fn neighbors_in_row_major_order() {
    assert_eq!(neighbors(5, 5, 0, 0), vec![(0, 1), (1, 0), (1, 1)]);
    assert_eq!(
        neighbors(5, 5, 2, 2),
        vec![(1, 1), (1, 2), (1, 3), (2, 1), (2, 3), (3, 1), (3, 2), (3, 3)]
    );
    assert_eq!(neighbors(5, 5, 4, 4), vec![(3, 3), (3, 4), (4, 3)]);
    assert_eq!(neighbors(1, 1, 0, 0), vec![]);
}

#[test]
fn seeded_generator_first_values() {
    let mut rng = create_seeded_random(1);
    let a = rng.next_u32();
    let mut rng2 = create_seeded_random(1);
    assert_eq!(rng2.next_u32(), a);
    let mut rng3 = create_seeded_random(1);
    let j = rng3.next_below(10);
    assert_eq!(j as u64, (a as u64 * 10) >> 32);
}

#[test]
fn placement_matches_float_scaled_mines() {
    for &(rows, cols, mines, seed) in &[
        (5, 5, 5, 999001),
        (9, 9, 10, 4242),
        (16, 30, 99, -7),
        (10, 10, 80, 0),
        (5, 7, 1, i32::MAX),
        (6, 6, 12, i32::MIN),
    ] {
        let board = new_board(rows, cols, mines, seed);
        let expected = float_scaled_mines(rows, cols, mines, seed);
        assert_eq!(mine_count(&board), mines as usize);
        for (r, c) in expected {
            assert!(board[r as usize][c as usize].is_mine);
        }
    }
}

#[test]
fn same_seed_same_board() {
    let a = new_board(9, 9, 10, 123);
    let b = new_board(9, 9, 10, 123);
    for r in 0..9 {
        for c in 0..9 {
            assert_eq!(a[r][c].is_mine, b[r][c].is_mine);
        }
    }
}

#[test]
fn mine_count_capped_and_negative_takes_all() {
    let b = new_board(3, 3, 20, 5);
    assert_eq!(mine_count(&b), 9);
    let b = new_board(3, 3, -1, 5);
    assert_eq!(mine_count(&b), 9);
    let b = new_board(3, 3, 0, 5);
    assert_eq!(mine_count(&b), 0);
    let mut b = create_empty_board(3, 3);
    place_mines_initial(&mut b, 3, 3, 4, 77);
    assert_eq!(mine_count(&b), 4);
}

#[test]
fn numbers_count_adjacent_mines() {
    let mut b = board_with_mines(3, 3, &[(0, 0), (2, 2)]);
    calculate_numbers(&mut b, 3, 3);
    assert_eq!(b[1][1].adjacent_mines, 2);
    assert_eq!(b[0][1].adjacent_mines, 1);
    assert_eq!(b[0][2].adjacent_mines, 0);
    assert_eq!(b[2][0].adjacent_mines, 0);
    assert_eq!(b[0][0].adjacent_mines, 0);
}

#[test]
fn reveal_empty_spreads_over_zero_region() {
    let mut b = board_with_mines(4, 4, &[(3, 3)]);
    calculate_numbers(&mut b, 4, 4);
    reveal_empty(&mut b, 4, 4, 0, 0);
    for r in 0..4 {
        for c in 0..4 {
            assert_eq!(b[r][c].is_open, !(r == 3 && c == 3), "cell {r},{c}");
        }
    }
}

#[test]
fn reveal_empty_stops_at_flags_and_numbers() {
    let mut b = board_with_mines(1, 5, &[(0, 4)]);
    calculate_numbers(&mut b, 1, 5);
    b[0][1].mark = CellMark::Flag;
    reveal_empty(&mut b, 1, 5, 0, 2);
    assert!(!b[0][0].is_open);
    assert!(!b[0][1].is_open);
    assert!(b[0][2].is_open);
    assert!(b[0][3].is_open);
    assert!(!b[0][4].is_open);
}

#[test]
fn reveal_empty_on_flagged_start_does_nothing() {
    let mut b = create_empty_board(2, 2);
    b[0][0].mark = CellMark::Flag;
    reveal_empty(&mut b, 2, 2, 0, 0);
    assert!(b.iter().flatten().all(|c| !c.is_open));
}

#[test]
fn reveal_empty_on_a_mine_opens_only_that_cell() {
    let mut b = board_with_mines(3, 3, &[(0, 0), (2, 2)]);
    calculate_numbers(&mut b, 3, 3);
    let before = b.clone();
    reveal_empty(&mut b, 3, 3, 0, 0);
    for r in 0..3 {
        for c in 0..3 {
            assert_eq!(b[r][c].is_open, r == 0 && c == 0, "cell {r},{c}");
            assert_eq!(b[r][c].is_mine, before[r][c].is_mine);
            assert_eq!(b[r][c].mark, before[r][c].mark);
        }
    }
}

#[test]
fn opening_a_mine_loses_and_shows_all_mines() {
    let mut b = board_with_mines(3, 3, &[(0, 0), (2, 2)]);
    calculate_numbers(&mut b, 3, 3);
    let mut st = GameStatus::Playing;
    open_cell(&mut b, 3, 3, 0, 0, &settings("random", true, true, false), &mut st);
    assert_eq!(st, GameStatus::Lost);
    assert!(b[0][0].is_open && b[2][2].is_open);
    assert!(!b[1][1].is_open);
}

#[test]
fn developer_mode_ignores_mines() {
    let mut b = board_with_mines(3, 3, &[(0, 0)]);
    calculate_numbers(&mut b, 3, 3);
    let mut st = GameStatus::Playing;
    open_cell(&mut b, 3, 3, 0, 0, &settings("random", true, true, true), &mut st);
    assert_eq!(st, GameStatus::Playing);
    assert!(!b[0][0].is_open);
}

#[test]
fn chord_opens_neighbors_when_flags_match() {
    let mut b = board_with_mines(3, 3, &[(0, 0)]);
    calculate_numbers(&mut b, 3, 3);
    b[1][1].is_open = true;
    b[0][0].mark = CellMark::Flag;
    let mut st = GameStatus::Playing;
    open_cell(&mut b, 3, 3, 1, 1, &settings("random", true, true, false), &mut st);
    assert_eq!(st, GameStatus::Playing);
    for r in 0..3 {
        for c in 0..3 {
            assert_eq!(b[r][c].is_open, !(r == 0 && c == 0));
        }
    }
}

#[test]
fn chord_with_wrong_flag_loses() {
    let mut b = board_with_mines(3, 3, &[(0, 0)]);
    calculate_numbers(&mut b, 3, 3);
    b[1][1].is_open = true;
    b[2][2].mark = CellMark::Flag;
    let mut st = GameStatus::Playing;
    open_cell(&mut b, 3, 3, 1, 1, &settings("random", true, true, false), &mut st);
    assert_eq!(st, GameStatus::Lost);
    assert!(b[0][0].is_open);
}

#[test]
fn chord_flags_remaining_cells_when_they_must_be_mines() {
    let mut b = board_with_mines(2, 2, &[(0, 1), (1, 0), (1, 1)]);
    calculate_numbers(&mut b, 2, 2);
    b[0][0].is_open = true;
    let mut st = GameStatus::Playing;
    open_cell(&mut b, 2, 2, 0, 0, &settings("random", true, true, false), &mut st);
    assert_eq!(st, GameStatus::Playing);
    assert_eq!(b[0][1].mark, CellMark::Flag);
    assert_eq!(b[1][0].mark, CellMark::Flag);
    assert_eq!(b[1][1].mark, CellMark::Flag);
}

#[test]
fn chord_disabled_does_nothing() {
    let mut b = board_with_mines(3, 3, &[(0, 0)]);
    calculate_numbers(&mut b, 3, 3);
    b[1][1].is_open = true;
    b[0][0].mark = CellMark::Flag;
    let mut st = GameStatus::Playing;
    open_cell(&mut b, 3, 3, 1, 1, &settings("random", true, false, false), &mut st);
    assert!(!b[0][1].is_open);
}

#[test]
fn win_check_and_flagging() {
    let mut b = board_with_mines(2, 2, &[(0, 0)]);
    assert!(!check_win(&b));
    b[0][1].is_open = true;
    b[1][0].is_open = true;
    b[1][1].is_open = true;
    assert!(check_win(&b));
    flag_all_mines(&mut b);
    assert_eq!(b[0][0].mark, CellMark::Flag);
    assert_eq!(b[1][1].mark, CellMark::Unmarked);
    reveal_all_mines(&mut b, 2, 2);
    assert!(b[0][0].is_open);
}

#[test]
fn relocation_moves_zone_mines_to_first_free_cells() {
    let mut b = board_with_mines(5, 5, &[(0, 0), (1, 1), (4, 4)]);
    relocate_mines_from_zone(&mut b, 5, 5, 0, 0);
    assert!(!b[0][0].is_mine && !b[1][1].is_mine);
    // first free cells outside the zone, row-major: (0,2) then (0,3)
    assert!(b[0][2].is_mine && b[0][3].is_mine);
    assert!(b[4][4].is_mine);
    assert_eq!(mine_count(&b), 3);
}

#[test]
fn relocation_around_a_point_off_the_board() {
    let mut b = board_with_mines(5, 5, &[(0, 1), (0, 3), (2, 2)]);
    relocate_mines_from_zone(&mut b, 5, 5, -1, 2);
    // the zone of (-1, 2) covers (0, 1), (0, 2) and (0, 3) on the board
    assert!(!b[0][1].is_mine && !b[0][3].is_mine);
    // first free cells outside the zone, row-major: (0, 0) then (0, 4)
    assert!(b[0][0].is_mine && b[0][4].is_mine);
    assert!(b[2][2].is_mine);
    assert_eq!(mine_count(&b), 3);
    let mut far = board_with_mines(5, 5, &[(0, 0)]);
    relocate_mines_from_zone(&mut far, 5, 5, 100, -100);
    assert!(far[0][0].is_mine);
    assert_eq!(mine_count(&far), 1);
}

#[test]
fn relocation_without_room_moves_what_it_can() {
    let mines: Vec<(i32, i32)> = (0..5).flat_map(|r| (0..5).map(move |c| (r, c))).filter(|&(r, c)| !(r == 4 && c == 4)).collect();
    let mut b = board_with_mines(5, 5, &mines);
    relocate_mines_from_zone(&mut b, 5, 5, 0, 0);
    assert!(!b[0][0].is_mine);
    assert!(b[4][4].is_mine);
    assert_eq!(mine_count(&b), 24);
}

#[test]
fn first_reveal_with_safe_start_never_loses() {
    for seed in 0..40 {
        let mut b = new_board(9, 9, 30, seed);
        let res = reveal_move(&mut b, 9, 9, GameStatus::Idle, &settings("safe-start", true, true, false), 4, 4);
        match res {
            Ok(MoveOutcome::Applied { status, started }) => {
                assert!(started);
                assert_ne!(status, GameStatus::Lost);
                assert!(b[4][4].is_open);
                assert_eq!(mine_count(&b), 30);
            }
            other => panic!("unexpected {other:?}"),
        }
    }
}

#[test]
fn random_field_first_reveal_can_hit_a_mine() {
    let mut b = board_with_mines(5, 5, &[(2, 2)]);
    let res = reveal_move(&mut b, 5, 5, GameStatus::Idle, &settings("random", true, true, false), 2, 2);
    assert_eq!(res, Ok(MoveOutcome::Applied { status: GameStatus::Lost, started: true }));
    assert!(b[2][2].is_mine && b[2][2].is_open);
}

#[test]
fn reveal_that_clears_the_board_wins() {
    let mut b = board_with_mines(5, 5, &[(4, 4)]);
    let res = reveal_move(&mut b, 5, 5, GameStatus::Idle, &settings("random", true, true, false), 0, 0);
    assert_eq!(res, Ok(MoveOutcome::Applied { status: GameStatus::Won, started: true }));
    assert_eq!(b[4][4].mark, CellMark::Flag);
    assert!(!b[4][4].is_open);
}

#[test]
fn finished_games_and_bad_cells() {
    let mut b = new_board(5, 5, 3, 1);
    let s = settings("safe-start", true, true, false);
    assert_eq!(reveal_move(&mut b, 5, 5, GameStatus::Won, &s, 9, 9), Ok(MoveOutcome::Unchanged));
    assert_eq!(reveal_move(&mut b, 5, 5, GameStatus::Lost, &s, 0, 0), Ok(MoveOutcome::Unchanged));
    assert_eq!(reveal_move(&mut b, 5, 5, GameStatus::Playing, &s, 5, 0), Err(ApiError::InvalidCell));
    assert_eq!(reveal_move(&mut b, 5, 5, GameStatus::Playing, &s, 0, -1), Err(ApiError::InvalidCell));
    assert_eq!(mark_move(&mut b, 5, 5, GameStatus::Lost, &s, 0, 0), Ok(MoveOutcome::Unchanged));
    assert_eq!(mark_move(&mut b, 5, 5, GameStatus::Idle, &s, -1, 0), Err(ApiError::InvalidCell));
    assert!(b.iter().flatten().all(|c| !c.is_open && c.mark == CellMark::Unmarked));
}

#[test]
fn marking_cycles() {
    let mut b = create_empty_board(5, 5);
    let with_q = settings("safe-start", true, true, false);
    let expected = [CellMark::Flag, CellMark::Question, CellMark::Unmarked, CellMark::Flag];
    for m in expected {
        let res = mark_move(&mut b, 5, 5, GameStatus::Playing, &with_q, 1, 2);
        assert_eq!(res, Ok(MoveOutcome::Applied { status: GameStatus::Playing, started: false }));
        assert_eq!(b[1][2].mark, m);
    }
    let without_q = settings("safe-start", false, true, false);
    let _ = mark_move(&mut b, 5, 5, GameStatus::Playing, &without_q, 1, 2);
    assert_eq!(b[1][2].mark, CellMark::Unmarked);
    b[3][3].is_open = true;
    let _ = mark_move(&mut b, 5, 5, GameStatus::Playing, &with_q, 3, 3);
    assert_eq!(b[3][3].mark, CellMark::Unmarked);
}

#[test]
fn status_names_round_trip() {
    for st in [GameStatus::Idle, GameStatus::Playing, GameStatus::Won, GameStatus::Lost] {
        assert_eq!(parse_status(status_to_str(st)), st);
    }
    assert_eq!(status_to_str(GameStatus::Playing), "playing");
    assert_eq!(parse_status("unknown"), GameStatus::Idle);
    assert_eq!(parse_status("Won"), GameStatus::Idle);
}

#[test]
fn response_hides_closed_mines() {
    let mut b = board_with_mines(2, 2, &[(0, 0), (1, 1)]);
    b[1][1].is_open = true;
    let resp = build_state_response("g1".to_string(), b.clone(), "lost", 2, 2, 2, 7, 12, false);
    assert_eq!(resp.game_id, "g1");
    assert_eq!(resp.game_status, GameStatus::Lost);
    assert!(!resp.board[0][0].is_mine);
    assert!(resp.board[1][1].is_mine);
    assert_eq!((resp.rows, resp.cols, resp.mines, resp.seed, resp.time), (2, 2, 2, 7, 12));
    let dev = build_state_response("g1".to_string(), b, "playing", 2, 2, 2, 7, 0, true);
    assert!(dev.board[0][0].is_mine);
}

#[test]
fn shape_check() {
    let b = create_empty_board(3, 4);
    assert!(board_has_shape(&b, 3, 4));
    assert!(!board_has_shape(&b, 4, 3));
    assert!(!board_has_shape(&b, -1, 4));
    let mut ragged = b.clone();
    ragged[1].pop();
    assert!(!board_has_shape(&ragged, 3, 4));
}

#[test]
fn new_game_plan() {
    let req = CreateGameRequest { rows: 5, cols: 5, mines: 5, seed: Some(999001), settings: None };
    let plan = plan_game(req, 123).unwrap();
    assert_eq!(plan.seed, 999001);
    assert_eq!(plan.settings.field_generation, "safe-start");
    assert!(plan.settings.show_question_marks && plan.settings.enable_chord && !plan.settings.dev_mode);
    assert_eq!(mine_count(&plan.board), 5);
    let req = CreateGameRequest { rows: 5, cols: 5, mines: 5, seed: None, settings: Some(settings("random", false, false, true)) };
    let plan = plan_game(req, 1_700_000_123_456).unwrap();
    assert_eq!(plan.seed, 123_456);
    assert_eq!(plan.settings.field_generation, "random");
    let req = CreateGameRequest { rows: 5, cols: 5, mines: 21, seed: None, settings: None };
    assert_eq!(plan_game(req, 0).err().map(|e| e), Some(ApiError::InvalidGameParams));
}

#[test]
fn elapsed_is_clamped() {
    assert_eq!(elapsed_seconds(-5), 0);
    assert_eq!(elapsed_seconds(42), 42);
}

#[test]
fn one_more_mine_keeps_the_others() {
    for seed in [0, 7, -3, 123456] {
        for m in 0..30 {
            let a = new_board(6, 5, m, seed);
            let b = new_board(6, 5, m + 1, seed);
            for r in 0..6 {
                for c in 0..5 {
                    assert!(!a[r][c].is_mine || b[r][c].is_mine, "seed {seed} m {m} cell {r},{c}");
                }
            }
        }
    }
}
