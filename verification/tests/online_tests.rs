use minesweeper_backend::errors::ApiError;
use minesweeper_backend::game::GameSettingsDto;
use minesweeper_backend::online::{
    apply_lobby_patch, check_active_match, check_can_start, check_finish, check_next_round, derive_ranked_seed,
    ensure_lobby_has_room, extract_invite_code_from_link, invite_code_from, invite_link, is_match_player, lobby_response,
    match_view, opponent_game_id, plan_lobby, ranked_loser, resolve_invite_code, time_seed, validate_params,
    CreateLobbyRequest, JoinLobbyRequest, LobbyBoard, LobbyPlayerRow, LobbyRow, MatchRow, PatchLobbyRequest,
};

fn signed_hash_seed(lobby_id: &str) -> i32 {
    let mut hash: i64 = 0;
    for b in lobby_id.as_bytes() {
        hash = hash.wrapping_shl(5).wrapping_sub(hash).wrapping_add(*b as i64);
    }
    (hash.unsigned_abs() % 1_000_000) as i32
}

fn sample_match(mode: &str) -> MatchRow {
    MatchRow {
        id: "m1".to_string(),
        lobby_id: "l1".to_string(),
        player1_id: "alice".to_string(),
        player2_id: "bob".to_string(),
        player1_game_id: "ga".to_string(),
        player2_game_id: "gb".to_string(),
        seed: 5,
        mode: mode.to_string(),
        algorithm_version: 1,
        status: "active".to_string(),
    }
}

fn sample_lobby(mode: &str, status: &str) -> LobbyRow {
    LobbyRow {
        id: "lobby-1".to_string(),
        owner_id: "alice".to_string(),
        invite_code: "ABC123".to_string(),
        invite_link: "http://x/?invite=ABC123".to_string(),
        mode: mode.to_string(),
        rows: 9,
        cols: 9,
        mines: 10,
        seed: 77,
        algorithm_version: 1,
        status: status.to_string(),
    }
}

fn player(id: &str, ready: bool) -> LobbyPlayerRow {
    LobbyPlayerRow { lobby_id: "l".to_string(), user_id: id.to_string(), username: id.to_string(), ready }
}

#[test]
fn params_boundaries() {
    assert_eq!(validate_params(5, 5, 20), Ok(()));
    assert_eq!(validate_params(5, 5, 21), Err(ApiError::InvalidGameParams));
    assert_eq!(validate_params(4, 5, 1), Err(ApiError::InvalidGameParams));
    assert_eq!(validate_params(5, 4, 1), Err(ApiError::InvalidGameParams));
    assert_eq!(validate_params(5, 5, 0), Err(ApiError::InvalidGameParams));
    assert_eq!(validate_params(16, 30, 384), Ok(()));
    assert_eq!(validate_params(16, 30, 385), Err(ApiError::InvalidGameParams));
    assert_eq!(validate_params(7, 7, 39), Ok(()));
    assert_eq!(validate_params(7, 7, 40), Err(ApiError::InvalidGameParams));
    for rows in 5..40 {
        for cols in 5..40 {
            let max = ((rows * cols) as f32 * 0.8) as i32;
            assert_eq!(validate_params(rows, cols, max), Ok(()));
            assert_eq!(validate_params(rows, cols, max + 1), Err(ApiError::InvalidGameParams));
        }
    }
    assert_eq!(validate_params(i32::MAX, i32::MAX, i32::MAX), Ok(()));
}

#[test]
fn ranked_seed_matches_signed_hash() {
    for id in ["", "a", "lobby", "3f2a9c1e-0b7d-4c1e-9d2a-7b6e5f4a3c21", "ünïcödé", "zzzzzzzzzzzzzzzzzzzzzzzzzzzzzz"] {
        let s = derive_ranked_seed(id);
        assert_eq!(s, signed_hash_seed(id), "{id}");
        assert!((0..1_000_000).contains(&s));
    }
    assert_eq!(derive_ranked_seed("a"), 97);
    assert_eq!(derive_ranked_seed("ab"), 97 * 31 + 98);
}

#[test]
fn clock_seed() {
    assert_eq!(time_seed(1_700_000_123_456), 123_456);
    assert_eq!(time_seed(999_999), 999_999);
    assert_eq!(time_seed(-1_000_001), -1);
}

#[test]
fn invite_codes_and_links() {
    assert_eq!(invite_code_from("3f2a9c1e0b7d"), "3F2A9C");
    assert_eq!(invite_code_from("ab"), "AB");
    assert_eq!(invite_link("https://site.example//", "ABC123"), "https://site.example/?invite=ABC123");
    assert_eq!(extract_invite_code_from_link("https://x/?invite=abc123&x=1"), Some("ABC123".to_string()));
    assert_eq!(extract_invite_code_from_link("https://x/?invite=  q1 "), Some("Q1".to_string()));
    assert_eq!(extract_invite_code_from_link("https://x/?invite=&y"), None);
    assert_eq!(extract_invite_code_from_link("https://x/?code=abc"), None);
    assert_eq!(extract_invite_code_from_link("a?invite=first&invite=second"), Some("FIRST".to_string()));
}

#[test]
fn join_requests() {
    let code = resolve_invite_code(JoinLobbyRequest { invite_code: Some("abc".to_string()), invite_link: Some("x?invite=zzz".to_string()) });
    assert_eq!(code, Ok("abc".to_string()));
    let code = resolve_invite_code(JoinLobbyRequest { invite_code: None, invite_link: Some("x?invite=zzz".to_string()) });
    assert_eq!(code, Ok("ZZZ".to_string()));
    let code = resolve_invite_code(JoinLobbyRequest { invite_code: None, invite_link: Some("nothing".to_string()) });
    assert_eq!(code, Err(ApiError::InvalidInviteLink));
    let code = resolve_invite_code(JoinLobbyRequest { invite_code: None, invite_link: None });
    assert_eq!(code, Err(ApiError::InviteRequired));
    assert_eq!(ensure_lobby_has_room(1), Ok(()));
    assert_eq!(ensure_lobby_has_room(2), Err(ApiError::LobbyFull));
}

#[test]
fn lobby_plans() {
    let req = CreateLobbyRequest { mode: "ranked".to_string(), rows: 9, cols: 9, mines: 10, seed: Some(1), settings: None };
    let plan = plan_lobby(req, "lobby-x", 5).unwrap();
    assert_eq!(plan.seed, derive_ranked_seed("lobby-x"));
    assert_eq!(plan.settings.field_generation, "safe-start");
    let req = CreateLobbyRequest { mode: "casual".to_string(), rows: 9, cols: 9, mines: 10, seed: Some(4242), settings: None };
    let plan = plan_lobby(req, "lobby-x", 5).unwrap();
    assert_eq!(plan.seed, 4242);
    assert_eq!(plan.settings.field_generation, "random");
    assert!(plan.settings.show_question_marks && plan.settings.enable_chord && !plan.settings.dev_mode);
    let custom = GameSettingsDto { field_generation: "safe-start".to_string(), show_question_marks: false, enable_chord: false, dev_mode: true };
    let req = CreateLobbyRequest { mode: "casual".to_string(), rows: 9, cols: 9, mines: 10, seed: None, settings: Some(custom) };
    let plan = plan_lobby(req, "lobby-x", 2_000_777).unwrap();
    assert_eq!(plan.seed, 777);
    assert!(plan.settings.dev_mode);
    let req = CreateLobbyRequest { mode: "blitz".to_string(), rows: 9, cols: 9, mines: 10, seed: None, settings: None };
    assert_eq!(plan_lobby(req, "l", 0).err().map(|e| e), Some(ApiError::InvalidMode));
    let req = CreateLobbyRequest { mode: "blitz".to_string(), rows: 2, cols: 9, mines: 10, seed: None, settings: None };
    assert_eq!(plan_lobby(req, "l", 0).err().map(|e| e), Some(ApiError::InvalidGameParams));
}

#[test]
fn match_membership_and_views() {
    let m = sample_match("ranked");
    assert!(is_match_player("alice", &m));
    assert!(is_match_player("bob", &m));
    assert!(!is_match_player("carol", &m));
    assert_eq!(check_active_match("alice", 0, Some(sample_match("ranked"))).map(|x| x.id), Err(ApiError::NotInLobby));
    assert_eq!(check_active_match("alice", 1, None).map(|x| x.id), Err(ApiError::NoActiveMatch));
    assert_eq!(check_active_match("carol", 1, Some(sample_match("ranked"))).map(|x| x.id), Err(ApiError::NotInThisMatch));
    assert_eq!(check_active_match("bob", 1, Some(sample_match("ranked"))).map(|x| x.id), Ok("m1".to_string()));
    let v = match_view("bob", "alice", "m1".to_string(), "ga".to_string(), "gb".to_string(), 5, 9, 9, 10, "ranked".to_string(), 1);
    assert_eq!((v.my_game_id.as_str(), v.opponent_game_id.as_str()), ("gb", "ga"));
    let v = match_view("alice", "alice", "m1".to_string(), "ga".to_string(), "gb".to_string(), 5, 9, 9, 10, "ranked".to_string(), 1);
    assert_eq!((v.my_game_id.as_str(), v.opponent_game_id.as_str()), ("ga", "gb"));
    assert_eq!(opponent_game_id("alice", &m), Ok("gb".to_string()));
    assert_eq!(opponent_game_id("bob", &m), Ok("ga".to_string()));
    assert_eq!(opponent_game_id("carol", &m), Err(ApiError::NotInMatch));
}

#[test]
fn starting_and_finishing() {
    let ready = vec![player("alice", true), player("bob", true)];
    assert_eq!(check_can_start("alice", "alice", &ready), Ok(()));
    assert_eq!(check_can_start("bob", "alice", &ready), Err(ApiError::OnlyOwnerCanStart));
    let half = vec![player("alice", true), player("bob", false)];
    assert_eq!(check_can_start("alice", "alice", &half), Err(ApiError::BothPlayersMustBeReady));
    let alone = vec![player("alice", true)];
    assert_eq!(check_can_start("alice", "alice", &alone), Err(ApiError::BothPlayersMustBeReady));
    let m = sample_match("ranked");
    assert_eq!(check_finish("carol", "alice", &m), Err(ApiError::NotInMatch));
    assert_eq!(check_finish("bob", "carol", &m), Err(ApiError::WinnerNotMatchPlayer));
    assert_eq!(check_finish("bob", "alice", &m), Ok(()));
    assert_eq!(ranked_loser("alice", &m), Some("bob".to_string()));
    assert_eq!(ranked_loser("bob", &m), Some("alice".to_string()));
    assert_eq!(ranked_loser("alice", &sample_match("casual")), None);
    assert_eq!(check_next_round(0, false), Err(ApiError::NotInLobby));
    assert_eq!(check_next_round(1, true), Err(ApiError::MatchInProgress));
    assert_eq!(check_next_round(1, false), Ok(()));
}

#[test]
fn lobby_patches() {
    let lobby = sample_lobby("casual", "lobby");
    let patch = PatchLobbyRequest { rows: Some(10), cols: None, mines: Some(20), seed: Some(5) };
    assert_eq!(apply_lobby_patch("alice", "lobby-1", &lobby, patch), Ok(LobbyBoard { rows: 10, cols: 9, mines: 20, seed: 5 }));
    assert_eq!(apply_lobby_patch("bob", "lobby-1", &lobby, patch), Err(ApiError::OnlyHostCanEdit));
    let active = sample_lobby("casual", "active");
    assert_eq!(apply_lobby_patch("alice", "lobby-1", &active, patch), Err(ApiError::LobbyNotIdle));
    let bad = PatchLobbyRequest { rows: Some(3), cols: None, mines: None, seed: None };
    assert_eq!(apply_lobby_patch("alice", "lobby-1", &lobby, bad), Err(ApiError::InvalidGameParams));
    let keep = PatchLobbyRequest { rows: None, cols: None, mines: None, seed: None };
    assert_eq!(apply_lobby_patch("alice", "lobby-1", &lobby, keep), Ok(LobbyBoard { rows: 9, cols: 9, mines: 10, seed: 77 }));
    let ranked = sample_lobby("ranked", "lobby");
    let res = apply_lobby_patch("alice", "lobby-1", &ranked, patch).unwrap();
    assert_eq!(res.seed, derive_ranked_seed("lobby-1"));
}

#[test]
fn invite_link_gives_back_its_code() {
    for base in ["https://site.example", "https://site.example///", "http://10.0.0.5:5173", ""] {
        for code in ["ABC123", "x9", "7F3E0A"] {
            let link = invite_link(base, code);
            assert_eq!(extract_invite_code_from_link(&link), Some(code.to_uppercase()), "{link}");
        }
    }
    let code = invite_code_from("3f9a0c5e8b7d4e21a0b1c2d3e4f5a6b7");
    assert_eq!(code, "3F9A0C");
    assert_eq!(extract_invite_code_from_link(&invite_link("https://site.example", &code)), Some(code.clone()));
}

#[test]
fn lobby_response_lists_players_in_order() {
    let players = vec![player("alice", true), player("bob", false)];
    let resp = lobby_response(sample_lobby("ranked", "lobby"), &players);
    assert_eq!(resp.id, "lobby-1");
    assert_eq!(resp.owner_id, "alice");
    assert_eq!(resp.invite_code, "ABC123");
    assert_eq!(resp.invite_link, "http://x/?invite=ABC123");
    assert_eq!(resp.mode, "ranked");
    assert_eq!((resp.rows, resp.cols, resp.mines, resp.seed, resp.algorithm_version), (9, 9, 10, 77, 1));
    assert_eq!(resp.status, "lobby");
    assert_eq!(resp.players.len(), 2);
    assert_eq!((resp.players[0].user_id.as_str(), resp.players[0].ready), ("alice", true));
    assert_eq!((resp.players[1].username.as_str(), resp.players[1].ready), ("bob", false));
    assert!(lobby_response(sample_lobby("casual", "active"), &Vec::new()).players.is_empty());
}

#[test]
fn invite_codes_from_ascii_text_are_upper_cased_prefixes() {
    assert_eq!(invite_code_from("a1b2c3d4e5"), "A1B2C3");
    assert_eq!(invite_code_from("xyz"), "XYZ");
    assert_eq!(invite_code_from("AB-cd_ef9"), "AB-CD_");
}
