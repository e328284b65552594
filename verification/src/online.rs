//! Decisions of the two-player online mode: lobbies, invites, matches and their checks.
use vstd::prelude::*;
use vstd::string::{StrSliceExecFns, StringSliceAdditionalSpecFns};
use crate::errors::ApiError;
use crate::game::GameSettingsDto;
use crate::text::{
    all_ascii, ascii_upper, before_char, find, first_index_of, first_segment, lemma_first_index_of, occurs_at,
    str_eq, suffix_from, take_chars, to_uppercase, trim, trim_end_char, trim_end_char_seq, trimmed, uppercase_of,
};

verus! {

/// Version of the board generator recorded with lobbies and matches.
pub const ALGORITHM_VERSION: i32 = 1;

/// Rating points the winner of a ranked match gains.
pub const RANKED_WIN_POINTS: i32 = 25;

/// Rating points the loser of a ranked match loses (a rating never drops below zero).
pub const RANKED_LOSS_POINTS: i32 = 15;

/// A request to open a lobby (`mode` is `casual` or `ranked`).
#[derive(Debug)]
pub struct CreateLobbyRequest {
    pub mode: String,
    pub rows: i32,
    pub cols: i32,
    pub mines: i32,
    pub seed: Option<i32>,
    pub settings: Option<GameSettingsDto>,
}

/// A request to join a lobby by its invite code or by an invite link.
#[derive(Debug)]
pub struct JoinLobbyRequest {
    pub invite_code: Option<String>,
    pub invite_link: Option<String>,
}

/// A player's readiness.
#[derive(Clone, Copy, Debug)]
pub struct ReadyRequest {
    pub ready: bool,
}

/// A move made in a match (`action` is `reveal` or `mark`).
#[derive(Debug)]
pub struct MatchMoveRequest {
    pub row: i32,
    pub col: i32,
    pub action: String,
}

/// The end of a match, naming its winner.
#[derive(Debug)]
pub struct FinishMatchRequest {
    pub winner_id: String,
}

/// Changes to a lobby's board parameters; absent fields keep their value.
#[derive(Clone, Copy, Debug)]
pub struct PatchLobbyRequest {
    pub rows: Option<i32>,
    pub cols: Option<i32>,
    pub mines: Option<i32>,
    pub seed: Option<i32>,
}

/// A player as listed in a lobby.
#[derive(Debug)]
pub struct LobbyPlayerView {
    pub user_id: String,
    pub username: String,
    pub ready: bool,
}

/// A lobby as shown to clients.
#[derive(Debug)]
pub struct LobbyResponse {
    pub id: String,
    pub owner_id: String,
    pub invite_code: String,
    pub invite_link: String,
    pub mode: String,
    pub rows: i32,
    pub cols: i32,
    pub mines: i32,
    pub seed: i32,
    pub algorithm_version: i32,
    pub status: String,
    pub players: Vec<LobbyPlayerView>,
}

/// A match seen by one of its players.
#[derive(Debug)]
pub struct StartMatchResponse {
    pub match_id: String,
    pub my_game_id: String,
    pub opponent_game_id: String,
    pub seed: i32,
    pub rows: i32,
    pub cols: i32,
    pub mines: i32,
    pub mode: String,
    pub algorithm_version: i32,
}

/// A stored lobby.
#[derive(Debug)]
pub struct LobbyRow {
    pub id: String,
    pub owner_id: String,
    pub invite_code: String,
    pub invite_link: String,
    pub mode: String,
    pub rows: i32,
    pub cols: i32,
    pub mines: i32,
    pub seed: i32,
    pub algorithm_version: i32,
    pub status: String,
}

/// A stored lobby member.
#[derive(Debug)]
pub struct LobbyPlayerRow {
    pub lobby_id: String,
    pub user_id: String,
    pub username: String,
    pub ready: bool,
}

/// A stored match between two players, each with their own game.
#[derive(Debug)]
pub struct MatchRow {
    pub id: String,
    pub lobby_id: String,
    pub player1_id: String,
    pub player2_id: String,
    pub player1_game_id: String,
    pub player2_game_id: String,
    pub seed: i32,
    pub mode: String,
    pub algorithm_version: i32,
    pub status: String,
}

/// How a lobby member is listed.
pub open spec fn player_view_of(p: LobbyPlayerRow) -> LobbyPlayerView {
    LobbyPlayerView { user_id: p.user_id, username: p.username, ready: p.ready }
}

/// Listing a lobby member keeps who they are: the listed id, name and readiness are the member's own.
pub proof fn law_listed_member_is_the_member(p: LobbyPlayerRow)
    ensures
        player_view_of(p).user_id == p.user_id,
        player_view_of(p).username == p.username,
        player_view_of(p).ready == p.ready,
{
}

/// A stored lobby as shown to clients, with its members in the given order.
pub fn lobby_response(lobby: LobbyRow, players: &Vec<LobbyPlayerRow>) -> (resp: LobbyResponse)
    ensures
        resp.id == lobby.id && resp.owner_id == lobby.owner_id,
        resp.invite_code == lobby.invite_code && resp.invite_link == lobby.invite_link,
        resp.mode == lobby.mode && resp.status == lobby.status,
        resp.rows == lobby.rows && resp.cols == lobby.cols && resp.mines == lobby.mines && resp.seed == lobby.seed,
        resp.algorithm_version == lobby.algorithm_version,
        resp.players@.len() == players@.len(),
        forall|i: int| 0 <= i < players@.len() ==> #[trigger] resp.players@[i] == player_view_of(players@[i]),
        forall|i: int| 0 <= i < players@.len() ==> (#[trigger] resp.players@[i]).user_id == players@[i].user_id
            && resp.players@[i].username == players@[i].username && resp.players@[i].ready == players@[i].ready,
{
    let mut views: Vec<LobbyPlayerView> = Vec::new();
    let mut i: usize = 0;
    while i < players.len()
        invariant
            0 <= i <= players@.len(),
            views@.len() == i,
            forall|k: int| 0 <= k < i ==> #[trigger] views@[k] == player_view_of(players@[k]),
        decreases players@.len() - i,
    {
        let p = &players[i];
        views.push(LobbyPlayerView { user_id: p.user_id.clone(), username: p.username.clone(), ready: p.ready });
        i = i + 1;
    }
    LobbyResponse {
        id: lobby.id,
        owner_id: lobby.owner_id,
        invite_code: lobby.invite_code,
        invite_link: lobby.invite_link,
        mode: lobby.mode,
        rows: lobby.rows,
        cols: lobby.cols,
        mines: lobby.mines,
        seed: lobby.seed,
        algorithm_version: lobby.algorithm_version,
        status: lobby.status,
        players: views,
    }
}

/// Largest mine count allowed on a board: four fifths of the cells, rounded down.
pub open spec fn max_mines(rows: int, cols: int) -> int {
    (rows * cols * 4) / 5
}

/// Board parameters a game accepts: at least 5 by 5, at least one mine, at most `max_mines`.
pub open spec fn params_valid(rows: int, cols: int, mines: int) -> bool {
    rows >= 5 && cols >= 5 && mines >= 1 && mines <= max_mines(rows, cols)
}

/// Checks board parameters (see `params_valid`).
pub fn validate_params(rows: i32, cols: i32, mines: i32) -> (res: Result<(), ApiError>)
    ensures
        res is Ok <==> params_valid(rows as int, cols as int, mines as int),
        res matches Err(e) ==> e == ApiError::InvalidGameParams,
{
    if rows < 5 || cols < 5 || mines < 1 {
        return Err(ApiError::InvalidGameParams);
    }
    assert((rows as int) * (cols as int) <= 0x4000_0000_0000_0000) by (nonlinear_arith)
        requires
            5 <= rows <= 0x7fff_ffff,
            5 <= cols <= 0x7fff_ffff,
    ;
    let cells: i128 = (rows as i128) * (cols as i128);
    let max_mines: i128 = cells * 4 / 5;
    if (mines as i128) > max_mines {
        return Err(ApiError::InvalidGameParams);
    }
    Ok(())
}

/// Seed taken from the clock: the milliseconds modulo one million (sign kept).
pub open spec fn time_seed_of(millis: i64) -> i32 {
    (if millis >= 0 { (millis as int) % 1_000_000 } else { -((-(millis as int)) % 1_000_000) }) as i32
}

/// Seed taken from the clock (see `time_seed_of`).
pub fn time_seed(millis: i64) -> (seed: i32)
    ensures
        seed == time_seed_of(millis),
{
    let m = millis as i128;
    if m >= 0 {
        (m % 1_000_000) as i32
    } else {
        (-((-m) % 1_000_000)) as i32
    }
}

/// Hash of a lobby id: `h = 31 * h + byte` over its UTF-8 bytes, modulo 2^64.
pub open spec fn lobby_hash(bytes: Seq<u8>) -> u64
    decreases bytes.len(),
{
    if bytes.len() == 0 {
        0
    } else {
        vstd::wrapping::u64_specs::wrapping_add(
            vstd::wrapping::u64_specs::wrapping_mul(lobby_hash(bytes.drop_last()), 31),
            bytes.last() as u64,
        )
    }
}

/// Seed of a ranked lobby: the absolute value of the hash read as a signed 64-bit number,
/// modulo one million.
pub open spec fn ranked_seed_of(bytes: Seq<u8>) -> int {
    let h = lobby_hash(bytes) as int;
    let a = if h < 0x8000_0000_0000_0000 { h } else { 0x1_0000_0000_0000_0000 - h };
    a % 1_000_000
}

/// Seed of a ranked lobby, derived from its id so that both players get the same board.
pub fn derive_ranked_seed(lobby_id: &str) -> (seed: i32)
    ensures
        seed as int == ranked_seed_of(lobby_id.spec_bytes()),
        0 <= seed < 1_000_000,
{
    let bytes = lobby_id.as_bytes();
    let mut hash: u64 = 0;
    let mut i: usize = 0;
    while i < bytes.len()
        invariant
            0 <= i <= bytes@.len(),
            bytes@ == lobby_id.spec_bytes(),
            hash == lobby_hash(bytes@.take(i as int)),
        decreases bytes@.len() - i,
    {
        assert(bytes@.take(i + 1).drop_last() =~= bytes@.take(i as int));
        hash = hash.wrapping_mul(31).wrapping_add(bytes[i] as u64);
        i = i + 1;
    }
    assert(bytes@.take(bytes@.len() as int) =~= bytes@);
    let a: u64 = if hash < 0x8000_0000_0000_0000 { hash } else { 0u64.wrapping_sub(hash) };
    (a % 1_000_000) as i32
}

/// Invite code made from a random text: its first six characters, upper-cased.
pub fn invite_code_from(raw: &str) -> (code: String)
    ensures
        code@ == uppercase_of(raw@.take(if raw@.len() < 6 { raw@.len() as int } else { 6 })),
        all_ascii(raw@) ==> code@.len() == (if raw@.len() < 6 { raw@.len() as int } else { 6 })
            && forall|i: int| 0 <= i < code@.len() ==> #[trigger] code@[i] == ascii_upper(raw@[i]),
{
    to_uppercase(take_chars(raw, 6))
}

/// Invite link of a lobby: the public address without trailing slashes, then `/?invite=` and the code.
pub open spec fn invite_link_of(public_base: Seq<char>, invite_code: Seq<char>) -> Seq<char> {
    trim_end_char_seq(public_base, '/') + "/?invite="@ + invite_code
}

/// Builds the invite link of a lobby (see `invite_link_of`).
pub fn invite_link(public_base: &str, invite_code: &str) -> (link: String)
    ensures
        link@ == invite_link_of(public_base@, invite_code@),
{
    let mut link = String::from_str(trim_end_char(public_base, '/'));
    link.append("/?invite=");
    link.append(invite_code);
    link
}

/// The first position of `pat` in `s`, when it occurs.
pub open spec fn first_occurrence(s: Seq<char>, pat: Seq<char>) -> int {
    choose|k: int| occurs_at(s, pat, k) && forall|j: int| 0 <= j < k ==> !#[trigger] occurs_at(s, pat, j)
}

/// Invite code carried by a link: the text after the first `invite=` up to the next `&`,
/// trimmed and upper-cased; nothing when there is no such text.
pub open spec fn invite_code_in_link(link: Seq<char>) -> Option<Seq<char>> {
    let marker = "invite="@;
    if exists|k: int| occurs_at(link, marker, k) {
        let k = first_occurrence(link, marker);
        let code = trimmed(before_char(link.subrange(k + marker.len(), link.len() as int), '&'));
        if code.len() == 0 {
            None
        } else {
            Some(uppercase_of(code))
        }
    } else {
        None
    }
}

/// Reads the invite code out of an invite link (see `invite_code_in_link`).
pub fn extract_invite_code_from_link(link: &str) -> (code: Option<String>)
    ensures
        match code {
            Some(c) => invite_code_in_link(link@) == Some(c@),
            None => invite_code_in_link(link@) is None,
        },
{
    let marker = "invite=";
    let idx = match find(link, marker) {
        Some(i) => i,
        None => {
            return None;
        },
    };
    proof {
        let k = first_occurrence(link@, marker@);
        assert(occurs_at(link@, marker@, idx as int));
        assert(exists|k: int| occurs_at(link@, marker@, k));
        assert(occurs_at(link@, marker@, k) && forall|j: int| 0 <= j < k ==> !#[trigger] occurs_at(link@, marker@, j));
        if k < idx {
            assert(!occurs_at(link@, marker@, k));
        }
        if idx < k {
            assert(!occurs_at(link@, marker@, idx as int));
        }
        assert(k == idx);
    }
    let n = link.unicode_len();
    let m = marker.unicode_len();
    let rest = suffix_from(link, idx + m);
    let piece = first_segment(rest, '&');
    let code = trim(piece);
    if code.is_empty() {
        None
    } else {
        Some(to_uppercase(code))
    }
}

/// `s` without its trailing `ch` is a prefix of `s`.
proof fn lemma_trim_end_prefix(s: Seq<char>, ch: char)
    ensures
        trim_end_char_seq(s, ch).len() <= s.len(),
        trim_end_char_seq(s, ch) == s.subrange(0, trim_end_char_seq(s, ch).len() as int),
    decreases s.len(),
{
    if s.len() > 0 && s.last() == ch {
        lemma_trim_end_prefix(s.drop_last(), ch);
        let t = trim_end_char_seq(s.drop_last(), ch);
        assert(s.drop_last().subrange(0, t.len() as int) =~= s.subrange(0, t.len() as int));
    } else {
        assert(s.subrange(0, s.len() as int) =~= s);
    }
}

/// In `t + "/?invite=" + code`, where `t` is a prefix of a text without `invite=`, the marker
/// `invite=` does not occur before the one that follows `t`.
proof fn lemma_no_earlier_marker(base: Seq<char>, t: Seq<char>, code: Seq<char>, j: int)
    requires
        forall|k: int| !#[trigger] occurs_at(base, "invite="@, k),
        t.len() <= base.len(),
        t == base.subrange(0, t.len() as int),
        0 <= j < t.len() + 2,
    ensures
        !occurs_at(t + "/?invite="@ + code, "invite="@, j),
{
    let marker = "invite="@;
    let link = t + "/?invite="@ + code;
    reveal_strlit("invite=");
    reveal_strlit("/?invite=");
    if occurs_at(link, marker, j) {
        let w = link.subrange(j, j + marker.len());
        if j + marker.len() <= t.len() {
            assert(base.subrange(j, j + marker.len()) =~= w);
            assert(occurs_at(base, marker, j));
        } else if j <= t.len() {
            assert(link[t.len() as int] == '/');
            assert(w[t.len() - j] == link[t.len() as int]);
            assert(w[t.len() - j] == marker[t.len() - j]);
        } else {
            assert(link[j] == '?');
            assert(w[0] == link[j]);
        }
    }
}

/// A lobby's invite link gives back its code, upper-cased, when the public address does not
/// itself contain `invite=` and the code is non-empty, has no `&` and no white space around it.
pub proof fn law_invite_link_round_trip(public_base: Seq<char>, code: Seq<char>)
    requires
        forall|k: int| !#[trigger] occurs_at(public_base, "invite="@, k),
        code.len() > 0,
        forall|i: int| 0 <= i < code.len() ==> #[trigger] code[i] != '&',
        trimmed(code) == code,
    ensures
        invite_code_in_link(invite_link_of(public_base, code)) == Some(uppercase_of(code)),
{
    let marker = "invite="@;
    reveal_strlit("invite=");
    reveal_strlit("/?invite=");
    let t = trim_end_char_seq(public_base, '/');
    let link = invite_link_of(public_base, code);
    let k0 = t.len() as int + 2;
    lemma_trim_end_prefix(public_base, '/');
    assert(link == t + "/?invite="@ + code);
    assert(link.subrange(k0, k0 + marker.len()) =~= marker);
    assert(occurs_at(link, marker, k0));
    assert forall|j: int| 0 <= j < k0 implies !#[trigger] occurs_at(link, marker, j) by {
        lemma_no_earlier_marker(public_base, t, code, j);
    }
    let k = first_occurrence(link, marker);
    assert(occurs_at(link, marker, k) && forall|j: int| 0 <= j < k ==> !#[trigger] occurs_at(link, marker, j));
    if k < k0 {
        assert(!occurs_at(link, marker, k));
    }
    if k0 < k {
        assert(!occurs_at(link, marker, k0));
    }
    assert(k == k0);
    assert(link.subrange(k + marker.len(), link.len() as int) =~= code);
    lemma_first_index_of(code, '&');
    if first_index_of(code, '&') < code.len() {
        assert(code[first_index_of(code, '&')] == '&');
    }
    assert(before_char(code, '&') =~= code);
}

/// Invite code a join request names: the explicit code if given, otherwise the one in the link.
pub open spec fn join_invite_of(code: Option<Seq<char>>, link: Option<Seq<char>>) -> Result<Seq<char>, ApiError> {
    match code {
        Some(c) => Ok(c),
        None => match link {
            Some(l) => match invite_code_in_link(l) {
                Some(c) => Ok(c),
                None => Err(ApiError::InvalidInviteLink),
            },
            None => Err(ApiError::InviteRequired),
        },
    }
}

/// The invite code a join request names (see `join_invite_of`).
pub fn resolve_invite_code(req: JoinLobbyRequest) -> (res: Result<String, ApiError>)
    ensures
        match res {
            Ok(c) => join_invite_of(
                match req.invite_code {
                    Some(x) => Some(x@),
                    None => None,
                },
                match req.invite_link {
                    Some(x) => Some(x@),
                    None => None,
                },
            ) == Ok::<Seq<char>, ApiError>(c@),
            Err(e) => join_invite_of(
                match req.invite_code {
                    Some(x) => Some(x@),
                    None => None,
                },
                match req.invite_link {
                    Some(x) => Some(x@),
                    None => None,
                },
            ) == Err::<Seq<char>, ApiError>(e),
        },
{
    match req.invite_code {
        Some(code) => Ok(code),
        None => match req.invite_link {
            Some(link) => match extract_invite_code_from_link(link.as_str()) {
                Some(c) => Ok(c),
                None => Err(ApiError::InvalidInviteLink),
            },
            None => Err(ApiError::InviteRequired),
        },
    }
}

/// A lobby takes at most two players.
pub fn ensure_lobby_has_room(player_count: i64) -> (res: Result<(), ApiError>)
    ensures
        res is Ok <==> player_count < 2,
        res matches Err(e) ==> e == ApiError::LobbyFull,
{
    if player_count >= 2 {
        Err(ApiError::LobbyFull)
    } else {
        Ok(())
    }
}

/// Settings a lobby uses when its creator gives none: safe first opening in ranked mode, a
/// random field in casual mode, question marks and chording on, developer mode off.
pub open spec fn default_lobby_settings(ranked: bool) -> (Seq<char>, bool, bool, bool) {
    (if ranked { "safe-start"@ } else { "random"@ }, true, true, false)
}

/// Default settings of a lobby (see `default_lobby_settings`).
pub fn lobby_default_settings(ranked: bool) -> (s: GameSettingsDto)
    ensures
        (s.field_generation@, s.show_question_marks, s.enable_chord, s.dev_mode) == default_lobby_settings(ranked),
{
    GameSettingsDto {
        field_generation: if ranked { String::from_str("safe-start") } else { String::from_str("random") },
        show_question_marks: true,
        enable_chord: true,
        dev_mode: false,
    }
}

/// Settings of a new single-player game when none are given: safe first opening, question
/// marks and chording on, developer mode off.
pub fn game_default_settings() -> (s: GameSettingsDto)
    ensures
        (s.field_generation@, s.show_question_marks, s.enable_chord, s.dev_mode) == default_lobby_settings(true),
{
    lobby_default_settings(true)
}

/// Seed and settings of a new lobby.
#[derive(Debug)]
pub struct LobbyPlan {
    pub seed: i32,
    pub settings: GameSettingsDto,
}

/// Whether a mode is ranked.
pub open spec fn is_ranked(mode: Seq<char>) -> bool {
    mode == "ranked"@
}

/// Checks a lobby request and fixes its seed and settings: the parameters must be valid
/// and the mode `casual` or `ranked`; a ranked lobby takes its seed from its id, a casual one
/// the requested seed or else one from the clock; settings default by mode.
pub fn plan_lobby(req: CreateLobbyRequest, lobby_id: &str, now_millis: i64) -> (res: Result<LobbyPlan, ApiError>)
    ensures
        !params_valid(req.rows as int, req.cols as int, req.mines as int) ==> res == Err::<LobbyPlan, ApiError>(ApiError::InvalidGameParams),
        params_valid(req.rows as int, req.cols as int, req.mines as int) && req.mode@ != "casual"@ && req.mode@ != "ranked"@
            ==> res == Err::<LobbyPlan, ApiError>(ApiError::InvalidMode),
        params_valid(req.rows as int, req.cols as int, req.mines as int) && (req.mode@ == "casual"@ || req.mode@ == "ranked"@)
            ==> (res matches Ok(plan) && {
            &&& plan.seed as int == if is_ranked(req.mode@) {
                ranked_seed_of(lobby_id.spec_bytes())
            } else {
                match req.seed {
                    Some(s) => s as int,
                    None => time_seed_of(now_millis) as int,
                }
            }
            &&& match req.settings {
                Some(s) => plan.settings == s,
                None => (plan.settings.field_generation@, plan.settings.show_question_marks, plan.settings.enable_chord,
                    plan.settings.dev_mode) == default_lobby_settings(is_ranked(req.mode@)),
            }
        }),
{
    validate_params(req.rows, req.cols, req.mines)?;
    let ranked = str_eq(req.mode.as_str(), "ranked");
    if !str_eq(req.mode.as_str(), "casual") && !ranked {
        return Err(ApiError::InvalidMode);
    }
    let seed = if ranked {
        derive_ranked_seed(lobby_id)
    } else {
        match req.seed {
            Some(s) => s,
            None => time_seed(now_millis),
        }
    };
    let settings = match req.settings {
        Some(s) => s,
        None => lobby_default_settings(ranked),
    };
    Ok(LobbyPlan { seed, settings })
}

/// Whether `user_id` plays in the match.
pub fn is_match_player(user_id: &str, m: &MatchRow) -> (b: bool)
    ensures
        b == (user_id@ == m.player1_id@ || user_id@ == m.player2_id@),
{
    str_eq(user_id, m.player1_id.as_str()) || str_eq(user_id, m.player2_id.as_str())
}

/// Checks for reading the active match of a lobby, giving that match: the user must be in
/// the lobby (`in_lobby` counts their memberships), a match must be active and the user must
/// play in it.
pub fn check_active_match(user_id: &str, in_lobby: i64, m: Option<MatchRow>) -> (res: Result<MatchRow, ApiError>)
    ensures
        in_lobby == 0 ==> res == Err::<MatchRow, ApiError>(ApiError::NotInLobby),
        in_lobby != 0 ==> match m {
            None => res == Err::<MatchRow, ApiError>(ApiError::NoActiveMatch),
            Some(mm) => if user_id@ == mm.player1_id@ || user_id@ == mm.player2_id@ {
                res == Ok::<MatchRow, ApiError>(mm)
            } else {
                res == Err::<MatchRow, ApiError>(ApiError::NotInThisMatch)
            },
        },
{
    if in_lobby == 0 {
        return Err(ApiError::NotInLobby);
    }
    match m {
        None => Err(ApiError::NoActiveMatch),
        Some(mm) => if is_match_player(user_id, &mm) {
            Ok(mm)
        } else {
            Err(ApiError::NotInThisMatch)
        },
    }
}

/// The match seen by `user_id`: player one sees their own game first, anyone else the
/// second player's game.
pub fn match_view(
    user_id: &str,
    player1_id: &str,
    match_id: String,
    player1_game_id: String,
    player2_game_id: String,
    seed: i32,
    rows: i32,
    cols: i32,
    mines: i32,
    mode: String,
    algorithm_version: i32,
) -> (view: StartMatchResponse)
    ensures
        view.match_id == match_id,
        user_id@ == player1_id@ ==> view.my_game_id == player1_game_id && view.opponent_game_id == player2_game_id,
        user_id@ != player1_id@ ==> view.my_game_id == player2_game_id && view.opponent_game_id == player1_game_id,
        view.seed == seed && view.rows == rows && view.cols == cols && view.mines == mines,
        view.mode == mode && view.algorithm_version == algorithm_version,
{
    if str_eq(user_id, player1_id) {
        StartMatchResponse {
            match_id,
            my_game_id: player1_game_id,
            opponent_game_id: player2_game_id,
            seed,
            rows,
            cols,
            mines,
            mode,
            algorithm_version,
        }
    } else {
        StartMatchResponse {
            match_id,
            my_game_id: player2_game_id,
            opponent_game_id: player1_game_id,
            seed,
            rows,
            cols,
            mines,
            mode,
            algorithm_version,
        }
    }
}

/// All listed players are ready.
pub open spec fn all_ready(players: Seq<LobbyPlayerRow>) -> bool {
    forall|i: int| 0 <= i < players.len() ==> (#[trigger] players[i]).ready
}

/// Checks for starting a match: only the owner starts, and exactly two players must both be ready.
pub fn check_can_start(user_id: &str, owner_id: &str, players: &Vec<LobbyPlayerRow>) -> (res: Result<(), ApiError>)
    ensures
        owner_id@ != user_id@ ==> res == Err::<(), ApiError>(ApiError::OnlyOwnerCanStart),
        owner_id@ == user_id@ && !(players@.len() == 2 && all_ready(players@)) ==> res == Err::<(), ApiError>(
            ApiError::BothPlayersMustBeReady,
        ),
        owner_id@ == user_id@ && players@.len() == 2 && all_ready(players@) ==> res is Ok,
{
    if !str_eq(owner_id, user_id) {
        return Err(ApiError::OnlyOwnerCanStart);
    }
    if players.len() != 2 || !players[0].ready || !players[1].ready {
        return Err(ApiError::BothPlayersMustBeReady);
    }
    assert(all_ready(players@)) by {
        assert forall|i: int| 0 <= i < players@.len() implies (#[trigger] players@[i]).ready by {
            if i == 0 {
            } else {
                assert(i == 1);
            }
        }
    }
    Ok(())
}

/// Checks for finishing a match: the caller must play in it and the winner must be one of its players.
pub fn check_finish(user_id: &str, winner_id: &str, m: &MatchRow) -> (res: Result<(), ApiError>)
    ensures
        !(user_id@ == m.player1_id@ || user_id@ == m.player2_id@) ==> res == Err::<(), ApiError>(ApiError::NotInMatch),
        (user_id@ == m.player1_id@ || user_id@ == m.player2_id@) && !(winner_id@ == m.player1_id@ || winner_id@
            == m.player2_id@) ==> res == Err::<(), ApiError>(ApiError::WinnerNotMatchPlayer),
        (user_id@ == m.player1_id@ || user_id@ == m.player2_id@) && (winner_id@ == m.player1_id@ || winner_id@
            == m.player2_id@) ==> res is Ok,
{
    if !is_match_player(user_id, m) {
        return Err(ApiError::NotInMatch);
    }
    if !is_match_player(winner_id, m) {
        return Err(ApiError::WinnerNotMatchPlayer);
    }
    Ok(())
}

/// The loser whose rating drops after a ranked match: the player other than the winner
/// (player one unless the winner is player one); no one for a casual match.
pub fn ranked_loser(winner_id: &str, m: &MatchRow) -> (loser: Option<String>)
    ensures
        m.mode@ != "ranked"@ ==> loser is None,
        m.mode@ == "ranked"@ && winner_id@ == m.player1_id@ ==> loser == Some(m.player2_id),
        m.mode@ == "ranked"@ && winner_id@ != m.player1_id@ ==> loser == Some(m.player1_id),
{
    if !str_eq(m.mode.as_str(), "ranked") {
        return None;
    }
    if str_eq(winner_id, m.player1_id.as_str()) {
        Some(m.player2_id.clone())
    } else {
        Some(m.player1_id.clone())
    }
}

/// The game of the caller's opponent in a match.
pub fn opponent_game_id(user_id: &str, m: &MatchRow) -> (res: Result<String, ApiError>)
    ensures
        user_id@ == m.player1_id@ ==> res == Ok::<String, ApiError>(m.player2_game_id),
        user_id@ != m.player1_id@ && user_id@ == m.player2_id@ ==> res == Ok::<String, ApiError>(m.player1_game_id),
        user_id@ != m.player1_id@ && user_id@ != m.player2_id@ ==> res == Err::<String, ApiError>(ApiError::NotInMatch),
{
    if str_eq(user_id, m.player1_id.as_str()) {
        Ok(m.player2_game_id.clone())
    } else if str_eq(user_id, m.player2_id.as_str()) {
        Ok(m.player1_game_id.clone())
    } else {
        Err(ApiError::NotInMatch)
    }
}

/// New board parameters of a lobby.
#[derive(Clone, Copy, Debug, PartialEq, Eq, Structural)]
pub struct LobbyBoard {
    pub rows: i32,
    pub cols: i32,
    pub mines: i32,
    pub seed: i32,
}

/// Applies a settings change to a lobby: only the host may change it and only while the
/// lobby is idle (status `lobby`); missing values are kept, the result must be valid, and a
/// ranked lobby keeps the seed derived from its id.
pub fn apply_lobby_patch(
    user_id: &str,
    lobby_id: &str,
    lobby: &LobbyRow,
    patch: PatchLobbyRequest,
) -> (res: Result<LobbyBoard, ApiError>)
    ensures
        lobby.owner_id@ != user_id@ ==> res == Err::<LobbyBoard, ApiError>(ApiError::OnlyHostCanEdit),
        lobby.owner_id@ == user_id@ && lobby.status@ != "lobby"@ ==> res == Err::<LobbyBoard, ApiError>(ApiError::LobbyNotIdle),
        lobby.owner_id@ == user_id@ && lobby.status@ == "lobby"@ ==> {
            let rows = match patch.rows { Some(v) => v, None => lobby.rows };
            let cols = match patch.cols { Some(v) => v, None => lobby.cols };
            let mines = match patch.mines { Some(v) => v, None => lobby.mines };
            &&& !params_valid(rows as int, cols as int, mines as int) ==> res == Err::<LobbyBoard, ApiError>(ApiError::InvalidGameParams)
            &&& params_valid(rows as int, cols as int, mines as int) ==> (res matches Ok(b) && b.rows == rows && b.cols == cols
                && b.mines == mines && b.seed as int == if is_ranked(lobby.mode@) {
                ranked_seed_of(lobby_id.spec_bytes())
            } else {
                match patch.seed {
                    Some(v) => v as int,
                    None => lobby.seed as int,
                }
            })
        },
{
    if !str_eq(lobby.owner_id.as_str(), user_id) {
        return Err(ApiError::OnlyHostCanEdit);
    }
    if !str_eq(lobby.status.as_str(), "lobby") {
        return Err(ApiError::LobbyNotIdle);
    }
    let rows = match patch.rows { Some(v) => v, None => lobby.rows };
    let cols = match patch.cols { Some(v) => v, None => lobby.cols };
    let mines = match patch.mines { Some(v) => v, None => lobby.mines };
    validate_params(rows, cols, mines)?;
    let seed = if str_eq(lobby.mode.as_str(), "ranked") {
        derive_ranked_seed(lobby_id)
    } else {
        match patch.seed { Some(v) => v, None => lobby.seed }
    };
    Ok(LobbyBoard { rows, cols, mines, seed })
}

/// Checks before preparing the next round: the caller must be in the lobby (`in_lobby`
/// counts their memberships) and no match may still be active.
pub fn check_next_round(in_lobby: i64, match_active: bool) -> (res: Result<(), ApiError>)
    ensures
        in_lobby == 0 ==> res == Err::<(), ApiError>(ApiError::NotInLobby),
        in_lobby != 0 && match_active ==> res == Err::<(), ApiError>(ApiError::MatchInProgress),
        in_lobby != 0 && !match_active ==> res is Ok,
{
    if in_lobby == 0 {
        return Err(ApiError::NotInLobby);
    }
    if match_active {
        return Err(ApiError::MatchInProgress);
    }
    Ok(())
}

} // verus!
