//! Failures the server reports to clients, with their HTTP status and message.
use vstd::prelude::*;

verus! {

/// A request the server refuses, each with a fixed status code and message.
#[derive(Clone, Copy, Debug, PartialEq, Eq, Structural)]
pub enum ApiError {
    InvalidGameParams,
    InvalidCell,
    InvalidMode,
    InvalidInviteLink,
    InviteRequired,
    LobbyFull,
    NotInLobby,
    NoActiveMatch,
    NotInThisMatch,
    OnlyOwnerCanStart,
    BothPlayersMustBeReady,
    NotInMatch,
    WinnerNotMatchPlayer,
    OnlyHostCanEdit,
    LobbyNotIdle,
    MatchInProgress,
    Unauthorized,
    InvalidToken,
    InvalidCredentials,
    AccountExists,
}

/// HTTP status code of each failure.
pub open spec fn status_of(e: ApiError) -> u16 {
    match e {
        ApiError::InvalidGameParams => 400,
        ApiError::InvalidCell => 400,
        ApiError::InvalidMode => 400,
        ApiError::InvalidInviteLink => 400,
        ApiError::InviteRequired => 400,
        ApiError::LobbyFull => 400,
        ApiError::NotInLobby => 403,
        ApiError::NoActiveMatch => 404,
        ApiError::NotInThisMatch => 403,
        ApiError::OnlyOwnerCanStart => 403,
        ApiError::BothPlayersMustBeReady => 400,
        ApiError::NotInMatch => 403,
        ApiError::WinnerNotMatchPlayer => 400,
        ApiError::OnlyHostCanEdit => 403,
        ApiError::LobbyNotIdle => 400,
        ApiError::MatchInProgress => 400,
        ApiError::Unauthorized => 401,
        ApiError::InvalidToken => 401,
        ApiError::InvalidCredentials => 401,
        ApiError::AccountExists => 400,
    }
}

/// Message sent with each failure.
pub open spec fn message_of(e: ApiError) -> Seq<char> {
    match e {
        ApiError::InvalidGameParams => "Invalid game params"@,
        ApiError::InvalidCell => "Invalid cell"@,
        ApiError::InvalidMode => "Invalid mode"@,
        ApiError::InvalidInviteLink => "Invalid invite link"@,
        ApiError::InviteRequired => "Invite is required"@,
        ApiError::LobbyFull => "Lobby is full"@,
        ApiError::NotInLobby => "Not in this lobby"@,
        ApiError::NoActiveMatch => "No active match"@,
        ApiError::NotInThisMatch => "Not in this match"@,
        ApiError::OnlyOwnerCanStart => "Only owner can start"@,
        ApiError::BothPlayersMustBeReady => "Both players must be ready"@,
        ApiError::NotInMatch => "Not in match"@,
        ApiError::WinnerNotMatchPlayer => "winnerId must be a match player"@,
        ApiError::OnlyHostCanEdit => "Only host can edit lobby settings"@,
        ApiError::LobbyNotIdle => "Edit settings between matches while the lobby is idle"@,
        ApiError::MatchInProgress => "Match still in progress"@,
        ApiError::Unauthorized => "Unauthorized"@,
        ApiError::InvalidToken => "Invalid token"@,
        ApiError::InvalidCredentials => "Invalid credentials"@,
        ApiError::AccountExists => "Email or username already exists"@,
    }
}

impl ApiError {
    /// HTTP status code of this failure.
    pub fn status_code(&self) -> (code: u16)
        ensures
            code == status_of(*self),
    {
        match self {
            ApiError::InvalidGameParams => 400,
            ApiError::InvalidCell => 400,
            ApiError::InvalidMode => 400,
            ApiError::InvalidInviteLink => 400,
            ApiError::InviteRequired => 400,
            ApiError::LobbyFull => 400,
            ApiError::NotInLobby => 403,
            ApiError::NoActiveMatch => 404,
            ApiError::NotInThisMatch => 403,
            ApiError::OnlyOwnerCanStart => 403,
            ApiError::BothPlayersMustBeReady => 400,
            ApiError::NotInMatch => 403,
            ApiError::WinnerNotMatchPlayer => 400,
            ApiError::OnlyHostCanEdit => 403,
            ApiError::LobbyNotIdle => 400,
            ApiError::MatchInProgress => 400,
            ApiError::Unauthorized => 401,
            ApiError::InvalidToken => 401,
            ApiError::InvalidCredentials => 401,
            ApiError::AccountExists => 400,
        }
    }

    /// Message sent with this failure.
    pub fn message(&self) -> (text: &'static str)
        ensures
            text@ == message_of(*self),
    {
        match self {
            ApiError::InvalidGameParams => "Invalid game params",
            ApiError::InvalidCell => "Invalid cell",
            ApiError::InvalidMode => "Invalid mode",
            ApiError::InvalidInviteLink => "Invalid invite link",
            ApiError::InviteRequired => "Invite is required",
            ApiError::LobbyFull => "Lobby is full",
            ApiError::NotInLobby => "Not in this lobby",
            ApiError::NoActiveMatch => "No active match",
            ApiError::NotInThisMatch => "Not in this match",
            ApiError::OnlyOwnerCanStart => "Only owner can start",
            ApiError::BothPlayersMustBeReady => "Both players must be ready",
            ApiError::NotInMatch => "Not in match",
            ApiError::WinnerNotMatchPlayer => "winnerId must be a match player",
            ApiError::OnlyHostCanEdit => "Only host can edit lobby settings",
            ApiError::LobbyNotIdle => "Edit settings between matches while the lobby is idle",
            ApiError::MatchInProgress => "Match still in progress",
            ApiError::Unauthorized => "Unauthorized",
            ApiError::InvalidToken => "Invalid token",
            ApiError::InvalidCredentials => "Invalid credentials",
            ApiError::AccountExists => "Email or username already exists",
        }
    }
}

} // verus!
