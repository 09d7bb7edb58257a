use avdr_contracts::game::{Lobby, LobbyError, LobbyUser, User};
use avdr_contracts::score_board::{ActionType, Board, BoardError, RuleAction, Rules, Scores};
use avdr_contracts::types::Address;

fn addr(n: u8) -> Address {
    Address([n; 20])
}

#[test]
fn new_user_is_not_ready() {
    assert!(!User::new().is_ready);
}

#[test]
fn new_lobby_holds_its_users_by_address() {
    let lobby = Lobby::new(addr(9), vec![addr(3), addr(1), addr(3), addr(2)]);
    assert_eq!(lobby.board, addr(9));
    assert!(!lobby.locked);
    assert_eq!(
        lobby.users,
        vec![
            LobbyUser { address: addr(1), user: User { is_ready: false } },
            LobbyUser { address: addr(2), user: User { is_ready: false } },
            LobbyUser { address: addr(3), user: User { is_ready: false } },
        ]
    );
    assert!(lobby.ready_users().is_empty());
}

#[test]
fn join_once_and_not_when_locked() {
    let mut lobby = Lobby::new(addr(9), vec![addr(5)]);
    assert_eq!(lobby.join(addr(4)), Ok(()));
    assert_eq!(lobby.join(addr(4)), Err(LobbyError::AlreadyJoined));
    assert_eq!(lobby.join(addr(5)), Err(LobbyError::AlreadyJoined));
    assert_eq!(lobby.is_ready(&addr(4)), Ok(false));
    lobby.lock();
    assert!(lobby.locked);
    let before = lobby.clone();
    assert_eq!(lobby.join(addr(6)), Err(LobbyError::Locked));
    assert_eq!(lobby.join(addr(4)), Err(LobbyError::Locked));
    assert_eq!(lobby, before);
}

#[test]
fn ready_users_are_listed_by_address() {
    let mut lobby = Lobby::new(addr(9), vec![addr(3), addr(1), addr(2), addr(4)]);
    assert_eq!(lobby.set_ready(&addr(3), true), Ok(()));
    assert_eq!(lobby.set_ready(&addr(1), true), Ok(()));
    assert_eq!(lobby.set_ready(&addr(4), true), Ok(()));
    assert_eq!(lobby.set_ready(&addr(4), false), Ok(()));
    assert_eq!(lobby.set_ready(&addr(7), true), Err(LobbyError::CannotFindUser));
    assert_eq!(lobby.is_ready(&addr(3)), Ok(true));
    assert_eq!(lobby.is_ready(&addr(2)), Ok(false));
    assert_eq!(lobby.is_ready(&addr(7)), Err(LobbyError::CannotFindUser));
    assert_eq!(lobby.ready_users(), vec![addr(1), addr(3)]);
    lobby.lock();
    assert_eq!(lobby.set_ready(&addr(2), true), Err(LobbyError::Locked));
    assert_eq!(lobby.set_ready(&addr(7), true), Err(LobbyError::Locked));
    assert_eq!(lobby.ready_users(), vec![addr(1), addr(3)]);
}

#[test]
fn nobody_who_joined_can_leave() {
    let mut lobby = Lobby::new(addr(9), vec![addr(1), addr(2)]);
    let before = lobby.clone();
    assert_eq!(lobby.leave(&addr(1)), Err(LobbyError::CannotFindUser));
    assert_eq!(lobby.leave(&addr(3)), Ok(()));
    assert_eq!(lobby, before);
}

#[test]
fn every_action_scores_one_point() {
    let action = RuleAction { user: addr(1), action: ActionType::Default };
    assert_eq!(Rules.process_rules(&action), 1);
}

#[test]
fn board_counts_the_points_of_its_players() {
    let mut board = Board::new(vec![addr(2), addr(1), addr(2)], Rules);
    assert_eq!(
        board.scores,
        vec![Scores { user: addr(1), scores: 0 }, Scores { user: addr(2), scores: 0 }]
    );
    assert_eq!(board.score_of(&addr(1)), Some(0));
    assert_eq!(board.score_of(&addr(3)), None);
    let by = |n: u8| RuleAction { user: addr(n), action: ActionType::Default };
    assert_eq!(board.update(&by(2)), Ok(()));
    assert_eq!(board.update(&by(2)), Ok(()));
    assert_eq!(board.update(&by(1)), Ok(()));
    let before = board.clone();
    assert_eq!(board.update(&by(3)), Err(BoardError::CannotFindUser));
    assert_eq!(board, before);
    assert_eq!(board.score_of(&addr(1)), Some(1));
    assert_eq!(board.score_of(&addr(2)), Some(2));
}

#[test]
fn leader_board_is_by_score_then_address() {
    let mut board = Board::new(vec![addr(4), addr(3), addr(2), addr(1)], Rules);
    let by = |n: u8| RuleAction { user: addr(n), action: ActionType::Default };
    for n in [1u8, 1, 1, 3, 3, 2, 4, 4] {
        board.update(&by(n)).unwrap();
    }
    assert_eq!(
        board.leader_board(),
        vec![
            Scores { user: addr(2), scores: 1 },
            Scores { user: addr(3), scores: 2 },
            Scores { user: addr(4), scores: 2 },
            Scores { user: addr(1), scores: 3 },
        ]
    );
    assert_eq!(Board::new(vec![], Rules).leader_board(), vec![]);
}
