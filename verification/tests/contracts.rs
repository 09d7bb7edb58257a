use avdr_contracts::address_set::AddressSet;
use avdr_contracts::contract_call::{
    call_gas_limit, expect_no_result, expect_result, optional_result, CallError, ContractCall,
};
use avdr_contracts::data_storage::{Contract as Storage, StorageError};
use avdr_contracts::game::{
    from_lobby_error, Contract as Game, GameError, LobbyError, LobbyUser, Metadata as GameMetadata,
    User,
};
use avdr_contracts::score_board::{
    Contract as ScoreBoard, Event, ScoreBoardError, Scores,
};
use avdr_contracts::types::{
    Address, Cid, Content, EventData, Metadata, PublicKey, ScoreBoardMetadata,
};
use avdr_contracts::version_control::{
    Contract as History, DataInfo, SharedDataInfo, VersionError,
};

fn addr(n: u8) -> Address {
    Address([n; 20])
}

fn cid(n: u8) -> Cid {
    Cid(addr(n))
}

const OWNER: u8 = 77;

fn metadata(name: &str, owner: u8) -> Metadata {
    Metadata {
        name: name.to_string(),
        description: Some("about".to_string()),
        pub_key: PublicKey(vec![1, 2]),
        owner: addr(owner),
        versioned: false,
    }
}

#[test]
fn gas_limit_keeps_the_reserve_back() {
    assert_eq!(call_gas_limit(0), 0);
    assert_eq!(call_gas_limit(9_999), 0);
    assert_eq!(call_gas_limit(10_000), 0);
    assert_eq!(call_gas_limit(10_001), 1);
    assert_eq!(call_gas_limit(1_000_000), 990_000);
    assert_eq!(call_gas_limit(u64::MAX), u64::MAX - 10_000);
}

#[test]
fn calls_carry_their_budget() {
    let q = ContractCall::query(addr(1), "has_perm".to_string(), vec![1, 2], 50_000);
    assert_eq!(
        q,
        ContractCall {
            contract_address: addr(1),
            method_name: "has_perm".to_string(),
            args: vec![1, 2],
            read_only: true,
            gas_limit: 40_000,
        }
    );
    let c = ContractCall::command(addr(2), "start_game".to_string(), vec![], 5);
    assert_eq!(
        c,
        ContractCall {
            contract_address: addr(2),
            method_name: "start_game".to_string(),
            args: vec![],
            read_only: false,
            gas_limit: 0,
        }
    );
}

#[test]
fn replies_are_taken_for_what_was_expected() {
    let failed = || Err::<Vec<u8>, String>("boom".to_string());
    assert_eq!(expect_result(Ok(vec![1])), Ok(vec![1]));
    assert_eq!(expect_result(Ok(vec![])), Err(CallError::EmptyResult));
    assert_eq!(expect_result(failed()), Err(CallError::Failed("boom".to_string())));
    assert_eq!(optional_result(Ok(vec![1])), Ok(Some(vec![1])));
    assert_eq!(optional_result(Ok(vec![])), Ok(None));
    assert_eq!(optional_result(failed()), Err(CallError::Failed("boom".to_string())));
    assert_eq!(expect_no_result(Ok(vec![])), Ok(()));
    assert_eq!(expect_no_result(Ok(vec![0])), Err(CallError::UnexpectedResult));
    assert_eq!(expect_no_result(failed()), Err(CallError::Failed("boom".to_string())));
}

#[test]
fn address_set_keeps_order_and_no_duplicates() {
    let mut s = AddressSet::new();
    assert!(s.is_empty());
    assert!(s.is_wf());
    assert!(s.insert(addr(3)));
    assert!(s.insert(addr(1)));
    assert!(!s.insert(addr(3)));
    assert!(s.insert(addr(2)));
    assert_eq!(s.to_vec(), vec![addr(1), addr(2), addr(3)]);
    assert_eq!(s.len(), 3);
    assert!(s.contains(&addr(2)));
    assert!(!s.contains(&addr(4)));
    assert!(!s.remove(&addr(4)));
    assert!(s.remove(&addr(2)));
    assert_eq!(s.to_vec(), vec![addr(1), addr(3)]);
    assert!(s.is_wf());
    assert!(!AddressSet { items: vec![addr(2), addr(1)] }.is_wf());
    assert!(!AddressSet { items: vec![addr(1), addr(1)] }.is_wf());
    assert!(AddressSet { items: vec![addr(1)] }.is_wf());
}

#[test]
fn stored_content_knows_its_owner() {
    let new = |caller: u8, initialized: bool, key: Vec<u8>, description: Option<String>| {
        Storage::new(
            addr(caller),
            addr(OWNER),
            initialized,
            "doc".to_string(),
            description,
            PublicKey(key),
            Content(vec![9, 9]),
        )
    };
    assert_eq!(new(1, false, vec![], None), Err(StorageError::NotContractOwner));
    assert_eq!(new(OWNER, true, vec![], None), Err(StorageError::AlreadyInitialized));
    let plain = new(OWNER, false, vec![], None).unwrap();
    assert_eq!(plain.owner(), addr(OWNER));
    assert!(!plain.encrypted());
    assert!(!plain.metadata.versioned);
    assert_eq!(plain.content, Content(vec![9, 9]));
    assert_eq!(plain.description(), Err(StorageError::NoDescription));
    let sealed = new(OWNER, false, vec![5], Some("d".to_string())).unwrap();
    assert!(sealed.encrypted());
    assert_eq!(sealed.description(), Ok("d".to_string()));
    assert_eq!(Storage::load(None), Err(StorageError::NotInitialized));
    assert_eq!(Storage::load(Some(sealed.clone())), Ok(sealed));
}

fn history() -> History {
    History::new(addr(OWNER), addr(OWNER), false, addr(60), cid(1), metadata("doc", 5)).unwrap()
}

#[test]
fn history_starts_with_its_first_version() {
    assert_eq!(
        History::new(addr(1), addr(OWNER), false, addr(60), cid(1), metadata("doc", 5)),
        Err(VersionError::NotContractOwner)
    );
    assert_eq!(
        History::new(addr(OWNER), addr(OWNER), true, addr(60), cid(1), metadata("doc", 5)),
        Err(VersionError::AlreadyInitialized)
    );
    let h = history();
    assert_eq!(h.get(), vec![DataInfo::Content(cid(1))]);
    assert_eq!(h.get_newest(), DataInfo::Content(cid(1)));
    assert!(h.get_shared().is_empty());
    assert_eq!(h.access_control, addr(60));
    assert!(h.metadata.versioned);
    assert_eq!(h.metadata.name, "doc");
    assert_eq!(h.metadata.owner, addr(5));
    assert_eq!(History::load(None), Err(VersionError::NotInitialized));
}

#[test]
fn versions_are_appended_for_the_same_owner_and_name() {
    let mut h = history();
    let before = h.clone();
    assert_eq!(h.submit(false, cid(2), &metadata("doc", 5)), Err(VersionError::NoWritePermission));
    assert_eq!(h.submit(true, cid(2), &metadata("doc", 6)), Err(VersionError::OwnersNotEqual));
    assert_eq!(h.submit(true, cid(2), &metadata("other", 5)), Err(VersionError::NamesNotEqual));
    assert_eq!(h.submit(false, cid(2), &metadata("other", 6)), Err(VersionError::NoWritePermission));
    assert_eq!(h.submit(true, cid(2), &metadata("other", 6)), Err(VersionError::OwnersNotEqual));
    assert_eq!(h.remove(false), Err(VersionError::NoRemovePermission));
    assert_eq!(h, before);
    assert_eq!(h.submit(true, cid(2), &metadata("doc", 5)), Ok(()));
    assert_eq!(h.remove(true), Ok(()));
    assert_eq!(h.submit(true, cid(3), &metadata("doc", 5)), Ok(()));
    assert_eq!(
        h.get(),
        vec![
            DataInfo::Content(cid(1)),
            DataInfo::Content(cid(2)),
            DataInfo::Removed,
            DataInfo::Content(cid(3)),
        ]
    );
    assert_eq!(h.get_newest(), DataInfo::Content(cid(3)));
    assert_eq!(h.get_version(0), Ok(DataInfo::Content(cid(1))));
    assert_eq!(h.get_version(2), Ok(DataInfo::Removed));
    assert_eq!(h.get_version(4), Err(VersionError::NoSuchVersion));
    assert_eq!(h.get_version(u64::MAX), Err(VersionError::NoSuchVersion));
}

#[test]
fn shares_name_the_first_version_they_come_from() {
    let mut h = history();
    h.submit(true, cid(2), &metadata("doc", 5)).unwrap();
    h.submit(true, cid(1), &metadata("doc", 5)).unwrap();
    h.submit(true, cid(2), &metadata("doc", 5)).unwrap();
    let before = h.clone();
    assert_eq!(h.submit_shared(false, true, cid(9), cid(2)), Err(VersionError::NoWritePermission));
    assert_eq!(h.submit_shared(true, false, cid(9), cid(2)), Err(VersionError::ShareNotApproved));
    assert_eq!(h.submit_shared(true, true, cid(9), cid(7)), Err(VersionError::FromVersionNotFound));
    assert_eq!(h.submit_shared(false, false, cid(9), cid(7)), Err(VersionError::NoWritePermission));
    assert_eq!(h, before);
    assert_eq!(h.find_version(&cid(2)), Some(1));
    assert_eq!(h.find_version(&cid(7)), None);
    assert_eq!(h.submit_shared(true, true, cid(9), cid(2)), Ok(()));
    assert_eq!(h.submit_shared(true, true, cid(8), cid(1)), Ok(()));
    assert_eq!(
        h.get_shared(),
        vec![
            SharedDataInfo { cid: cid(9), from_version: 1 },
            SharedDataInfo { cid: cid(8), from_version: 0 },
        ]
    );
    assert_eq!(h.versions, before.versions);
}

fn board_metadata(game_id: &str, session_id: &str) -> ScoreBoardMetadata {
    ScoreBoardMetadata {
        name: "board".to_string(),
        description: None,
        game_id: game_id.to_string(),
        session_id: session_id.to_string(),
    }
}

const ADMIN: u8 = 30;

fn score_board() -> ScoreBoard {
    ScoreBoard::new(addr(OWNER), addr(OWNER), false, board_metadata("g", "s"), addr(ADMIN)).unwrap()
}

#[test]
fn score_board_is_set_up_by_the_owner_once() {
    assert_eq!(
        ScoreBoard::new(addr(1), addr(OWNER), false, board_metadata("g", "s"), addr(ADMIN)),
        Err(ScoreBoardError::NotContractOwner)
    );
    assert_eq!(
        ScoreBoard::new(addr(OWNER), addr(OWNER), true, board_metadata("g", "s"), addr(ADMIN)),
        Err(ScoreBoardError::AlreadyInitialized)
    );
    let b = score_board();
    assert_eq!(b.administrator, addr(ADMIN));
    assert!(!b.locked);
    assert!(!b.game_is_started);
    assert_eq!(b.board(), Err(ScoreBoardError::BoardNotInitialized));
    assert!(b.users().is_empty());
    assert!(b.events().is_empty());
    assert_eq!(ScoreBoard::load(None), Err(ScoreBoardError::NotInitialized));
}

#[test]
fn score_board_runs_a_game() {
    let mut b = score_board();
    let before = b.clone();
    assert_eq!(b.start_game(addr(1), vec![addr(1)]), Err(ScoreBoardError::NotAdministrator));
    assert_eq!(
        b.store_event(addr(1), 5, EventData(vec![1])),
        Err(ScoreBoardError::CannotFindUser)
    );
    assert_eq!(b, before);
    assert_eq!(b.start_game(addr(ADMIN), vec![addr(3), addr(1), addr(3)]), Ok(()));
    assert!(b.game_is_started);
    assert_eq!(b.users(), vec![addr(1), addr(3)]);
    assert_eq!(
        b.board(),
        Ok(vec![Scores { user: addr(1), scores: 0 }, Scores { user: addr(3), scores: 0 }])
    );
    assert_eq!(
        b.start_game(addr(ADMIN), vec![addr(4)]),
        Err(ScoreBoardError::GameAlreadyStarted)
    );
    assert_eq!(b.store_event(addr(3), 10, EventData(vec![7])), Ok(()));
    assert_eq!(b.store_event(addr(3), 11, EventData(vec![])), Ok(()));
    assert_eq!(b.store_event(addr(1), 12, EventData(vec![8, 9])), Ok(()));
    assert_eq!(
        b.store_event(addr(2), 13, EventData(vec![])),
        Err(ScoreBoardError::CannotFindUser)
    );
    assert_eq!(
        b.events(),
        vec![
            Event { timestamp: 10, reporter: addr(3), data: EventData(vec![7]) },
            Event { timestamp: 11, reporter: addr(3), data: EventData(vec![]) },
            Event { timestamp: 12, reporter: addr(1), data: EventData(vec![8, 9]) },
        ]
    );
    assert_eq!(
        b.board(),
        Ok(vec![Scores { user: addr(1), scores: 1 }, Scores { user: addr(3), scores: 2 }])
    );
    assert_eq!(b.end_game(addr(1)), Err(ScoreBoardError::NotAdministrator));
    assert_eq!(b.end_game(addr(ADMIN)), Ok(()));
    assert!(b.locked);
    let locked = b.clone();
    assert_eq!(b.end_game(addr(ADMIN)), Err(ScoreBoardError::Locked));
    assert_eq!(b.store_event(addr(3), 14, EventData(vec![])), Err(ScoreBoardError::Locked));
    assert_eq!(b.start_game(addr(ADMIN), vec![]), Err(ScoreBoardError::Locked));
    assert_eq!(b, locked);
}

fn game() -> Game {
    Game::new(
        addr(OWNER),
        addr(OWNER),
        false,
        GameMetadata { name: "game".to_string(), description: None, game_id: "g".to_string() },
    )
    .unwrap()
}

const INSTANCE: u8 = 88;

fn game_with_lobby() -> Game {
    let mut g = game();
    g.create_lobby(
        addr(1),
        "s".to_string(),
        addr(40),
        &board_metadata("g", "s"),
        addr(INSTANCE),
        &vec![],
        addr(INSTANCE),
    )
    .unwrap();
    g
}

#[test]
fn game_is_set_up_by_the_owner_once() {
    let m = || GameMetadata { name: "game".to_string(), description: None, game_id: "g".to_string() };
    assert_eq!(Game::new(addr(1), addr(OWNER), false, m()), Err(GameError::NotContractOwner));
    assert_eq!(Game::new(addr(OWNER), addr(OWNER), true, m()), Err(GameError::AlreadyInitialized));
    assert_eq!(Game::load(None), Err(GameError::NotInitialized));
    let g = game();
    assert!(g.registered_boards.is_empty());
    assert!(g.list_admins().is_empty());
}

#[test]
fn lobby_is_created_for_a_fresh_board_of_the_session() {
    let mut g = game();
    let create = |g: &mut Game, session: &str, meta: ScoreBoardMetadata, admin: u8, users: Vec<Address>| {
        g.create_lobby(addr(1), session.to_string(), addr(40), &meta, addr(admin), &users, addr(INSTANCE))
    };
    assert_eq!(
        create(&mut g, "s", board_metadata("other", "s"), INSTANCE, vec![]),
        Err(GameError::GameIdMismatch)
    );
    assert_eq!(
        create(&mut g, "s", board_metadata("g", "t"), INSTANCE, vec![]),
        Err(GameError::SessionIdMismatch)
    );
    assert_eq!(
        create(&mut g, "s", board_metadata("g", "s"), 1, vec![]),
        Err(GameError::NotBoardAdministrator)
    );
    assert_eq!(
        create(&mut g, "s", board_metadata("g", "s"), INSTANCE, vec![addr(1)]),
        Err(GameError::BoardHasUsers)
    );
    assert_eq!(
        create(&mut g, "s", board_metadata("other", "t"), 1, vec![addr(1)]),
        Err(GameError::GameIdMismatch)
    );
    assert_eq!(g, game());
    assert_eq!(create(&mut g, "s", board_metadata("g", "s"), INSTANCE, vec![]), Ok(()));
    assert_eq!(
        create(&mut g, "s", board_metadata("other", "s"), INSTANCE, vec![]),
        Err(GameError::SessionAlreadyRegistered)
    );
    assert_eq!(g.get_board_by_session(&"s".to_string()), Ok(addr(40)));
    assert_eq!(g.get_board_by_session(&"t".to_string()), Err(GameError::CannotFindSession));
    let lobby = g.get_lobby_by_session(&"s".to_string()).unwrap();
    assert_eq!(lobby.users, vec![LobbyUser { address: addr(1), user: User { is_ready: false } }]);
    assert!(!lobby.locked);
    assert_eq!(g.get_lobby_by_session(&"t".to_string()), Err(GameError::CannotFindSession));
}

#[test]
fn users_join_and_get_ready_in_a_session() {
    let mut g = game_with_lobby();
    let s = "s".to_string();
    let t = "t".to_string();
    assert_eq!(g.join_lobby(addr(2), &t), Err(GameError::CannotFindSession));
    assert_eq!(g.join_lobby(addr(1), &s), Err(GameError::AlreadyJoined));
    assert_eq!(g.join_lobby(addr(2), &s), Ok(()));
    assert_eq!(g.set_user_ready_status(addr(3), &s, true), Err(GameError::CannotFindUser));
    assert_eq!(g.set_user_ready_status(addr(2), &t, true), Err(GameError::CannotFindSession));
    assert_eq!(g.leave_lobby(addr(2), &s), Err(GameError::CannotFindUser));
    assert_eq!(g.leave_lobby(addr(3), &s), Ok(()));
    assert_eq!(g.leave_lobby(addr(3), &t), Err(GameError::CannotFindSession));
    assert_eq!(g.start_game(addr(OWNER), addr(OWNER), &s), Err(GameError::NoReadyUsers));
    assert_eq!(g.set_user_ready_status(addr(2), &s, true), Ok(()));
    assert_eq!(g.start_game(addr(9), addr(OWNER), &s), Err(GameError::NotOwnerOrAdministrator));
    assert_eq!(g.start_game(addr(OWNER), addr(OWNER), &t), Err(GameError::CannotFindSession));
    assert_eq!(g.start_game(addr(OWNER), addr(OWNER), &s), Ok((addr(40), vec![addr(2)])));
    let locked = g.clone();
    assert_eq!(g.start_game(addr(OWNER), addr(OWNER), &s), Err(GameError::LobbyLocked));
    assert_eq!(g.join_lobby(addr(5), &s), Err(GameError::LobbyLocked));
    assert_eq!(g.set_user_ready_status(addr(1), &s, true), Err(GameError::LobbyLocked));
    assert_eq!(g, locked);
    assert_eq!(g.end_game(addr(OWNER), addr(OWNER), &s), Ok(addr(40)));
    assert_eq!(g.end_game(addr(9), addr(OWNER), &s), Err(GameError::NotOwnerOrAdministrator));
    assert_eq!(g.end_game(addr(OWNER), addr(OWNER), &t), Err(GameError::CannotFindSession));
}

#[test]
fn administrators_are_named_by_the_owner() {
    let mut g = game_with_lobby();
    assert_eq!(g.add_admin(addr(9), addr(OWNER), addr(9)), Err(GameError::NotContractOwner));
    assert_eq!(g.add_admin(addr(OWNER), addr(OWNER), addr(9)), Ok(()));
    assert_eq!(g.add_admin(addr(OWNER), addr(OWNER), addr(9)), Err(GameError::AlreadyAdministrator));
    assert_eq!(g.add_admin(addr(OWNER), addr(OWNER), addr(4)), Ok(()));
    assert_eq!(g.list_admins(), vec![addr(4), addr(9)]);
    assert!(g.is_owner_or_admin(&addr(9), &addr(OWNER)));
    assert!(g.is_owner_or_admin(&addr(OWNER), &addr(OWNER)));
    assert!(!g.is_owner_or_admin(&addr(5), &addr(OWNER)));
    let s = "s".to_string();
    g.set_user_ready_status(addr(1), &s, true).unwrap();
    assert_eq!(g.remove_admin(addr(9), addr(OWNER), addr(4)), Err(GameError::NotContractOwner));
    assert_eq!(g.remove_admin(addr(OWNER), addr(OWNER), addr(4)), Ok(()));
    assert_eq!(g.remove_admin(addr(OWNER), addr(OWNER), addr(4)), Ok(()));
    assert_eq!(g.list_admins(), vec![addr(9)]);
    assert_eq!(g.start_game(addr(4), addr(OWNER), &s), Err(GameError::NotOwnerOrAdministrator));
    assert_eq!(g.start_game(addr(9), addr(OWNER), &s), Ok((addr(40), vec![addr(1)])));
}

#[test]
fn lobby_failures_as_game_failures() {
    assert_eq!(from_lobby_error(LobbyError::Locked), GameError::LobbyLocked);
    assert_eq!(from_lobby_error(LobbyError::AlreadyJoined), GameError::AlreadyJoined);
    assert_eq!(from_lobby_error(LobbyError::CannotFindUser), GameError::CannotFindUser);
}

#[test]
fn stored_states_are_checked() {
    // A lobby with its users out of order.
    let mut g = game_with_lobby();
    g.join_lobby(addr(2), &"s".to_string()).unwrap();
    assert!(g.is_wf());
    assert!(g.registered_boards[0].lobby.is_wf());
    let mut bad = g.clone();
    bad.registered_boards[0].lobby.users.reverse();
    assert!(!bad.registered_boards[0].lobby.is_wf());
    assert!(!bad.is_wf());
    // A session with two lobbies.
    let mut bad = g.clone();
    let again = bad.registered_boards[0].clone();
    bad.registered_boards.push(again);
    assert!(!bad.is_wf());
    // Administrators out of order.
    let mut bad = g.clone();
    bad.administrators.items = vec![addr(2), addr(1)];
    assert!(!bad.is_wf());

    // A score board.
    let mut b = score_board();
    assert!(b.is_wf());
    b.start_game(addr(ADMIN), vec![addr(2), addr(1)]).unwrap();
    b.store_event(addr(1), 1, EventData(vec![])).unwrap();
    assert!(b.is_wf());
    let mut bad = b.clone();
    bad.game_is_started = false;
    assert!(!bad.is_wf());
    let mut bad = b.clone();
    bad.board = None;
    assert!(!bad.is_wf());
    let mut bad = b.clone();
    bad.users.items.pop();
    assert!(!bad.is_wf());
    let mut bad = b.clone();
    bad.users.items[1] = addr(3);
    assert!(!bad.is_wf());
    let mut bad = b.clone();
    bad.events.clear();
    assert!(!bad.is_wf());
    let mut bad = b.clone();
    bad.board.as_mut().unwrap().scores.reverse();
    assert!(!bad.board.as_ref().unwrap().is_wf());
    assert!(!bad.is_wf());
    let mut bad = score_board();
    bad.users.items.push(addr(1));
    assert!(!bad.is_wf());

    // A history without a version.
    let mut h = history();
    assert!(h.is_wf());
    h.versions.clear();
    assert!(!h.is_wf());
}

#[test]
fn contracts_say_what_they_are() {
    let item = Storage::new(
        addr(OWNER),
        addr(OWNER),
        false,
        "doc".to_string(),
        Some("about".to_string()),
        PublicKey(vec![1, 2]),
        Content(vec![9, 9]),
    )
    .unwrap();
    assert_eq!(item.name(), "doc");
    assert_eq!(item.content(), Content(vec![9, 9]));
    assert_eq!(item.public_key(), PublicKey(vec![1, 2]));
    assert_eq!(item.metadata(), metadata("doc", OWNER));
    assert_eq!(item.metadata().duplicate(), item.metadata);

    let h = history();
    assert_eq!(h.name(), "doc");
    assert_eq!(h.description(), Ok("about".to_string()));
    assert_eq!(h.public_key(), PublicKey(vec![1, 2]));
    assert_eq!(h.owner(), addr(5));
    assert_eq!(h.metadata(), Metadata { versioned: true, ..metadata("doc", 5) });
    let mut plain = metadata("doc", 5);
    plain.description = None;
    let bare = History::new(addr(OWNER), addr(OWNER), false, addr(60), cid(1), plain).unwrap();
    assert_eq!(bare.description(), Err(VersionError::NoDescription));

    let b = score_board();
    assert_eq!(b.name(), "board");
    assert_eq!(b.metadata(), board_metadata("g", "s"));
    assert_eq!(b.administrator(), addr(ADMIN));

    let g = game();
    assert_eq!(g.name(), "game");
    assert_eq!(
        g.metadata(),
        GameMetadata { name: "game".to_string(), description: None, game_id: "g".to_string() }
    );
}
