use avdr_contracts::access_control::contract::holds_kind;
use avdr_contracts::access_control::deny_list::DenyLists;
use avdr_contracts::access_control::error::Error;
use avdr_contracts::access_control::permission::{Permission, PermissionSet};
use avdr_contracts::access_control::permission_ledger::{
    PermissionLedger, ResourceGrants, UserGrant,
};
use avdr_contracts::access_control::request::{
    PendingRequest, PermissionRequest, ReqIdx, Request, RequestStatus,
};
use avdr_contracts::access_control::request_queue::{RequestQueue, Selector};
use avdr_contracts::access_control::share_ledger::{ShareLedger, ShareRow};
use avdr_contracts::nft::{copy_tokens, find_token, ids_ascend, set_token, TokenBalance};
use avdr_contracts::types::{
    addresses_ascend, bytes_before, copy_bytes, copy_text, Address, Cid, PublicKey,
};

fn addr(n: u8) -> Address {
    Address([n; 20])
}

fn cid(n: u8) -> Cid {
    Cid(addr(n))
}

fn ask(user: u8, resource: u8, perm: Permission) -> Request {
    Request::Permission(PermissionRequest { user: addr(user), cid: cid(resource), perm })
}

#[test]
fn bytes_are_compared_like_words_in_a_dictionary() {
    assert!(bytes_before(&[], &[0]));
    assert!(bytes_before(&[1, 2], &[1, 3]));
    assert!(bytes_before(&[1, 2], &[1, 2, 0]));
    assert!(bytes_before(&[1, 255], &[2]));
    assert!(!bytes_before(&[], &[]));
    assert!(!bytes_before(&[1, 2], &[1, 2]));
    assert!(!bytes_before(&[1, 3], &[1, 2, 9]));
    assert!(!bytes_before(&[2], &[1, 255]));
}

#[test]
fn address_helpers() {
    assert!(Address([0; 20]).is_zero_address());
    let mut a = [0u8; 20];
    a[19] = 1;
    assert!(!Address(a).is_zero_address());
    a[19] = 0;
    a[0] = 1;
    assert!(!Address(a).is_zero_address());
    assert!(addresses_ascend(&vec![]));
    assert!(addresses_ascend(&vec![addr(1)]));
    assert!(addresses_ascend(&vec![addr(1), addr(2), addr(9)]));
    assert!(!addresses_ascend(&vec![addr(1), addr(1)]));
    assert!(!addresses_ascend(&vec![addr(1), addr(3), addr(2)]));
    assert_eq!(copy_bytes(&vec![1, 2, 3]), vec![1, 2, 3]);
    assert_eq!(copy_bytes(&vec![]), Vec::<u8>::new());
    assert_eq!(copy_text(&Some("a".to_string())), Some("a".to_string()));
    assert_eq!(copy_text(&None), None);
}

#[test]
fn kinds_are_found_in_a_list() {
    let kinds = vec![Permission::Write, Permission::Reject];
    assert!(holds_kind(&kinds, Permission::Write));
    assert!(holds_kind(&kinds, Permission::Reject));
    assert!(!holds_kind(&kinds, Permission::Approve));
    assert!(!holds_kind(&vec![], Permission::Write));
}

#[test]
fn permission_ledger_grants_and_revokes() {
    let mut ledger = PermissionLedger::new();
    assert!(ledger.is_wf());
    assert_eq!(ledger.lookup(&cid(1), &addr(1)), None);
    assert_eq!(ledger.find_row(&cid(1)), None);
    ledger.grant(cid(1), addr(1), Permission::Write);
    ledger.grant(cid(1), addr(2), Permission::Remove);
    ledger.grant(cid(2), addr(1), Permission::Approve);
    ledger.grant(cid(1), addr(1), Permission::Reject);
    ledger.grant(cid(1), addr(1), Permission::Write);
    assert_eq!(ledger.find_row(&cid(2)), Some(1));
    assert_eq!(ledger.rows[0].find_user(&addr(2)), Some(1));
    assert_eq!(ledger.rows[0].find_user(&addr(3)), None);
    let mut held = PermissionSet::empty();
    held.insert(Permission::Write);
    held.insert(Permission::Reject);
    assert_eq!(ledger.lookup(&cid(1), &addr(1)), Some(held));
    assert_eq!(ledger.lookup(&cid(2), &addr(2)), None);
    assert_eq!(ledger.lookup(&cid(3), &addr(1)), None);
    let before = ledger.clone();
    assert_eq!(ledger.revoke(&cid(3), &addr(1), Permission::Write), Err(Error::NotFound));
    assert_eq!(ledger.revoke(&cid(1), &addr(3), Permission::Write), Err(Error::NotFound));
    assert_eq!(
        ledger.revoke(&cid(1), &addr(2), Permission::Write),
        Err(Error::PermissionNotHeld)
    );
    assert_eq!(ledger, before);
    assert_eq!(ledger.revoke(&cid(1), &addr(1), Permission::Write), Ok(()));
    assert_eq!(ledger.lookup(&cid(1), &addr(1)), Some(PermissionSet::single(Permission::Reject)));
    assert_eq!(ledger.revoke(&cid(1), &addr(1), Permission::Reject), Ok(()));
    assert_eq!(ledger.lookup(&cid(1), &addr(1)), None);
    assert_eq!(ledger.revoke(&cid(1), &addr(2), Permission::Remove), Ok(()));
    assert_eq!(ledger.find_row(&cid(1)), None);
    assert_eq!(
        ledger.rows,
        vec![ResourceGrants {
            cid: cid(2),
            users: vec![UserGrant {
                user: addr(1),
                perms: PermissionSet::single(Permission::Approve)
            }],
        }]
    );
    assert!(ledger.is_wf());
    assert!(ledger.rows[0].is_wf());
}

#[test]
fn share_ledger_commits_targets_in_order() {
    let mut ledger = ShareLedger::new();
    assert!(!ledger.is_claimed(&cid(5)));
    assert_eq!(ledger.targets(&cid(1)), None);
    assert_eq!(ledger.has_share(&cid(5), &cid(1)), None);
    ledger.commit(cid(1), cid(5));
    ledger.commit(cid(1), cid(3));
    ledger.commit(cid(2), cid(4));
    ledger.commit(cid(1), cid(9));
    assert_eq!(ledger.targets(&cid(1)), Some(vec![cid(3), cid(5), cid(9)]));
    assert_eq!(ledger.targets(&cid(2)), Some(vec![cid(4)]));
    assert_eq!(ledger.find_row(&cid(2)), Some(1));
    assert_eq!(ledger.find_row(&cid(4)), None);
    assert!(ledger.is_claimed(&cid(4)));
    assert!(ledger.is_claimed(&cid(9)));
    assert!(!ledger.is_claimed(&cid(1)));
    assert_eq!(ledger.has_share(&cid(5), &cid(1)), Some(true));
    assert_eq!(ledger.has_share(&cid(4), &cid(1)), Some(false));
    assert!(ledger.rows[0].has_target(&cid(3)));
    assert!(!ledger.rows[0].has_target(&cid(4)));
    assert!(ledger.is_wf());
    assert!(ledger.rows[0].is_wf());
    assert!(!ShareRow { cid: cid(1), targets: vec![cid(2), cid(2)] }.is_wf());
    assert!(!ShareRow { cid: cid(1), targets: vec![] }.is_wf());
}

#[test]
fn deny_lists_take_each_entry_once() {
    let mut deny = DenyLists::new();
    assert!(!deny.has_key(&PublicKey(vec![1])));
    assert!(!deny.has_cid(&cid(1)));
    deny.deny_key(PublicKey(vec![1]));
    deny.deny_key(PublicKey(vec![1, 0]));
    deny.deny_key(PublicKey(vec![1]));
    deny.deny_cid(cid(1));
    deny.deny_cid(cid(1));
    assert_eq!(deny.keys, vec![PublicKey(vec![1]), PublicKey(vec![1, 0])]);
    assert_eq!(deny.cids, vec![cid(1)]);
    assert!(deny.has_key(&PublicKey(vec![1, 0])));
    assert!(!deny.has_key(&PublicKey(vec![0, 1])));
    assert!(deny.has_cid(&cid(1)));
    assert!(!deny.has_cid(&cid(2)));
}

#[test]
fn request_queue_numbers_and_resolves() {
    let mut queue = RequestQueue::new();
    assert!(queue.is_wf());
    assert_eq!(queue.status_of(ReqIdx(1)), None);
    assert_eq!(queue.submit(ask(1, 1, Permission::Write)), ReqIdx(1));
    assert_eq!(queue.submit(ask(2, 1, Permission::Write)), ReqIdx(2));
    assert_eq!(queue.submit(ask(1, 2, Permission::Write)), ReqIdx(3));
    assert_eq!(queue.counter, 3);
    assert_eq!(queue.find(ReqIdx(2)), Some(1));
    assert_eq!(queue.find(ReqIdx(4)), None);
    assert_eq!(queue.find(ReqIdx(0)), None);
    queue.resolve(1, RequestStatus::Approved);
    assert_eq!(queue.find(ReqIdx(2)), None);
    assert_eq!(queue.find(ReqIdx(3)), Some(1));
    assert_eq!(queue.status_of(ReqIdx(0)), None);
    assert_eq!(queue.status_of(ReqIdx(1)), Some(RequestStatus::Pending));
    assert_eq!(queue.status_of(ReqIdx(2)), Some(RequestStatus::Approved));
    assert_eq!(queue.status_of(ReqIdx(3)), Some(RequestStatus::Pending));
    assert_eq!(queue.status_of(ReqIdx(4)), None);
    assert_eq!(queue.submit(ask(2, 2, Permission::Remove)), ReqIdx(4));
    queue.resolve(0, RequestStatus::Rejected);
    assert_eq!(queue.status_of(ReqIdx(1)), Some(RequestStatus::Rejected));
    assert_eq!(
        queue.list(&Selector::Resource(cid(2))),
        vec![
            PendingRequest { req_idx: ReqIdx(3), req: ask(1, 2, Permission::Write) },
            PendingRequest { req_idx: ReqIdx(4), req: ask(2, 2, Permission::Remove) },
        ]
    );
    assert_eq!(
        queue.list(&Selector::Principal(addr(2))),
        vec![PendingRequest { req_idx: ReqIdx(4), req: ask(2, 2, Permission::Remove) }]
    );
    assert!(queue.list(&Selector::Resource(cid(1))).is_empty());
    assert!(Selector::Resource(cid(2)).selects(&ask(1, 2, Permission::Write)));
    assert!(!Selector::Resource(cid(2)).selects(&ask(2, 1, Permission::Write)));
    assert!(Selector::Principal(addr(2)).selects(&ask(2, 1, Permission::Write)));
    assert!(!Selector::Principal(addr(2)).selects(&ask(1, 2, Permission::Write)));
    assert!(queue.is_wf());
}

#[test]
fn tokens_are_kept_by_id() {
    let mut tokens: Vec<TokenBalance> = Vec::new();
    set_token(&mut tokens, 7, 1);
    set_token(&mut tokens, 3, 2);
    set_token(&mut tokens, 9, 3);
    set_token(&mut tokens, 7, 4);
    assert_eq!(
        tokens,
        vec![
            TokenBalance { id: 3, amount: 2 },
            TokenBalance { id: 7, amount: 4 },
            TokenBalance { id: 9, amount: 3 },
        ]
    );
    assert_eq!(find_token(&tokens, 7), Some(1));
    assert_eq!(find_token(&tokens, 8), None);
    assert_eq!(copy_tokens(&tokens), tokens);
    assert!(ids_ascend(&tokens));
    assert!(ids_ascend(&vec![]));
    tokens.swap(0, 2);
    assert!(!ids_ascend(&tokens));
    assert!(!ids_ascend(&vec![TokenBalance { id: 1, amount: 0 }, TokenBalance { id: 1, amount: 0 }]));
}
