use avdr_contracts::access_control::contract::Contract;
use avdr_contracts::access_control::error::Error;
use avdr_contracts::access_control::permission::Permission;
use avdr_contracts::access_control::request::{
    PendingRequest, PermissionRequest, ReqIdx, Request, RequestStatus, ShareRequest,
};
use avdr_contracts::types::{Address, Cid, PublicKey};

fn addr(n: u8) -> Address {
    Address([n; 20])
}

fn cid(n: u8) -> Cid {
    Cid(Address([n; 20]))
}

fn key(bytes: &[u8]) -> PublicKey {
    PublicKey(bytes.to_vec())
}

const ADMIN: u8 = 200;
const OWNER: u8 = 100;
const ALICE: u8 = 1;
const BOB: u8 = 2;
const CAROL: u8 = 3;

fn engine() -> Contract {
    Contract::new(addr(ADMIN), addr(ADMIN), false).unwrap()
}

#[test]
fn new_is_for_the_owner_only() {
    assert_eq!(Contract::new(addr(ALICE), addr(ADMIN), false), Err(Error::Forbidden));
    assert_eq!(Contract::new(addr(ALICE), addr(ADMIN), true), Err(Error::Forbidden));
}

#[test]
fn new_happens_once() {
    assert_eq!(Contract::new(addr(ADMIN), addr(ADMIN), true), Err(Error::AlreadyInitialized));
    let c = Contract::new(addr(ADMIN), addr(ADMIN), false).unwrap();
    assert_eq!(c.admin(), addr(ADMIN));
    assert_eq!(c.requests_counter(), 0);
}

#[test]
fn load_needs_a_stored_engine() {
    assert_eq!(Contract::load(None), Err(Error::NotInitialized));
    let c = engine();
    assert_eq!(Contract::load(Some(c.clone())), Ok(c));
}

#[test]
fn owner_holds_all_five_kinds_in_order() {
    let c = engine();
    assert_eq!(
        c.permissions(addr(OWNER), cid(10), addr(OWNER)),
        Ok(vec![
            Permission::Write,
            Permission::Remove,
            Permission::Approve,
            Permission::Reject,
            Permission::Revoke,
        ])
    );
    for p in [
        Permission::Write,
        Permission::Remove,
        Permission::Approve,
        Permission::Reject,
        Permission::Revoke,
    ] {
        assert_eq!(c.has_perm(addr(OWNER), cid(10), p, addr(OWNER)), Ok(true));
    }
}

#[test]
fn stranger_is_not_found_not_false() {
    let c = engine();
    assert_eq!(c.permissions(addr(ALICE), cid(10), addr(OWNER)), Err(Error::NotFound));
    assert_eq!(
        c.has_perm(addr(ALICE), cid(10), Permission::Write, addr(OWNER)),
        Err(Error::NotFound)
    );
}

#[test]
fn has_perm_is_membership_in_permissions() {
    let mut c = engine();
    let id = c.request_perm(addr(ALICE), cid(10), Permission::Reject).unwrap();
    c.approve_perm(addr(OWNER), addr(OWNER), id).unwrap();
    let held = c.permissions(addr(ALICE), cid(10), addr(OWNER)).unwrap();
    for p in [
        Permission::Write,
        Permission::Remove,
        Permission::Approve,
        Permission::Reject,
        Permission::Revoke,
    ] {
        assert_eq!(
            c.has_perm(addr(ALICE), cid(10), p, addr(OWNER)),
            Ok(held.contains(&p))
        );
    }
    // Another resource has no row for Alice.
    assert_eq!(
        c.has_perm(addr(ALICE), cid(11), Permission::Reject, addr(OWNER)),
        Err(Error::NotFound)
    );
    // A row for the resource without an entry for Bob.
    assert_eq!(
        c.has_perm(addr(BOB), cid(10), Permission::Reject, addr(OWNER)),
        Err(Error::NotFound)
    );
}

#[test]
fn scenario_request_then_approve_by_owner() {
    let mut c = engine();
    let id = c.request_perm(addr(ALICE), cid(1), Permission::Write).unwrap();
    assert_eq!(id, ReqIdx(1));
    assert_eq!(c.status_of_request(id), Ok(RequestStatus::Pending));
    assert_eq!(
        c.pending_requests_by_cid(cid(1)),
        vec![PendingRequest {
            req_idx: ReqIdx(1),
            req: Request::Permission(PermissionRequest {
                user: addr(ALICE),
                cid: cid(1),
                perm: Permission::Write,
            }),
        }]
    );
    assert_eq!(c.approve_perm(addr(OWNER), addr(OWNER), id), Ok(()));
    assert_eq!(
        c.permissions(addr(ALICE), cid(1), addr(OWNER)),
        Ok(vec![Permission::Write])
    );
    assert_eq!(
        c.has_perm(addr(ALICE), cid(1), Permission::Write, addr(OWNER)),
        Ok(true)
    );
    assert_eq!(c.status_of_request(ReqIdx(1)), Ok(RequestStatus::Approved));
    assert!(c.pending_requests_by_cid(cid(1)).is_empty());
    assert!(c.pending_requests_by_user(addr(ALICE)).is_empty());
}

#[test]
fn request_numbers_run_from_one_without_gaps() {
    let mut c = engine();
    c.deny_cid(addr(ADMIN), cid(99)).unwrap();
    let mut issued = Vec::new();
    for round in 0..6u8 {
        let id = c.request_perm(addr(ALICE), cid(round), Permission::Write).unwrap();
        issued.push(id.0);
        // A request that fails takes no number.
        assert_eq!(
            c.request_perm(addr(ALICE), cid(99), Permission::Write),
            Err(Error::DeniedResource)
        );
        if round % 3 == 0 {
            c.approve_perm(addr(OWNER), addr(OWNER), id).unwrap();
        } else if round % 3 == 1 {
            c.reject_request(addr(OWNER), addr(OWNER), id).unwrap();
        }
        let sid = c.request_share(addr(BOB), cid(round), key(&[round])).unwrap();
        issued.push(sid.0);
    }
    assert_eq!(issued, (1..=12).collect::<Vec<u64>>());
    assert_eq!(c.requests_counter(), 12);
}

#[test]
fn status_of_unknown_request_is_not_found() {
    let mut c = engine();
    assert_eq!(c.status_of_request(ReqIdx(0)), Err(Error::NotFound));
    assert_eq!(c.status_of_request(ReqIdx(1)), Err(Error::NotFound));
    c.request_perm(addr(ALICE), cid(1), Permission::Write).unwrap();
    assert_eq!(c.status_of_request(ReqIdx(1)), Ok(RequestStatus::Pending));
    assert_eq!(c.status_of_request(ReqIdx(2)), Err(Error::NotFound));
    assert_eq!(c.status_of_request(ReqIdx(u64::MAX)), Err(Error::NotFound));
}

#[test]
fn request_then_reject_changes_no_permission() {
    let mut c = engine();
    let first = c.request_perm(addr(ALICE), cid(1), Permission::Write).unwrap();
    c.approve_perm(addr(OWNER), addr(OWNER), first).unwrap();
    let before = c.permissions(addr(ALICE), cid(1), addr(OWNER));
    let id = c.request_perm(addr(ALICE), cid(1), Permission::Remove).unwrap();
    assert_eq!(c.reject_request(addr(OWNER), addr(OWNER), id), Ok(()));
    assert_eq!(c.permissions(addr(ALICE), cid(1), addr(OWNER)), before);
    assert_eq!(c.status_of_request(id), Ok(RequestStatus::Rejected));
    // A rejected request cannot be resolved again.
    assert_eq!(c.approve_perm(addr(OWNER), addr(OWNER), id), Err(Error::NotFound));
    assert_eq!(c.reject_request(addr(OWNER), addr(OWNER), id), Err(Error::NotFound));
    assert_eq!(c.status_of_request(id), Ok(RequestStatus::Rejected));
}

#[test]
fn reject_for_a_requester_without_any_entry() {
    let mut c = engine();
    let id = c.request_perm(addr(ALICE), cid(1), Permission::Write).unwrap();
    assert_eq!(c.permissions(addr(ALICE), cid(1), addr(OWNER)), Err(Error::NotFound));
    c.reject_request(addr(OWNER), addr(OWNER), id).unwrap();
    assert_eq!(c.permissions(addr(ALICE), cid(1), addr(OWNER)), Err(Error::NotFound));
}

#[test]
fn granting_a_kind_twice_keeps_it_once() {
    let mut c = engine();
    let a = c.request_perm(addr(ALICE), cid(1), Permission::Write).unwrap();
    let b = c.request_perm(addr(ALICE), cid(1), Permission::Write).unwrap();
    assert_ne!(a, b);
    c.approve_perm(addr(OWNER), addr(OWNER), a).unwrap();
    let once = c.permissions(addr(ALICE), cid(1), addr(OWNER)).unwrap();
    c.approve_perm(addr(OWNER), addr(OWNER), b).unwrap();
    let twice = c.permissions(addr(ALICE), cid(1), addr(OWNER)).unwrap();
    assert_eq!(once, vec![Permission::Write]);
    assert_eq!(twice, vec![Permission::Write]);
    // One revocation takes it away entirely.
    c.revoke_perm(addr(OWNER), addr(OWNER), cid(1), addr(ALICE), Permission::Write).unwrap();
    assert_eq!(c.permissions(addr(ALICE), cid(1), addr(OWNER)), Err(Error::NotFound));
}

#[test]
fn granted_kinds_are_listed_in_order() {
    let mut c = engine();
    for p in [Permission::Revoke, Permission::Write, Permission::Reject] {
        let id = c.request_perm(addr(ALICE), cid(1), p).unwrap();
        c.approve_perm(addr(OWNER), addr(OWNER), id).unwrap();
    }
    assert_eq!(
        c.permissions(addr(ALICE), cid(1), addr(OWNER)),
        Ok(vec![Permission::Write, Permission::Reject, Permission::Revoke])
    );
}

#[test]
fn a_grantee_with_approve_can_approve() {
    let mut c = engine();
    let id = c.request_perm(addr(ALICE), cid(1), Permission::Approve).unwrap();
    c.approve_perm(addr(OWNER), addr(OWNER), id).unwrap();
    let id = c.request_perm(addr(BOB), cid(1), Permission::Write).unwrap();
    assert_eq!(c.approve_perm(addr(ALICE), addr(OWNER), id), Ok(()));
    assert_eq!(c.permissions(addr(BOB), cid(1), addr(OWNER)), Ok(vec![Permission::Write]));
}

#[test]
fn approve_without_the_permission_is_forbidden() {
    let mut c = engine();
    let id = c.request_perm(addr(ALICE), cid(1), Permission::Write).unwrap();
    c.approve_perm(addr(OWNER), addr(OWNER), id).unwrap();
    let id = c.request_perm(addr(BOB), cid(1), Permission::Write).unwrap();
    let before = c.clone();
    // Alice holds Write only.
    assert_eq!(c.approve_perm(addr(ALICE), addr(OWNER), id), Err(Error::Forbidden));
    assert_eq!(c.reject_request(addr(ALICE), addr(OWNER), id), Err(Error::Forbidden));
    assert_eq!(
        c.revoke_perm(addr(ALICE), addr(OWNER), cid(1), addr(ALICE), Permission::Write),
        Err(Error::Forbidden)
    );
    // Carol has no entry at all: the lookup itself fails.
    assert_eq!(c.approve_perm(addr(CAROL), addr(OWNER), id), Err(Error::NotFound));
    assert_eq!(c.reject_request(addr(CAROL), addr(OWNER), id), Err(Error::NotFound));
    assert_eq!(
        c.revoke_perm(addr(CAROL), addr(OWNER), cid(1), addr(ALICE), Permission::Write),
        Err(Error::NotFound)
    );
    assert_eq!(c, before);
}

#[test]
fn approve_of_unknown_request_is_not_found() {
    let mut c = engine();
    assert_eq!(c.approve_perm(addr(OWNER), addr(OWNER), ReqIdx(1)), Err(Error::NotFound));
    assert_eq!(
        c.approve_share(addr(OWNER), addr(OWNER), ReqIdx(7), cid(2), key(&[1])),
        Err(Error::NotFound)
    );
    assert_eq!(c.reject_request(addr(OWNER), addr(OWNER), ReqIdx(0)), Err(Error::NotFound));
    assert_eq!(c.pending_request(ReqIdx(1)), Err(Error::NotFound));
}

#[test]
fn approve_with_the_wrong_kind_of_argument() {
    let mut c = engine();
    let perm_id = c.request_perm(addr(ALICE), cid(1), Permission::Write).unwrap();
    let share_id = c.request_share(addr(ALICE), cid(1), key(&[7, 7])).unwrap();
    let before = c.clone();
    assert_eq!(
        c.approve_share(addr(OWNER), addr(OWNER), perm_id, cid(2), key(&[7, 7])),
        Err(Error::InvalidArgument)
    );
    assert_eq!(c.approve_perm(addr(OWNER), addr(OWNER), share_id), Err(Error::InvalidArgument));
    assert_eq!(c, before);
    assert_eq!(c.status_of_request(perm_id), Ok(RequestStatus::Pending));
    assert_eq!(c.status_of_request(share_id), Ok(RequestStatus::Pending));
}

#[test]
fn share_is_approved_when_the_keys_agree() {
    let mut c = engine();
    let id = c.request_share(addr(ALICE), cid(1), key(&[1, 2, 3])).unwrap();
    assert_eq!(
        c.pending_request(id),
        Ok(Request::Share(ShareRequest { user: addr(ALICE), pub_key: key(&[1, 2, 3]), cid: cid(1) }))
    );
    assert_eq!(c.approved_shares(cid(1)), Err(Error::NotFound));
    assert_eq!(c.has_approved_share(cid(2), cid(1)), Err(Error::NotFound));
    assert_eq!(
        c.approve_share(addr(OWNER), addr(OWNER), id, cid(2), key(&[1, 2, 4])),
        Err(Error::KeyMismatch)
    );
    assert_eq!(
        c.approve_share(addr(OWNER), addr(OWNER), id, cid(2), key(&[1, 2])),
        Err(Error::KeyMismatch)
    );
    assert_eq!(c.status_of_request(id), Ok(RequestStatus::Pending));
    assert_eq!(
        c.approve_share(addr(OWNER), addr(OWNER), id, cid(2), key(&[1, 2, 3])),
        Ok(())
    );
    assert_eq!(c.status_of_request(id), Ok(RequestStatus::Approved));
    assert_eq!(c.approved_shares(cid(1)), Ok(vec![cid(2)]));
    assert_eq!(c.has_approved_share(cid(2), cid(1)), Ok(true));
    assert_eq!(c.has_approved_share(cid(3), cid(1)), Ok(false));
    assert_eq!(c.has_approved_share(cid(1), cid(2)), Err(Error::NotFound));
    // No permission came with it.
    assert_eq!(c.permissions(addr(ALICE), cid(1), addr(OWNER)), Err(Error::NotFound));
}

#[test]
fn a_target_is_shared_once_across_all_sources() {
    let mut c = engine();
    let a = c.request_share(addr(ALICE), cid(1), key(&[9])).unwrap();
    let b = c.request_share(addr(BOB), cid(5), key(&[9])).unwrap();
    let d = c.request_share(addr(BOB), cid(1), key(&[9])).unwrap();
    assert_eq!(c.approve_share(addr(OWNER), addr(OWNER), a, cid(2), key(&[9])), Ok(()));
    // Under another source.
    assert_eq!(
        c.approve_share(addr(OWNER), addr(OWNER), b, cid(2), key(&[9])),
        Err(Error::AlreadyApproved)
    );
    // Under the same source.
    assert_eq!(
        c.approve_share(addr(OWNER), addr(OWNER), d, cid(2), key(&[9])),
        Err(Error::AlreadyApproved)
    );
    // The check on the target comes before the check on the key.
    assert_eq!(
        c.approve_share(addr(OWNER), addr(OWNER), b, cid(2), key(&[8])),
        Err(Error::AlreadyApproved)
    );
    assert_eq!(c.status_of_request(b), Ok(RequestStatus::Pending));
    // A source of shares may itself become a target.
    assert_eq!(c.approve_share(addr(OWNER), addr(OWNER), b, cid(1), key(&[9])), Ok(()));
    assert_eq!(c.approved_shares(cid(5)), Ok(vec![cid(1)]));
    assert_eq!(c.approved_shares(cid(1)), Ok(vec![cid(2)]));
}

#[test]
fn approved_shares_are_listed_in_ascending_order() {
    let mut c = engine();
    for target in [30u8, 10, 40, 20] {
        let id = c.request_share(addr(ALICE), cid(1), key(&[1])).unwrap();
        c.approve_share(addr(OWNER), addr(OWNER), id, cid(target), key(&[1])).unwrap();
    }
    assert_eq!(c.approved_shares(cid(1)), Ok(vec![cid(10), cid(20), cid(30), cid(40)]));
    let mut low = [0u8; 20];
    low[19] = 1;
    let mut high = [0u8; 20];
    high[0] = 1;
    let id = c.request_share(addr(ALICE), cid(2), key(&[1])).unwrap();
    c.approve_share(addr(OWNER), addr(OWNER), id, Cid(Address(high)), key(&[1])).unwrap();
    let id = c.request_share(addr(ALICE), cid(2), key(&[1])).unwrap();
    c.approve_share(addr(OWNER), addr(OWNER), id, Cid(Address(low)), key(&[1])).unwrap();
    assert_eq!(c.approved_shares(cid(2)), Ok(vec![Cid(Address(low)), Cid(Address(high))]));
}

#[test]
fn denied_resource_takes_no_request() {
    let mut c = engine();
    assert!(!c.cid_is_denied(&cid(1)));
    assert_eq!(c.deny_cid(addr(ADMIN), cid(1)), Ok(()));
    assert!(c.cid_is_denied(&cid(1)));
    assert!(!c.cid_is_denied(&cid(2)));
    let before = c.clone();
    assert_eq!(
        c.request_perm(addr(ALICE), cid(1), Permission::Write),
        Err(Error::DeniedResource)
    );
    assert_eq!(c.request_share(addr(ALICE), cid(1), key(&[1])), Err(Error::DeniedResource));
    assert_eq!(c, before);
    assert_eq!(c.request_perm(addr(ALICE), cid(2), Permission::Write), Ok(ReqIdx(1)));
}

#[test]
fn denied_key_takes_no_share_request() {
    let mut c = engine();
    assert!(!c.pubkey_is_denied(&key(&[5, 5])));
    assert_eq!(c.deny_pubkey(addr(ADMIN), key(&[5, 5])), Ok(()));
    assert!(c.pubkey_is_denied(&key(&[5, 5])));
    assert!(!c.pubkey_is_denied(&key(&[5])));
    assert!(!c.pubkey_is_denied(&key(&[])));
    assert_eq!(c.request_share(addr(ALICE), cid(1), key(&[5, 5])), Err(Error::DeniedKey));
    assert_eq!(c.request_share(addr(ALICE), cid(1), key(&[5])), Ok(ReqIdx(1)));
    // The resource is looked at first.
    c.deny_cid(addr(ADMIN), cid(3)).unwrap();
    assert_eq!(c.request_share(addr(ALICE), cid(3), key(&[5, 5])), Err(Error::DeniedResource));
}

#[test]
fn deny_lists_are_for_the_administrator() {
    let mut c = engine();
    let before = c.clone();
    assert_eq!(c.deny_cid(addr(ALICE), cid(1)), Err(Error::Forbidden));
    assert_eq!(c.deny_pubkey(addr(OWNER), key(&[1])), Err(Error::Forbidden));
    assert_eq!(c, before);
    assert!(!c.cid_is_denied(&cid(1)));
    assert!(!c.pubkey_is_denied(&key(&[1])));
}

#[test]
fn denying_twice_is_denying_once() {
    let mut c = engine();
    c.deny_cid(addr(ADMIN), cid(1)).unwrap();
    c.deny_pubkey(addr(ADMIN), key(&[1])).unwrap();
    let once = c.clone();
    assert_eq!(c.deny_cid(addr(ADMIN), cid(1)), Ok(()));
    assert_eq!(c.deny_pubkey(addr(ADMIN), key(&[1])), Ok(()));
    assert_eq!(c, once);
}

#[test]
fn late_denial_blocks_approval_but_not_rejection() {
    let mut c = engine();
    let id = c.request_share(addr(ALICE), cid(1), key(&[4])).unwrap();
    c.deny_cid(addr(ADMIN), cid(1)).unwrap();
    assert_eq!(
        c.approve_share(addr(OWNER), addr(OWNER), id, cid(2), key(&[4])),
        Err(Error::DeniedResource)
    );
    assert_eq!(c.status_of_request(id), Ok(RequestStatus::Pending));
    assert_eq!(c.reject_request(addr(OWNER), addr(OWNER), id), Ok(()));
    assert_eq!(c.status_of_request(id), Ok(RequestStatus::Rejected));
}

#[test]
fn late_denial_of_the_key_blocks_approval() {
    let mut c = engine();
    let id = c.request_share(addr(ALICE), cid(1), key(&[4])).unwrap();
    let pid = c.request_perm(addr(ALICE), cid(1), Permission::Write).unwrap();
    c.deny_pubkey(addr(ADMIN), key(&[4])).unwrap();
    assert_eq!(
        c.approve_share(addr(OWNER), addr(OWNER), id, cid(2), key(&[4])),
        Err(Error::DeniedKey)
    );
    // The denial comes before the question of who asks.
    assert_eq!(
        c.approve_share(addr(CAROL), addr(OWNER), id, cid(2), key(&[4])),
        Err(Error::DeniedKey)
    );
    // A permission request declares no key.
    assert_eq!(c.approve_perm(addr(OWNER), addr(OWNER), pid), Ok(()));
    assert_eq!(c.reject_request(addr(OWNER), addr(OWNER), id), Ok(()));
}

#[test]
fn revoke_ignores_the_deny_list() {
    let mut c = engine();
    let id = c.request_perm(addr(ALICE), cid(1), Permission::Write).unwrap();
    c.approve_perm(addr(OWNER), addr(OWNER), id).unwrap();
    c.deny_cid(addr(ADMIN), cid(1)).unwrap();
    assert_eq!(
        c.revoke_perm(addr(OWNER), addr(OWNER), cid(1), addr(ALICE), Permission::Write),
        Ok(())
    );
}

#[test]
fn revoke_what_is_not_there() {
    let mut c = engine();
    assert_eq!(
        c.revoke_perm(addr(OWNER), addr(OWNER), cid(1), addr(ALICE), Permission::Write),
        Err(Error::NotFound)
    );
    let id = c.request_perm(addr(ALICE), cid(1), Permission::Write).unwrap();
    c.approve_perm(addr(OWNER), addr(OWNER), id).unwrap();
    let before = c.clone();
    assert_eq!(
        c.revoke_perm(addr(OWNER), addr(OWNER), cid(1), addr(BOB), Permission::Write),
        Err(Error::NotFound)
    );
    assert_eq!(
        c.revoke_perm(addr(OWNER), addr(OWNER), cid(1), addr(ALICE), Permission::Remove),
        Err(Error::PermissionNotHeld)
    );
    assert_eq!(c, before);
}

#[test]
fn revoking_the_last_kind_removes_entry_and_row() {
    let mut c = engine();
    for (user, perm) in [
        (ALICE, Permission::Write),
        (ALICE, Permission::Remove),
        (BOB, Permission::Write),
    ] {
        let id = c.request_perm(addr(user), cid(1), perm).unwrap();
        c.approve_perm(addr(OWNER), addr(OWNER), id).unwrap();
    }
    c.revoke_perm(addr(OWNER), addr(OWNER), cid(1), addr(ALICE), Permission::Write).unwrap();
    assert_eq!(c.permissions(addr(ALICE), cid(1), addr(OWNER)), Ok(vec![Permission::Remove]));
    c.revoke_perm(addr(OWNER), addr(OWNER), cid(1), addr(ALICE), Permission::Remove).unwrap();
    assert_eq!(c.permissions(addr(ALICE), cid(1), addr(OWNER)), Err(Error::NotFound));
    assert_eq!(c.permissions(addr(BOB), cid(1), addr(OWNER)), Ok(vec![Permission::Write]));
    c.revoke_perm(addr(OWNER), addr(OWNER), cid(1), addr(BOB), Permission::Write).unwrap();
    assert_eq!(c.permissions(addr(BOB), cid(1), addr(OWNER)), Err(Error::NotFound));
    // With every grant revoked the ledger is as it was at the start.
    let mut fresh = engine();
    for (user, perm) in [
        (ALICE, Permission::Write),
        (ALICE, Permission::Remove),
        (BOB, Permission::Write),
    ] {
        let id = fresh.request_perm(addr(user), cid(1), perm).unwrap();
        fresh.reject_request(addr(OWNER), addr(OWNER), id).unwrap();
    }
    assert_eq!(c.permissions(addr(ALICE), cid(1), addr(ALICE)), fresh.permissions(addr(ALICE), cid(1), addr(ALICE)));
}

#[test]
fn a_grantee_with_revoke_can_revoke_from_itself() {
    let mut c = engine();
    let id = c.request_perm(addr(ALICE), cid(1), Permission::Revoke).unwrap();
    c.approve_perm(addr(OWNER), addr(OWNER), id).unwrap();
    assert_eq!(
        c.revoke_perm(addr(ALICE), addr(OWNER), cid(1), addr(ALICE), Permission::Revoke),
        Ok(())
    );
    assert_eq!(
        c.revoke_perm(addr(ALICE), addr(OWNER), cid(1), addr(ALICE), Permission::Revoke),
        Err(Error::NotFound)
    );
}

#[test]
fn pending_requests_are_listed_by_number() {
    let mut c = engine();
    let a = c.request_perm(addr(ALICE), cid(1), Permission::Write).unwrap();
    let b = c.request_share(addr(BOB), cid(1), key(&[3])).unwrap();
    let d = c.request_perm(addr(ALICE), cid(2), Permission::Remove).unwrap();
    let e = c.request_perm(addr(BOB), cid(2), Permission::Write).unwrap();
    let f = c.request_perm(addr(ALICE), cid(1), Permission::Revoke).unwrap();
    c.reject_request(addr(OWNER), addr(OWNER), a).unwrap();
    let by_cid: Vec<u64> = c.pending_requests_by_cid(cid(1)).iter().map(|p| p.req_idx.0).collect();
    assert_eq!(by_cid, vec![b.0, f.0]);
    let by_user: Vec<u64> =
        c.pending_requests_by_user(addr(ALICE)).iter().map(|p| p.req_idx.0).collect();
    assert_eq!(by_user, vec![d.0, f.0]);
    let bobs = c.pending_requests_by_user(addr(BOB));
    assert_eq!(
        bobs,
        vec![
            PendingRequest {
                req_idx: b,
                req: Request::Share(ShareRequest {
                    user: addr(BOB),
                    pub_key: key(&[3]),
                    cid: cid(1),
                }),
            },
            PendingRequest {
                req_idx: e,
                req: Request::Permission(PermissionRequest {
                    user: addr(BOB),
                    cid: cid(2),
                    perm: Permission::Write,
                }),
            },
        ]
    );
    assert!(c.pending_requests_by_cid(cid(3)).is_empty());
    assert!(c.pending_requests_by_user(addr(CAROL)).is_empty());
}

#[test]
fn request_accessors() {
    let p = Request::Permission(PermissionRequest {
        user: addr(ALICE),
        cid: cid(1),
        perm: Permission::Write,
    });
    let s = Request::Share(ShareRequest { user: addr(BOB), pub_key: key(&[1]), cid: cid(2) });
    assert_eq!(*p.cid(), cid(1));
    assert_eq!(*p.user(), addr(ALICE));
    assert_eq!(*s.cid(), cid(2));
    assert_eq!(*s.user(), addr(BOB));
    assert_eq!(s.duplicate(), s);
    assert_eq!(p.duplicate(), p);
}

#[test]
fn every_failure_has_its_message() {
    let all = [
        Error::NotFound,
        Error::Forbidden,
        Error::DeniedResource,
        Error::DeniedKey,
        Error::AlreadyApproved,
        Error::KeyMismatch,
        Error::InvalidArgument,
        Error::PermissionNotHeld,
        Error::AlreadyInitialized,
        Error::NotInitialized,
    ];
    for (i, a) in all.iter().enumerate() {
        assert!(!a.message().is_empty());
        for b in &all[i + 1..] {
            assert_ne!(a.message(), b.message());
        }
    }
    assert_eq!(Error::DeniedResource.message(), "The cid is denied");
    assert_eq!(Error::KeyMismatch.message(), "The public keys don't match");
    assert_eq!(Error::NotInitialized.message(), "The contract isn't initialized");
}

#[test]
fn an_engine_put_together_from_parts_is_checked() {
    let mut c = engine();
    assert!(c.is_wf());
    let a = c.request_perm(addr(ALICE), cid(1), Permission::Write).unwrap();
    let b = c.request_share(addr(BOB), cid(1), key(&[1])).unwrap();
    let d = c.request_perm(addr(BOB), cid(2), Permission::Remove).unwrap();
    c.approve_perm(addr(OWNER), addr(OWNER), a).unwrap();
    c.approve_share(addr(OWNER), addr(OWNER), b, cid(5), key(&[1])).unwrap();
    assert!(c.is_wf());
    let good = c.clone();

    // A pending request whose status is final.
    let mut bad = good.clone();
    bad.queue.status[(d.0 - 1) as usize] = RequestStatus::Rejected;
    assert!(!bad.is_wf());
    // A pending status without a request in the queue.
    let mut bad = good.clone();
    bad.queue.pending.clear();
    assert!(!bad.is_wf());
    // A counter that is ahead of the registry.
    let mut bad = good.clone();
    bad.queue.counter += 1;
    assert!(!bad.is_wf());
    // A request in the queue twice.
    let mut bad = good.clone();
    let again = bad.queue.pending[0].clone();
    bad.queue.pending.push(again);
    assert!(!bad.is_wf());
    // An entry of the ledger without a kind.
    let mut bad = good.clone();
    bad.ledger.rows[0].users[0].perms.write = false;
    assert!(!bad.is_wf());
    // A row of the ledger without an entry.
    let mut bad = good.clone();
    bad.ledger.rows[0].users.clear();
    assert!(!bad.is_wf());
    // A resource with two rows.
    let mut bad = good.clone();
    let row = bad.ledger.rows[0].clone();
    bad.ledger.rows.push(row);
    assert!(!bad.is_wf());
    // A target under two sources.
    let mut bad = good.clone();
    let mut row = bad.shares.rows[0].clone();
    row.cid = cid(9);
    bad.shares.rows.push(row);
    assert!(!bad.is_wf());
    // Targets out of order.
    let mut bad = good.clone();
    bad.shares.rows[0].targets.insert(0, cid(6));
    assert!(!bad.is_wf());
    // A source without a target.
    let mut bad = good.clone();
    bad.shares.rows[0].targets.clear();
    assert!(!bad.is_wf());

    assert!(good.is_wf());
}

#[test]
fn approval_is_checked_before_the_outside_is_asked() {
    let mut c = engine();
    let perm_id = c.request_perm(addr(ALICE), cid(1), Permission::Write).unwrap();
    let share_id = c.request_share(addr(ALICE), cid(2), key(&[1])).unwrap();
    let claimed = c.request_share(addr(ALICE), cid(3), key(&[1])).unwrap();
    c.approve_share(addr(OWNER), addr(OWNER), claimed, cid(30), key(&[1])).unwrap();
    let denied = c.request_share(addr(ALICE), cid(4), key(&[4])).unwrap();
    c.deny_pubkey(addr(ADMIN), key(&[4])).unwrap();
    let before = c.clone();

    assert_eq!(c.approval_resource(perm_id), Ok(cid(1)));
    assert_eq!(c.approval_resource(share_id), Ok(cid(2)));
    assert_eq!(c.approval_resource(claimed), Err(Error::NotFound));
    assert_eq!(c.approval_resource(ReqIdx(99)), Err(Error::NotFound));
    assert_eq!(c.approval_resource(denied), Err(Error::DeniedKey));

    let needs = |c: &Contract, caller: u8, id: ReqIdx, target: Option<Cid>| {
        c.approval_needs_key(addr(caller), addr(OWNER), id, target)
    };
    assert_eq!(needs(&c, OWNER, perm_id, None), Ok(false));
    assert_eq!(needs(&c, OWNER, perm_id, Some(cid(9))), Err(Error::InvalidArgument));
    assert_eq!(needs(&c, OWNER, share_id, Some(cid(9))), Ok(true));
    assert_eq!(needs(&c, OWNER, share_id, None), Err(Error::InvalidArgument));
    assert_eq!(needs(&c, OWNER, share_id, Some(cid(30))), Err(Error::AlreadyApproved));
    assert_eq!(needs(&c, CAROL, share_id, Some(cid(9))), Err(Error::NotFound));
    assert_eq!(needs(&c, OWNER, denied, Some(cid(9))), Err(Error::DeniedKey));
    assert_eq!(needs(&c, OWNER, ReqIdx(99), None), Err(Error::NotFound));
    assert_eq!(c, before);

    // What the checks say is what the approval does.
    assert_eq!(
        c.approve_share(addr(OWNER), addr(OWNER), share_id, cid(30), key(&[1])),
        Err(Error::AlreadyApproved)
    );
    assert_eq!(
        c.approve_share(addr(OWNER), addr(OWNER), share_id, cid(9), key(&[2])),
        Err(Error::KeyMismatch)
    );
    assert_eq!(c.approve_share(addr(OWNER), addr(OWNER), share_id, cid(9), key(&[1])), Ok(()));
    assert_eq!(c.approve_perm(addr(OWNER), addr(OWNER), perm_id), Ok(()));
}
