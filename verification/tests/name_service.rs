use avdr_contracts::name_service::{
    is_root_form, Contract, Metadata, Name, NameError, TransferApproval,
};
use avdr_contracts::string_set::{text_before, StringSet};
use avdr_contracts::types::Address;

fn addr(n: u8) -> Address {
    Address([n; 20])
}

fn s(text: &str) -> String {
    text.to_string()
}

const OWNER: u8 = 90;

fn service() -> Contract {
    Contract::new(
        addr(OWNER),
        addr(OWNER),
        false,
        Metadata { name: s("L1x Name Service"), description: None },
    )
    .unwrap()
}

fn record(name: &str, resolver: u8, owner: u8) -> Name {
    Name { name: s(name), resolver: addr(resolver), owner: addr(owner) }
}

#[test]
fn root_form_is_a_name_a_dot_and_l1x() {
    for good in ["a.l1x", "alice.l1x", ".l1x", "a-b_c.l1x", "ä.l1x"] {
        assert!(is_root_form(&s(good)), "{}", good);
    }
    for bad in ["", "l1x", "a.l1", "a.l1xx", "a.b.l1x", "a.l1x.", "al1x", "a.L1X", "a.l1x ", "..l1x", "a,l1x"] {
        assert!(!is_root_form(&s(bad)), "{}", bad);
    }
}

#[test]
fn names_are_checked_in_lowercase() {
    assert!(Name::is_valid(&s("alice.l1x")));
    assert!(Name::is_valid(&s("Alice.L1X")));
    assert!(Name::is_valid(&s("ALICE.l1X")));
    assert!(!Name::is_valid(&s("alice.l2x")));
    assert!(!Name::is_valid(&s("alice")));
    assert_eq!(Name::check(&s("alice.l1x")), None);
    assert_eq!(Name::check(&s("Alice.L1x")), None);
    assert_eq!(Name::check(&s("alice.com")), Some(NameError::InvalidName));
    // Twenty bytes are the most.
    assert_eq!(Name::check(&s("abcdefghijklmnop.l1x")), None);
    assert_eq!(Name::check(&s("abcdefghijklmnopq.l1x")), Some(NameError::NameTooLong));
    assert_eq!(Name::check(&s("abcdefghijklmnopqrstuvwxyz")), Some(NameError::NameTooLong));
    // The length is counted in bytes.
    assert_eq!(Name::check(&s("ääääääää.l1x")), None);
    assert_eq!(Name::check(&s("äääääääää.l1x")), Some(NameError::NameTooLong));
}

#[test]
fn strings_are_ordered_by_their_bytes() {
    assert!(text_before(&s("a"), &s("b")));
    assert!(text_before(&s("a"), &s("ab")));
    assert!(text_before(&s(""), &s("a")));
    assert!(text_before(&s("B"), &s("a")));
    assert!(text_before(&s("ab"), &s("b")));
    assert!(text_before(&s("z"), &s("ä")));
    assert!(!text_before(&s("a"), &s("a")));
    assert!(!text_before(&s("b"), &s("a")));
    assert!(!text_before(&s("ab"), &s("a")));
    assert!(!text_before(&s(""), &s("")));
}

#[test]
fn string_set_keeps_order_and_no_duplicates() {
    let mut set = StringSet::new();
    assert!(set.insert(s("m")));
    assert!(set.insert(s("b")));
    assert!(!set.insert(s("m")));
    assert!(set.insert(s("ba")));
    assert!(set.insert(s("")));
    assert_eq!(set.to_vec(), vec![s(""), s("b"), s("ba"), s("m")]);
    assert!(set.is_wf());
    assert!(set.contains(&s("ba")));
    assert!(!set.contains(&s("a")));
    assert!(!set.remove(&s("a")));
    assert!(set.remove(&s("b")));
    assert_eq!(set.to_vec(), vec![s(""), s("ba"), s("m")]);
    assert!(!StringSet { items: vec![s("b"), s("a")] }.is_wf());
    assert!(!StringSet { items: vec![s("a"), s("a")] }.is_wf());
}

#[test]
fn name_service_is_set_up_by_the_owner_once() {
    let m = || Metadata { name: s("L1x Name Service"), description: None };
    assert_eq!(Contract::new(addr(1), addr(OWNER), false, m()), Err(NameError::NotContractOwner));
    assert_eq!(Contract::new(addr(OWNER), addr(OWNER), true, m()), Err(NameError::AlreadyInitialized));
    assert_eq!(Contract::load(None), Err(NameError::NotInitialized));
    let c = service();
    assert_eq!(c.name(), "L1x Name Service");
    assert_eq!(c.metadata(), m());
    assert!(c.names.is_empty());
    assert!(c.list_denied_names().is_empty());
    assert!(c.list_admins().is_empty());
}

#[test]
fn names_are_registered_once() {
    let mut c = service();
    assert_eq!(c.register_root_name(addr(1), s("alice.l1x"), None), Ok(()));
    assert_eq!(c.register_root_name(addr(2), s("bob.l1x"), Some(addr(7))), Ok(()));
    let before = c.clone();
    assert_eq!(
        c.register_root_name(addr(3), s("alice.l1x"), None),
        Err(NameError::AlreadyRegistered)
    );
    assert_eq!(c.register_root_name(addr(3), s("alice"), None), Err(NameError::InvalidName));
    assert_eq!(
        c.register_root_name(addr(3), s("a-very-long-name-indeed.l1x"), None),
        Err(NameError::NameTooLong)
    );
    assert_eq!(c, before);
    // Names are kept as they are written.
    assert_eq!(c.register_root_name(addr(3), s("Alice.l1x"), None), Ok(()));
    assert_eq!(c.resolve_name(&s("alice.l1x")), Ok(addr(1)));
    assert_eq!(c.resolve_name(&s("bob.l1x")), Ok(addr(7)));
    assert_eq!(c.resolve_name(&s("Alice.l1x")), Ok(addr(3)));
    assert_eq!(c.resolve_name(&s("carol.l1x")), Err(NameError::NameNotFound));
    assert_eq!(c.owner_of(&s("bob.l1x")), Ok(addr(2)));
    assert_eq!(c.owner_of(&s("carol.l1x")), Err(NameError::NameNotFound));
    assert_eq!(c.list_owned_names(addr(2)), vec![record("bob.l1x", 7, 2)]);
    assert!(c.list_owned_names(addr(9)).is_empty());
}

#[test]
fn the_owner_of_a_name_changes_its_resolver() {
    let mut c = service();
    c.register_root_name(addr(1), s("alice.l1x"), None).unwrap();
    let before = c.clone();
    assert_eq!(c.change_name_resolver(addr(2), &s("alice.l1x"), addr(5)), Err(NameError::NotOwned));
    assert_eq!(c.change_name_resolver(addr(1), &s("bob.l1x"), addr(5)), Err(NameError::NotOwned));
    assert_eq!(c.change_name_resolver(addr(1), &s("alice"), addr(5)), Err(NameError::InvalidName));
    assert_eq!(c, before);
    assert_eq!(c.change_name_resolver(addr(1), &s("alice.l1x"), addr(5)), Ok(()));
    assert_eq!(c.resolve_name(&s("alice.l1x")), Ok(addr(5)));
    assert_eq!(c.list_owned_names(addr(1)), vec![record("alice.l1x", 5, 1)]);
}

#[test]
fn a_name_is_transferred_by_its_owner_or_operator() {
    let mut c = service();
    c.register_root_name(addr(1), s("a.l1x"), None).unwrap();
    c.register_root_name(addr(1), s("b.l1x"), None).unwrap();
    c.register_root_name(addr(2), s("c.l1x"), None).unwrap();
    let before = c.clone();
    assert_eq!(c.transfer_name(addr(2), &s("a.l1x"), addr(2)), Err(NameError::NotOwned));
    assert_eq!(c.transfer_name(addr(1), &s("z.l1x"), addr(2)), Err(NameError::NotOwned));
    assert_eq!(c.transfer_name(addr(1), &s("a.l2x"), addr(2)), Err(NameError::InvalidName));
    assert_eq!(c, before);
    assert_eq!(c.transfer_name(addr(1), &s("a.l1x"), addr(2)), Ok(()));
    assert_eq!(c.owner_of(&s("a.l1x")), Ok(addr(2)));
    assert_eq!(c.resolve_name(&s("a.l1x")), Ok(addr(1)));
    assert_eq!(c.list_owned_names(addr(1)), vec![record("b.l1x", 1, 1)]);
    assert_eq!(c.list_owned_names(addr(2)), vec![record("c.l1x", 2, 2), record("a.l1x", 1, 2)]);
    // To oneself: the name becomes the last of one's names.
    assert_eq!(c.transfer_name(addr(2), &s("c.l1x"), addr(2)), Ok(()));
    assert_eq!(c.list_owned_names(addr(2)), vec![record("a.l1x", 1, 2), record("c.l1x", 2, 2)]);
    // By an operator, whose approval is used up.
    assert_eq!(c.approve_transfer(addr(2), s("a.l1x"), addr(8)), Ok(()));
    assert_eq!(c.list_transfer_approvals(s("a.l1x")), vec![(s("a.l1x"), addr(8))]);
    assert_eq!(c.transfer_name(addr(8), &s("a.l1x"), addr(3)), Ok(()));
    assert_eq!(c.owner_of(&s("a.l1x")), Ok(addr(3)));
    assert!(c.list_transfer_approvals(s("a.l1x")).is_empty());
    assert_eq!(c.transfer_name(addr(8), &s("a.l1x"), addr(4)), Err(NameError::NotOwned));
}

#[test]
fn an_approval_outlives_a_transfer_by_the_owner() {
    let mut c = service();
    c.register_root_name(addr(1), s("a.l1x"), None).unwrap();
    c.approve_transfer(addr(1), s("a.l1x"), addr(8)).unwrap();
    c.approve_transfer(addr(1), s("a.l1x"), addr(9)).unwrap();
    assert_eq!(
        c.approved_transfers,
        vec![TransferApproval { name: s("a.l1x"), operator: addr(9) }]
    );
    assert_eq!(c.transfer_name(addr(1), &s("a.l1x"), addr(2)), Ok(()));
    assert_eq!(c.list_transfer_approvals(s("a.l1x")), vec![(s("a.l1x"), addr(9))]);
    assert_eq!(c.transfer_name(addr(9), &s("a.l1x"), addr(9)), Ok(()));
    assert_eq!(c.owner_of(&s("a.l1x")), Ok(addr(9)));
}

#[test]
fn approvals_are_given_and_taken_back_by_the_owner() {
    let mut c = service();
    c.register_root_name(addr(1), s("a.l1x"), None).unwrap();
    let before = c.clone();
    assert_eq!(c.approve_transfer(addr(2), s("a.l1x"), addr(8)), Err(NameError::NotOwned));
    assert_eq!(c.approve_transfer(addr(1), s("b.l1x"), addr(8)), Err(NameError::NotOwned));
    assert_eq!(c.approve_transfer(addr(1), s("b"), addr(8)), Err(NameError::InvalidName));
    assert_eq!(
        c.remove_all_transfer_approvals(addr(1), &s("a.l1x")),
        Err(NameError::NoTransferApproval)
    );
    assert_eq!(c.remove_all_transfer_approvals(addr(1), &s("b.l1x")), Err(NameError::NameNotFound));
    assert_eq!(c.remove_all_transfer_approvals(addr(2), &s("a.l1x")), Err(NameError::NotNameOwner));
    assert_eq!(c, before);
    assert_eq!(c.approve_transfer(addr(1), s("a.l1x"), addr(8)), Ok(()));
    assert_eq!(c.remove_all_transfer_approvals(addr(2), &s("a.l1x")), Err(NameError::NotNameOwner));
    assert_eq!(c.remove_all_transfer_approvals(addr(1), &s("a.l1x")), Ok(()));
    assert!(c.list_transfer_approvals(s("a.l1x")).is_empty());
    assert_eq!(c.transfer_name(addr(8), &s("a.l1x"), addr(8)), Err(NameError::NotOwned));
}

#[test]
fn a_denied_name_loses_its_registration() {
    let mut c = service();
    c.register_root_name(addr(1), s("a.l1x"), None).unwrap();
    c.register_root_name(addr(1), s("b.l1x"), None).unwrap();
    c.approve_transfer(addr(1), s("a.l1x"), addr(8)).unwrap();
    c.add_admin(addr(OWNER), addr(OWNER), addr(70)).unwrap();
    let before = c.clone();
    assert_eq!(
        c.deny_name(addr(1), addr(OWNER), s("a.l1x")),
        Err(NameError::NotOwnerOrAdministrator)
    );
    assert_eq!(c.deny_name(addr(OWNER), addr(OWNER), s("z.l1x")), Err(NameError::NameNotFound));
    assert_eq!(c.deny_name(addr(OWNER), addr(OWNER), s("z")), Err(NameError::InvalidName));
    assert_eq!(c, before);
    assert_eq!(c.deny_name(addr(70), addr(OWNER), s("b.l1x")), Ok(()));
    assert_eq!(c.deny_name(addr(OWNER), addr(OWNER), s("a.l1x")), Ok(()));
    assert_eq!(c.deny_name(addr(OWNER), addr(OWNER), s("a.l1x")), Err(NameError::NameDenied));
    assert_eq!(c.list_denied_names(), vec![s("a.l1x"), s("b.l1x")]);
    assert_eq!(c.owner_of(&s("a.l1x")), Err(NameError::NameNotFound));
    assert!(c.list_owned_names(addr(1)).is_empty());
    assert!(c.list_transfer_approvals(s("a.l1x")).is_empty());
    assert_eq!(c.register_root_name(addr(2), s("a.l1x"), None), Err(NameError::NameDenied));
    assert_eq!(c.approve_transfer(addr(1), s("a.l1x"), addr(8)), Err(NameError::NameDenied));
    assert_eq!(
        c.allow_name(addr(1), addr(OWNER), &s("a.l1x")),
        Err(NameError::NotOwnerOrAdministrator)
    );
    assert_eq!(c.allow_name(addr(70), addr(OWNER), &s("a.l1")), Err(NameError::InvalidName));
    assert_eq!(c.allow_name(addr(70), addr(OWNER), &s("a.l1x")), Ok(()));
    assert_eq!(c.allow_name(addr(70), addr(OWNER), &s("a.l1x")), Ok(()));
    assert_eq!(c.list_denied_names(), vec![s("b.l1x")]);
    assert_eq!(c.register_root_name(addr(2), s("a.l1x"), None), Ok(()));
    assert_eq!(c.owner_of(&s("a.l1x")), Ok(addr(2)));
}

#[test]
fn administrators_of_the_name_service() {
    let mut c = service();
    assert_eq!(c.add_admin(addr(1), addr(OWNER), addr(1)), Err(NameError::NotContractOwner));
    assert_eq!(c.add_admin(addr(OWNER), addr(OWNER), addr(5)), Ok(()));
    assert_eq!(c.add_admin(addr(OWNER), addr(OWNER), addr(5)), Err(NameError::AlreadyAdministrator));
    assert_eq!(c.add_admin(addr(OWNER), addr(OWNER), addr(3)), Ok(()));
    assert_eq!(c.list_admins(), vec![addr(3), addr(5)]);
    assert!(c.is_owner_or_admin(&addr(3), &addr(OWNER)));
    assert!(c.is_owner_or_admin(&addr(OWNER), &addr(OWNER)));
    assert!(!c.is_owner_or_admin(&addr(4), &addr(OWNER)));
    assert_eq!(c.remove_admin(addr(3), addr(OWNER), addr(5)), Err(NameError::NotContractOwner));
    assert_eq!(c.remove_admin(addr(OWNER), addr(OWNER), addr(5)), Ok(()));
    assert_eq!(c.remove_admin(addr(OWNER), addr(OWNER), addr(5)), Ok(()));
    assert_eq!(c.list_admins(), vec![addr(3)]);
}

#[test]
fn a_stored_name_service_is_checked() {
    let mut c = service();
    c.register_root_name(addr(1), s("a.l1x"), None).unwrap();
    c.register_root_name(addr(1), s("b.l1x"), None).unwrap();
    c.register_root_name(addr(1), s("c.l1x"), None).unwrap();
    c.approve_transfer(addr(1), s("a.l1x"), addr(8)).unwrap();
    c.deny_name(addr(OWNER), addr(OWNER), s("c.l1x")).unwrap();
    assert!(c.is_wf());
    // A name registered twice.
    let mut bad = c.clone();
    let again = bad.names[0].clone();
    bad.names.push(again);
    assert!(!bad.is_wf());
    // A denied name that is registered.
    let mut bad = c.clone();
    bad.names.push(record("c.l1x", 1, 1));
    assert!(!bad.is_wf());
    // An approval for a name that is not registered.
    let mut bad = c.clone();
    bad.approved_transfers.push(TransferApproval { name: s("z.l1x"), operator: addr(8) });
    assert!(!bad.is_wf());
    // Two approvals for one name.
    let mut bad = c.clone();
    bad.approved_transfers.push(TransferApproval { name: s("a.l1x"), operator: addr(9) });
    assert!(!bad.is_wf());
    // Denied names out of order.
    let mut bad = c.clone();
    bad.denied_names.items.push(s("a-denied.l1x"));
    assert!(!bad.is_wf());
    // Administrators out of order.
    let mut bad = c.clone();
    bad.administrators.items = vec![addr(2), addr(2)];
    assert!(!bad.is_wf());
}
