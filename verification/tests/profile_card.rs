use avdr_contracts::profile_card::{
    Contract, DomainName, Metadata, Nft, NftTransfer, ProfileError,
};
use avdr_contracts::types::Address;

fn addr(n: u8) -> Address {
    Address([n; 20])
}

fn s(text: &str) -> String {
    text.to_string()
}

const OWNER: u8 = 20;
const INSTANCE: u8 = 21;
const LEDGER: u8 = 22;

fn nft(id: u128) -> Nft {
    Nft { address: addr(LEDGER), id }
}

fn card() -> Contract {
    Contract::new(addr(OWNER), addr(OWNER), false, Metadata { name: s("me"), description: None })
        .unwrap()
}

fn add(c: &mut Contract, name: &str, id: u128, provatar: Option<(Nft, Address)>) -> Result<Vec<NftTransfer>, ProfileError> {
    c.add_name(addr(OWNER), addr(OWNER), addr(INSTANCE), nft(id), addr(OWNER), s(name), provatar)
}

#[test]
fn profile_card_is_set_up_once_by_the_owner() {
    let m = || Metadata { name: s("me"), description: None };
    assert_eq!(Contract::new(addr(1), addr(OWNER), true, m()), Err(ProfileError::AlreadyInitialized));
    assert_eq!(Contract::new(addr(OWNER), addr(OWNER), true, m()), Err(ProfileError::AlreadyInitialized));
    assert_eq!(Contract::new(addr(1), addr(OWNER), false, m()), Err(ProfileError::NotContractOwner));
    assert_eq!(Contract::load(None), Err(ProfileError::NotInitialized));
    assert!(card().list_names().is_empty());
}

#[test]
fn names_are_added_with_their_tokens() {
    let mut c = card();
    let before = c.clone();
    assert_eq!(
        c.add_name(addr(1), addr(OWNER), addr(INSTANCE), nft(1), addr(1), s("a.l1x"), None),
        Err(ProfileError::NotContractOwner)
    );
    assert_eq!(
        c.add_name(addr(OWNER), addr(OWNER), addr(INSTANCE), nft(1), addr(1), s("a.l1x"), None),
        Err(ProfileError::NotNameNftOwner)
    );
    assert_eq!(
        add(&mut c, "a.l1x", 1, Some((nft(9), addr(1)))),
        Err(ProfileError::NotProvatarNftOwner)
    );
    assert_eq!(c, before);
    assert_eq!(
        add(&mut c, "m.l1x", 1, None),
        Ok(vec![NftTransfer { nft: nft(1), from: addr(OWNER), to: addr(INSTANCE) }])
    );
    assert_eq!(
        add(&mut c, "a.l1x", 2, Some((nft(9), addr(OWNER)))),
        Ok(vec![
            NftTransfer { nft: nft(2), from: addr(OWNER), to: addr(INSTANCE) },
            NftTransfer { nft: nft(9), from: addr(OWNER), to: addr(INSTANCE) },
        ])
    );
    assert_eq!(
        c.list_names(),
        vec![
            DomainName { name: s("a.l1x"), name_nft: nft(2), provatar_nft: Some(nft(9)) },
            DomainName { name: s("m.l1x"), name_nft: nft(1), provatar_nft: None },
        ]
    );
    // A name that is added again is replaced.
    assert!(add(&mut c, "a.l1x", 3, None).is_ok());
    assert_eq!(
        c.list_names(),
        vec![
            DomainName { name: s("a.l1x"), name_nft: nft(3), provatar_nft: None },
            DomainName { name: s("m.l1x"), name_nft: nft(1), provatar_nft: None },
        ]
    );
}

#[test]
fn an_avatar_is_given_to_a_name_of_the_profile() {
    let mut c = card();
    add(&mut c, "a.l1x", 1, None).unwrap();
    let before = c.clone();
    let give = |c: &mut Contract, caller: u8, name: &str, holder: u8| {
        c.add_provatar(addr(caller), addr(OWNER), addr(INSTANCE), s(name), nft(7), addr(holder))
    };
    assert_eq!(give(&mut c, 1, "a.l1x", 1), Err(ProfileError::NotContractOwner));
    assert_eq!(give(&mut c, OWNER, "b.l1x", OWNER), Err(ProfileError::CannotFindName));
    assert_eq!(give(&mut c, OWNER, "b.l1x", 1), Err(ProfileError::CannotFindName));
    assert_eq!(give(&mut c, OWNER, "a.l1x", 1), Err(ProfileError::NotProvatarNftOwner));
    assert_eq!(c, before);
    assert_eq!(
        give(&mut c, OWNER, "a.l1x", OWNER),
        Ok(NftTransfer { nft: nft(7), from: addr(OWNER), to: addr(INSTANCE) })
    );
    assert_eq!(
        c.list_names(),
        vec![DomainName { name: s("a.l1x"), name_nft: nft(1), provatar_nft: Some(nft(7)) }]
    );
}

#[test]
fn a_name_leaves_the_profile_with_its_tokens() {
    let mut c = card();
    add(&mut c, "a.l1x", 1, Some((nft(7), addr(OWNER)))).unwrap();
    add(&mut c, "b.l1x", 2, None).unwrap();
    let before = c.clone();
    assert_eq!(
        c.transfer_name(addr(1), addr(OWNER), addr(INSTANCE), &s("a.l1x"), addr(5)),
        Err(ProfileError::NotContractOwner)
    );
    assert_eq!(
        c.transfer_name(addr(OWNER), addr(OWNER), addr(INSTANCE), &s("c.l1x"), addr(5)),
        Err(ProfileError::CannotFindName)
    );
    assert_eq!(c, before);
    assert_eq!(
        c.transfer_name(addr(OWNER), addr(OWNER), addr(INSTANCE), &s("a.l1x"), addr(5)),
        Ok(vec![
            NftTransfer { nft: nft(1), from: addr(INSTANCE), to: addr(5) },
            NftTransfer { nft: nft(7), from: addr(INSTANCE), to: addr(5) },
        ])
    );
    assert_eq!(
        c.transfer_name(addr(OWNER), addr(OWNER), addr(INSTANCE), &s("b.l1x"), addr(5)),
        Ok(vec![NftTransfer { nft: nft(2), from: addr(INSTANCE), to: addr(5) }])
    );
    assert!(c.list_names().is_empty());
}

#[test]
fn only_the_owner_may_change_the_profile() {
    assert_eq!(Contract::assert_owner(addr(OWNER), addr(OWNER)), Ok(()));
    assert_eq!(Contract::assert_owner(addr(1), addr(OWNER)), Err(ProfileError::NotContractOwner));
}

#[test]
fn metadata_is_replaced_by_the_owner() {
    let mut c = card();
    let new = Metadata { name: s("you"), description: Some(s("d")) };
    assert_eq!(c.update_metadata(addr(1), addr(OWNER), new.clone()), Err(ProfileError::NotContractOwner));
    assert_eq!(c.metadata.name, "me");
    assert_eq!(c.update_metadata(addr(OWNER), addr(OWNER), new.clone()), Ok(()));
    assert_eq!(c.metadata, new);
    assert_eq!(c.metadata(), new);
}

#[test]
fn a_stored_profile_card_is_checked() {
    let mut c = card();
    add(&mut c, "b.l1x", 1, None).unwrap();
    add(&mut c, "a.l1x", 2, None).unwrap();
    assert!(c.is_wf());
    let mut bad = c.clone();
    bad.names.reverse();
    assert!(!bad.is_wf());
    let mut bad = c.clone();
    let again = bad.names[1].clone();
    bad.names.push(again);
    assert!(!bad.is_wf());
}
