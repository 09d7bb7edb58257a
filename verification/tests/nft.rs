use avdr_contracts::nft::{
    decimal, digit_str, AccountTokens, Base64Data, NFTMetadata, NftContract, NftError,
    TokenBalance,
};
use avdr_contracts::types::Address;

fn addr(n: u8) -> Address {
    Address([n; 20])
}

const OWNER: u8 = 50;

fn metadata() -> NFTMetadata {
    NFTMetadata { name: "Tokens".to_string(), icon: None, uri: "https://t/".to_string() }
}

fn ledger() -> NftContract {
    NftContract::new(addr(OWNER), addr(OWNER), false, metadata()).unwrap()
}

fn minted(grants: &[(u8, u128, u128)]) -> NftContract {
    let mut c = ledger();
    for (to, id, amount) in grants {
        c.nft_mint_id(addr(OWNER), addr(OWNER), addr(*to), *id, *amount).unwrap();
    }
    c
}

#[test]
fn nft_new_is_for_the_owner_and_once() {
    assert_eq!(
        NftContract::new(addr(1), addr(OWNER), false, metadata()),
        Err(NftError::NotContractOwner)
    );
    assert_eq!(
        NftContract::new(addr(OWNER), addr(OWNER), true, metadata()),
        Err(NftError::AlreadyInitialized)
    );
    let c = ledger();
    assert_eq!(c.metadata, metadata());
    assert!(c.balance_of.is_empty());
    assert!(c.is_approved_for_all.is_empty());
}

#[test]
fn mint_adds_and_burn_takes() {
    let mut c = ledger();
    assert_eq!(c.nft_balance_of(addr(1), 7), 0);
    assert_eq!(c.nft_mint_id(addr(OWNER), addr(OWNER), addr(1), 7, 10), Ok(()));
    assert_eq!(c.nft_mint_id(addr(OWNER), addr(OWNER), addr(1), 7, 5), Ok(()));
    assert_eq!(c.nft_mint_id(addr(OWNER), addr(OWNER), addr(1), 3, 1), Ok(()));
    assert_eq!(c.nft_balance_of(addr(1), 7), 15);
    assert_eq!(c.nft_owned_tokens(addr(1)), Ok(vec![(3, 1), (7, 15)]));
    assert_eq!(c.nft_burn(addr(OWNER), addr(OWNER), addr(1), 7, 4), Ok(()));
    assert_eq!(c.nft_balance_of(addr(1), 7), 11);
    let before = c.clone();
    assert_eq!(c.nft_burn(addr(OWNER), addr(OWNER), addr(1), 7, 12), Err(NftError::NotEnoughFund));
    assert_eq!(c.nft_burn(addr(OWNER), addr(OWNER), addr(1), 8, 1), Err(NftError::NoFund));
    assert_eq!(c.nft_burn(addr(OWNER), addr(OWNER), addr(2), 7, 1), Err(NftError::NoFund));
    assert_eq!(c.nft_burn(addr(1), addr(OWNER), addr(1), 7, 1), Err(NftError::NotContractOwner));
    assert_eq!(c.nft_mint_id(addr(1), addr(OWNER), addr(1), 7, 1), Err(NftError::NotContractOwner));
    assert_eq!(c, before);
}

#[test]
fn an_amount_that_falls_to_zero_is_dropped() {
    let mut c = minted(&[(1, 7, 10), (1, 3, 2)]);
    assert_eq!(c.nft_burn(addr(OWNER), addr(OWNER), addr(1), 7, 10), Ok(()));
    assert_eq!(c.nft_owned_tokens(addr(1)), Ok(vec![(3, 2)]));
    assert_eq!(c.nft_burn(addr(OWNER), addr(OWNER), addr(1), 3, 2), Ok(()));
    // The row of the account stays, empty.
    assert_eq!(c.nft_owned_tokens(addr(1)), Ok(vec![]));
    assert_eq!(c.nft_owned_tokens(addr(2)), Err(NftError::NotEnoughFund));
    assert_eq!(c.balance_of, vec![AccountTokens { account: addr(1), tokens: vec![] }]);
}

#[test]
fn minting_nothing_makes_an_entry_of_zero() {
    let mut c = ledger();
    assert_eq!(c.nft_mint_id(addr(OWNER), addr(OWNER), addr(1), 7, 0), Ok(()));
    assert_eq!(c.nft_owned_tokens(addr(1)), Ok(vec![(7, 0)]));
    // Adding nothing to an entry of zero drops it.
    assert_eq!(c.nft_mint_id(addr(OWNER), addr(OWNER), addr(1), 7, 0), Ok(()));
    assert_eq!(c.nft_owned_tokens(addr(1)), Ok(vec![]));
}

#[test]
fn mint_overflow_is_refused() {
    let mut c = minted(&[(1, 7, u128::MAX - 1)]);
    let before = c.clone();
    assert_eq!(c.nft_mint_id(addr(OWNER), addr(OWNER), addr(1), 7, 2), Err(NftError::IntegerOverflow));
    assert_eq!(c, before);
    assert_eq!(c.nft_mint_id(addr(OWNER), addr(OWNER), addr(1), 7, 1), Ok(()));
    assert_eq!(c.nft_balance_of(addr(1), 7), u128::MAX);
}

#[test]
fn approvals_are_by_holder_and_operator() {
    let mut c = ledger();
    assert!(!c.nft_is_approved_for_all(&addr(1), &addr(2)));
    c.nft_set_approval_for_all(addr(1), addr(2), true);
    c.nft_set_approval_for_all(addr(1), addr(3), false);
    c.nft_set_approval_for_all(addr(4), addr(2), true);
    assert!(c.nft_is_approved_for_all(&addr(1), &addr(2)));
    assert!(!c.nft_is_approved_for_all(&addr(1), &addr(3)));
    assert!(!c.nft_is_approved_for_all(&addr(2), &addr(1)));
    assert!(c.nft_is_approved_for_all(&addr(4), &addr(2)));
    c.nft_set_approval_for_all(addr(1), addr(2), false);
    assert!(!c.nft_is_approved_for_all(&addr(1), &addr(2)));
    assert!(c.caller_is_approved(&addr(1), &addr(1)));
    assert!(c.caller_is_approved(&addr(2), &addr(4)));
    assert!(!c.caller_is_approved(&addr(2), &addr(1)));
}

#[test]
fn transfer_moves_an_amount() {
    let mut c = minted(&[(1, 7, 10)]);
    assert_eq!(c.nft_safe_transfer_from(addr(1), addr(1), addr(2), 7, 4, Base64Data(vec![])), Ok(()));
    assert_eq!(c.nft_balance_of(addr(1), 7), 6);
    assert_eq!(c.nft_balance_of(addr(2), 7), 4);
    c.nft_set_approval_for_all(addr(1), addr(9), true);
    assert_eq!(c.nft_safe_transfer_from(addr(9), addr(1), addr(2), 7, 6, Base64Data(vec![])), Ok(()));
    assert_eq!(c.nft_owned_tokens(addr(1)), Ok(vec![]));
    assert_eq!(c.nft_balance_of(addr(2), 7), 10);
    // To oneself.
    assert_eq!(c.nft_safe_transfer_from(addr(2), addr(2), addr(2), 7, 10, Base64Data(vec![])), Ok(()));
    assert_eq!(c.nft_balance_of(addr(2), 7), 10);
}

#[test]
fn transfer_failures_change_nothing() {
    let mut c = minted(&[(1, 7, 10), (2, 7, u128::MAX - 3)]);
    let before = c.clone();
    assert_eq!(
        c.nft_safe_transfer_from(addr(1), addr(1), Address([0; 20]), 7, 1, Base64Data(vec![])),
        Err(NftError::ZeroAddress)
    );
    assert_eq!(c.nft_safe_transfer_from(addr(3), addr(1), addr(2), 7, 1, Base64Data(vec![])), Err(NftError::NotAuthorized));
    assert_eq!(c.nft_safe_transfer_from(addr(1), addr(1), addr(2), 7, 11, Base64Data(vec![])), Err(NftError::NotEnoughFund));
    assert_eq!(c.nft_safe_transfer_from(addr(1), addr(1), addr(2), 8, 1, Base64Data(vec![])), Err(NftError::NoFund));
    assert_eq!(c.nft_safe_transfer_from(addr(3), addr(3), addr(2), 7, 1, Base64Data(vec![])), Err(NftError::NoFund));
    assert_eq!(c.nft_safe_transfer_from(addr(1), addr(1), addr(2), 7, 4, Base64Data(vec![])), Err(NftError::IntegerOverflow));
    assert_eq!(c.nft_safe_transfer_from(addr(1), addr(1), addr(2), 7, 10, Base64Data(vec![])), Err(NftError::IntegerOverflow));
    assert_eq!(c, before);
    assert_eq!(c.nft_safe_transfer_from(addr(1), addr(1), addr(2), 7, 3, Base64Data(vec![])), Ok(()));
    assert_eq!(c.nft_balance_of(addr(2), 7), u128::MAX);
}

#[test]
fn batch_transfer_moves_each_amount() {
    let mut c = minted(&[(1, 7, 10), (1, 3, 5), (2, 3, 1)]);
    assert_eq!(
        c.nft_safe_batch_transfer_from(addr(1), addr(1), addr(2), &vec![7, 3, 7], &vec![4, 5, 6], Base64Data(vec![])),
        Ok(())
    );
    // Amounts of the sender that fall to zero keep their entries.
    assert_eq!(c.nft_owned_tokens(addr(1)), Ok(vec![(3, 0), (7, 0)]));
    assert_eq!(c.nft_owned_tokens(addr(2)), Ok(vec![(3, 6), (7, 10)]));
    // A receiver without a row gets one, even for an empty batch.
    assert_eq!(c.nft_safe_batch_transfer_from(addr(2), addr(2), addr(3), &vec![], &vec![], Base64Data(vec![])), Ok(()));
    assert_eq!(c.nft_owned_tokens(addr(3)), Ok(vec![]));
}

#[test]
fn batch_transfer_failures_change_nothing() {
    let mut c = minted(&[(1, 7, 10), (1, 3, 5), (2, 3, u128::MAX)]);
    let before = c.clone();
    let run = |c: &mut NftContract, caller: u8, from: u8, to: Address, ids: Vec<u128>, values: Vec<u128>| {
        c.nft_safe_batch_transfer_from(addr(caller), addr(from), to, &ids, &values, Base64Data(vec![]))
    };
    assert_eq!(run(&mut c, 1, 1, addr(2), vec![7], vec![]), Err(NftError::LengthMismatch));
    assert_eq!(run(&mut c, 1, 1, Address([0; 20]), vec![7], vec![1]), Err(NftError::ZeroAddress));
    assert_eq!(run(&mut c, 2, 1, addr(2), vec![7], vec![1]), Err(NftError::NotAuthorized));
    assert_eq!(run(&mut c, 4, 4, addr(2), vec![], vec![]), Err(NftError::NotEnoughFund));
    assert_eq!(run(&mut c, 1, 1, addr(2), vec![7, 8], vec![1, 1]), Err(NftError::NotEnoughFund));
    assert_eq!(run(&mut c, 1, 1, addr(2), vec![7, 7], vec![6, 5]), Err(NftError::NotEnoughFund));
    assert_eq!(run(&mut c, 1, 1, addr(2), vec![7, 3], vec![1, 1]), Err(NftError::IntegerOverflow));
    // The first transfer that cannot be made decides.
    assert_eq!(run(&mut c, 1, 1, addr(2), vec![3, 9], vec![1, 1]), Err(NftError::IntegerOverflow));
    assert_eq!(run(&mut c, 1, 1, addr(2), vec![9, 3], vec![1, 1]), Err(NftError::NotEnoughFund));
    assert_eq!(c, before);
}

#[test]
fn batch_transfer_to_oneself_writes_the_receiving_side() {
    let mut c = minted(&[(1, 7, 10)]);
    assert_eq!(
        c.nft_safe_batch_transfer_from(addr(1), addr(1), addr(1), &vec![7, 7], &vec![4, 5], Base64Data(vec![])),
        Ok(())
    );
    assert_eq!(c.nft_owned_tokens(addr(1)), Ok(vec![(7, 19)]));
    // Without a row, an empty batch to oneself makes an empty row.
    assert_eq!(c.nft_safe_batch_transfer_from(addr(5), addr(5), addr(5), &vec![], &vec![], Base64Data(vec![])), Ok(()));
    assert_eq!(c.nft_owned_tokens(addr(5)), Ok(vec![]));
    assert_eq!(
        c.nft_safe_batch_transfer_from(addr(6), addr(6), addr(6), &vec![7], &vec![0], Base64Data(vec![])),
        Err(NftError::NotEnoughFund)
    );
    assert_eq!(c.nft_owned_tokens(addr(6)), Err(NftError::NotEnoughFund));
}

#[test]
fn balances_of_a_batch() {
    let c = minted(&[(1, 7, 10), (2, 3, 5)]);
    assert_eq!(
        c.nft_balance_of_batch(&vec![addr(1), addr(2), addr(1), addr(3)], &vec![7, 3, 3, 7]),
        Ok(vec![10, 5, 0, 0])
    );
    assert_eq!(c.nft_balance_of_batch(&vec![addr(1)], &vec![]), Err(NftError::LengthMismatch));
    assert_eq!(c.nft_balance_of_batch(&vec![], &vec![]), Ok(vec![]));
    assert!(c.has_token(&addr(1), 7));
    assert!(!c.has_token(&addr(1), 3));
    assert_eq!(
        c.balance_of,
        vec![
            AccountTokens { account: addr(1), tokens: vec![TokenBalance { id: 7, amount: 10 }] },
            AccountTokens { account: addr(2), tokens: vec![TokenBalance { id: 3, amount: 5 }] },
        ]
    );
}

#[test]
fn decimal_numerals() {
    assert_eq!(decimal(0), "0");
    assert_eq!(decimal(7), "7");
    assert_eq!(decimal(10), "10");
    assert_eq!(decimal(909), "909");
    assert_eq!(decimal(1234567890), "1234567890");
    assert_eq!(decimal(u128::MAX), u128::MAX.to_string());
    for d in 0..10u128 {
        assert_eq!(digit_str(d), d.to_string());
    }
}

#[test]
fn the_uri_of_a_token() {
    let c = ledger();
    assert_eq!(c.nft_uri(0), "https://t/0.json");
    assert_eq!(c.nft_uri(42), "https://t/42.json");
    assert_eq!(
        c.nft_uri(u128::MAX),
        "https://t/340282366920938463463374607431768211455.json"
    );
    assert_eq!(c.nft_name(), "Tokens");
    assert_eq!(NftContract::load(None), Err(NftError::NotInitialized));
    assert_eq!(NftContract::load(Some(c.clone())), Ok(c.clone()));
    assert_eq!(c.nft_icon(), None);
    let with_icon = NftContract::new(
        addr(OWNER),
        addr(OWNER),
        false,
        NFTMetadata { name: "T".to_string(), icon: Some("i".to_string()), uri: String::new() },
    )
    .unwrap();
    assert_eq!(with_icon.nft_icon(), Some("i".to_string()));
    assert_eq!(with_icon.nft_uri(5), "5.json");
}

#[test]
fn a_stored_ledger_is_checked() {
    let mut c = minted(&[(1, 7, 10), (1, 3, 5), (2, 3, 1)]);
    c.nft_set_approval_for_all(addr(1), addr(2), true);
    c.nft_set_approval_for_all(addr(1), addr(3), true);
    assert!(c.is_wf());
    let mut bad = c.clone();
    bad.balance_of[0].tokens.reverse();
    assert!(!bad.is_wf());
    let mut bad = c.clone();
    let t = bad.balance_of[0].tokens[0];
    bad.balance_of[0].tokens.push(t);
    assert!(!bad.is_wf());
    let mut bad = c.clone();
    let row = bad.balance_of[1].clone();
    bad.balance_of.push(row);
    assert!(!bad.is_wf());
    let mut bad = c.clone();
    let row = bad.is_approved_for_all[0].clone();
    bad.is_approved_for_all.push(row);
    assert!(!bad.is_wf());
    let mut bad = c.clone();
    let o = bad.is_approved_for_all[0].operators[0];
    bad.is_approved_for_all[0].operators.push(o);
    assert!(!bad.is_approved_for_all[0].is_wf());
    assert!(!bad.is_wf());
}

#[test]
fn balances_are_updated_in_place() {
    let mut c = ledger();
    assert_eq!(c.internal_balance_update(addr(1), 7, 5, false), Ok(()));
    assert_eq!(c.internal_balance_update(addr(1), 7, 2, true), Ok(()));
    assert_eq!(c.internal_balance_update(addr(1), 7, 4, true), Err(NftError::NotEnoughFund));
    assert_eq!(c.internal_balance_update(addr(1), 8, 0, true), Err(NftError::NoFund));
    assert_eq!(c.internal_balance_update(addr(2), 7, 0, true), Err(NftError::NoFund));
    assert_eq!(c.nft_balance_of(addr(1), 7), 3);
    assert_eq!(c.find_account(&addr(1)), Some(0));
    assert_eq!(c.find_account(&addr(2)), None);
    assert_eq!(c.find_approvals(&addr(1)), None);
    c.nft_set_approval_for_all(addr(1), addr(2), false);
    assert_eq!(c.find_approvals(&addr(1)), Some(0));
    assert_eq!(c.is_approved_for_all[0].find_operator(&addr(2)), Some(0));
    assert_eq!(c.is_approved_for_all[0].find_operator(&addr(3)), None);
}
