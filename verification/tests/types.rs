use avdr_contracts::access_control::permission::{Permission, PermissionSet};
use avdr_contracts::types::{Address, Cid, PublicKey};

#[test]
fn addresses_are_ordered_bytewise() {
    let mut a = [0u8; 20];
    let mut b = [0u8; 20];
    assert!(!Address(a).is_before(&Address(b)));
    b[19] = 1;
    assert!(Address(a).is_before(&Address(b)));
    assert!(!Address(b).is_before(&Address(a)));
    a[0] = 1;
    assert!(Address(b).is_before(&Address(a)));
    assert!(!Address(a).is_before(&Address(b)));
    a[0] = 0;
    a[19] = 255;
    b[19] = 0;
    b[18] = 1;
    assert!(Address(a).is_before(&Address(b)));
    assert!(Cid(Address(a)).is_before(&Cid(Address(b))));
    assert!(!Cid(Address(b)).is_before(&Cid(Address(a))));
}

#[test]
fn address_equality_reads_every_byte() {
    let a = [7u8; 20];
    for i in 0..20 {
        let mut b = a;
        b[i] = 8;
        assert!(Address(a) != Address(b));
        assert!(Cid(Address(a)) != Cid(Address(b)));
    }
    assert!(Address(a) == Address([7u8; 20]));
    assert!(Cid(Address(a)) == Cid(Address([7u8; 20])));
}

#[test]
fn public_keys_are_compared_by_their_bytes() {
    assert!(PublicKey(vec![1, 2, 3]) == PublicKey(vec![1, 2, 3]));
    assert!(PublicKey(vec![1, 2, 3]) != PublicKey(vec![1, 2]));
    assert!(PublicKey(vec![1, 2, 3]) != PublicKey(vec![1, 2, 4]));
    assert!(PublicKey(vec![]) == PublicKey(vec![]));
    assert!(PublicKey(vec![]).is_empty());
    assert!(!PublicKey(vec![0]).is_empty());
    assert_eq!(PublicKey(vec![9, 8]).duplicate(), PublicKey(vec![9, 8]));
}

#[test]
fn permission_set_operations() {
    let mut s = PermissionSet::empty();
    assert!(s.is_empty());
    assert_eq!(s.to_vec(), vec![]);
    assert!(s.insert(Permission::Reject));
    assert!(!s.insert(Permission::Reject));
    assert!(s.insert(Permission::Write));
    assert!(s.contains(Permission::Write));
    assert!(!s.contains(Permission::Remove));
    assert_eq!(s.to_vec(), vec![Permission::Write, Permission::Reject]);
    assert!(!s.remove(Permission::Approve));
    assert!(s.remove(Permission::Write));
    assert_eq!(s, PermissionSet::single(Permission::Reject));
    assert!(s.remove(Permission::Reject));
    assert!(s.is_empty());
    assert_eq!(
        PermissionSet::full().to_vec(),
        vec![
            Permission::Write,
            Permission::Remove,
            Permission::Approve,
            Permission::Reject,
            Permission::Revoke,
        ]
    );
}
