//! Identifiers and plain records shared by every contract: account
//! addresses, content ids, public keys and the metadata records that the
//! contracts exchange.

use vstd::prelude::*;
use vstd::std_specs::cmp::PartialEqSpecImpl;

verus! {

/// A 20-byte account address.
///
/// Addresses are totally ordered bytewise, first byte first
/// ([`Address::precedes`]).
#[derive(Clone, Copy, Debug, Eq, Hash)]
pub struct Address(pub [u8; 20]);

/// `a` and `b` agree on their first `k` bytes, and there `a` ends while `b`
/// goes on, or `a` has the smaller byte.
pub open spec fn differs_first_at(a: Seq<u8>, b: Seq<u8>, k: int) -> bool {
    &&& 0 <= k <= a.len()
    &&& k < b.len()
    &&& k < a.len() ==> a[k] < b[k]
    &&& forall|j: int| 0 <= j < k ==> a[j] == b[j]
}

/// Strict lexicographic order on byte strings: a string comes after its
/// proper prefixes.
pub open spec fn bytes_precede(a: Seq<u8>, b: Seq<u8>) -> bool {
    exists|k: int| #[trigger] differs_first_at(a, b, k)
}

/// Two byte strings that agree on their first `n` bytes are equal, or one of
/// them precedes the other.
proof fn lemma_bytes_trichotomy_from(a: Seq<u8>, b: Seq<u8>, n: int)
    requires
        0 <= n <= a.len(),
        n <= b.len(),
        forall|j: int| 0 <= j < n ==> a[j] == b[j],
    ensures
        a == b || bytes_precede(a, b) || bytes_precede(b, a),
    decreases a.len() - n,
{
    if n == a.len() {
        if n == b.len() {
            assert(a =~= b);
        } else {
            assert(differs_first_at(a, b, n));
        }
    } else if n == b.len() {
        assert(differs_first_at(b, a, n));
    } else if a[n] < b[n] {
        assert(differs_first_at(a, b, n));
    } else if b[n] < a[n] {
        assert(differs_first_at(b, a, n));
    } else {
        lemma_bytes_trichotomy_from(a, b, n + 1);
    }
}

/// The lexicographic order is total.
pub proof fn lemma_bytes_trichotomy(a: Seq<u8>, b: Seq<u8>)
    ensures
        a == b || bytes_precede(a, b) || bytes_precede(b, a),
{
    lemma_bytes_trichotomy_from(a, b, 0);
}

/// The lexicographic order is irreflexive and asymmetric.
pub proof fn lemma_bytes_asymmetric(a: Seq<u8>, b: Seq<u8>)
    requires
        bytes_precede(a, b),
    ensures
        a != b,
        !bytes_precede(b, a),
{
    let k = choose|k: int| #[trigger] differs_first_at(a, b, k);
    if bytes_precede(b, a) {
        let m = choose|m: int| #[trigger] differs_first_at(b, a, m);
        if m < k {
            assert(a[m] == b[m]);
        } else if k < m {
            assert(b[k] == a[k]);
        }
    }
    if a == b {
        if k < a.len() {
            assert(a[k] < b[k]);
        }
    }
}

/// The lexicographic order is transitive.
pub proof fn lemma_bytes_transitive(a: Seq<u8>, b: Seq<u8>, c: Seq<u8>)
    requires
        bytes_precede(a, b),
        bytes_precede(b, c),
    ensures
        bytes_precede(a, c),
{
    let k = choose|k: int| #[trigger] differs_first_at(a, b, k);
    let m = choose|m: int| #[trigger] differs_first_at(b, c, m);
    if k <= m {
        assert(differs_first_at(a, c, k));
    } else {
        assert(a[m] == b[m]);
        assert(differs_first_at(a, c, m));
    }
}

/// Decides the lexicographic order of two byte strings.
pub fn bytes_before(a: &[u8], b: &[u8]) -> (r: bool)
    ensures
        r == bytes_precede(a@, b@),
{
    let mut i: usize = 0;
    while i < a.len() && i < b.len()
        invariant
            i <= a.len(),
            i <= b.len(),
            forall|j: int| 0 <= j < i ==> a@[j] == b@[j],
        decreases a.len() - i,
    {
        if a[i] < b[i] {
            proof {
                assert(differs_first_at(a@, b@, i as int));
            }
            return true;
        }
        if a[i] > b[i] {
            proof {
                assert(differs_first_at(b@, a@, i as int));
                lemma_bytes_asymmetric(b@, a@);
            }
            return false;
        }
        i += 1;
    }
    if i < b.len() {
        proof {
            assert(differs_first_at(a@, b@, i as int));
        }
        true
    } else {
        proof {
            if i < a.len() {
                assert(differs_first_at(b@, a@, i as int));
                lemma_bytes_asymmetric(b@, a@);
            } else {
                assert(a@ =~= b@);
                if bytes_precede(a@, b@) {
                    lemma_bytes_asymmetric(a@, b@);
                }
            }
        }
        false
    }
}

impl Address {
    /// The bytes of the address as a sequence of length 20.
    pub open spec fn bytes(self) -> Seq<u8> {
        self.0@
    }

    /// `self` comes strictly before `other` in the bytewise order.
    pub open spec fn precedes(self, other: Address) -> bool {
        bytes_precede(self.bytes(), other.bytes())
    }

    /// Decides the bytewise order.
    pub fn is_before(&self, other: &Address) -> (r: bool)
        ensures
            r == self.precedes(*other),
    {
        let mut i: usize = 0;
        while i < 20
            invariant
                i <= 20,
                forall|j: int| 0 <= j < i ==> self.0@[j] == other.0@[j],
            decreases 20 - i,
        {
            if self.0[i] < other.0[i] {
                proof {
                    assert(differs_first_at(self.bytes(), other.bytes(), i as int));
                }
                return true;
            }
            if self.0[i] > other.0[i] {
                proof {
                    assert(differs_first_at(other.bytes(), self.bytes(), i as int));
                    lemma_bytes_asymmetric(other.bytes(), self.bytes());
                }
                return false;
            }
            i += 1;
        }
        proof {
            assert(self.bytes() =~= other.bytes());
            if self.precedes(*other) {
                lemma_bytes_asymmetric(self.bytes(), other.bytes());
            }
        }
        false
    }

    /// Whether every byte of the address is zero.
    pub open spec fn is_zero(self) -> bool {
        forall|i: int| 0 <= i < 20 ==> self.bytes()[i] == 0
    }

    /// Decides whether every byte of the address is zero.
    pub fn is_zero_address(&self) -> (r: bool)
        ensures
            r == self.is_zero(),
    {
        let mut i: usize = 0;
        while i < 20
            invariant
                i <= 20,
                forall|j: int| 0 <= j < i ==> self.bytes()[j] == 0,
            decreases 20 - i,
        {
            if self.0[i] != 0 {
                proof {
                    assert(self.bytes()[i as int] != 0);
                }
                return false;
            }
            i += 1;
        }
        true
    }

    /// Two addresses with the same bytes are the same address.
    pub proof fn lemma_bytes_injective(a: Address, b: Address)
        requires
            a.bytes() == b.bytes(),
        ensures
            a == b,
    {
        assert(a.0 =~= b.0);
    }

    /// Of two addresses, either they are equal or exactly one precedes the
    /// other.
    pub proof fn lemma_total_order(a: Address, b: Address)
        ensures
            a == b || a.precedes(b) || b.precedes(a),
            a.precedes(b) ==> a != b && !b.precedes(a),
    {
        lemma_bytes_trichotomy(a.bytes(), b.bytes());
        if a.bytes() == b.bytes() {
            Self::lemma_bytes_injective(a, b);
        }
        if a.precedes(b) {
            lemma_bytes_asymmetric(a.bytes(), b.bytes());
        }
    }

    /// The order on addresses is transitive.
    pub proof fn lemma_precedes_transitive(a: Address, b: Address, c: Address)
        requires
            a.precedes(b),
            b.precedes(c),
        ensures
            a.precedes(c),
    {
        lemma_bytes_transitive(a.bytes(), b.bytes(), c.bytes());
    }
}

/// Each address of `s` precedes all that follow it.
pub open spec fn addresses_ascending(s: Seq<Address>) -> bool {
    forall|i: int, j: int| 0 <= i < j < s.len() ==> (#[trigger] s[i]).precedes(#[trigger] s[j])
}

/// An ascending sequence stays ascending when an address is put in after
/// all that precede it and before one that follows it.
pub proof fn lemma_insert_keeps_ascending(s: Seq<Address>, p: int, x: Address)
    requires
        addresses_ascending(s),
        0 <= p <= s.len(),
        forall|k: int| 0 <= k < p ==> (#[trigger] s[k]).precedes(x),
        p < s.len() ==> x.precedes(s[p]),
    ensures
        addresses_ascending(s.insert(p, x)),
{
    let t = s.insert(p, x);
    assert forall|i: int, j: int| 0 <= i < j < t.len() implies (#[trigger] t[i]).precedes(
        #[trigger] t[j],
    ) by {
        if j < p {
            assert(s[i].precedes(s[j]));
        } else if j == p {
            assert(s[i].precedes(x));
        } else if i > p {
            assert(s[i - 1].precedes(s[j - 1]));
        } else if i == p {
            if j - 1 > p {
                assert(s[p].precedes(s[j - 1]));
                Address::lemma_precedes_transitive(x, s[p], s[j - 1]);
            }
        } else {
            assert(s[i].precedes(s[j - 1]));
        }
    }
}

/// Two ascending sequences with the same addresses are the same sequence.
pub proof fn lemma_ascending_unique(a: Seq<Address>, b: Seq<Address>)
    requires
        addresses_ascending(a),
        addresses_ascending(b),
        a.to_set() == b.to_set(),
    ensures
        a == b,
    decreases a.len(),
{
    if a.len() == 0 {
        if b.len() > 0 {
            assert(b.to_set().contains(b[0]));
            assert(a.contains(b[0]));
        }
        assert(a =~= b);
    } else if b.len() == 0 {
        assert(a.to_set().contains(a[0]));
        assert(b.contains(a[0]));
    } else {
        // The first addresses are the least of the common set.
        assert(a.to_set().contains(a[0]));
        assert(b.contains(a[0]));
        let j = choose|j: int| 0 <= j < b.len() && b[j] == a[0];
        assert(b.to_set().contains(b[0]));
        assert(a.contains(b[0]));
        let i = choose|i: int| 0 <= i < a.len() && a[i] == b[0];
        if j > 0 {
            assert(b[0].precedes(b[j]));
            if i > 0 {
                assert(a[0].precedes(a[i]));
                Address::lemma_total_order(a[0], b[0]);
            }
            Address::lemma_total_order(b[0], a[0]);
        }
        assert(a[0] == b[0]);
        let a1 = a.subrange(1, a.len() as int);
        let b1 = b.subrange(1, b.len() as int);
        assert forall|x: Address| a1.to_set().contains(x) <==> b1.to_set().contains(x) by {
            if a1.contains(x) {
                let k = choose|k: int| 0 <= k < a1.len() && a1[k] == x;
                assert(a[k + 1] == x);
                assert(a[0].precedes(a[k + 1]));
                Address::lemma_total_order(a[0], x);
                assert(a.to_set().contains(x));
                assert(b.contains(x));
                let m = choose|m: int| 0 <= m < b.len() && b[m] == x;
                assert(b1[m - 1] == x);
            }
            if b1.contains(x) {
                let k = choose|k: int| 0 <= k < b1.len() && b1[k] == x;
                assert(b[k + 1] == x);
                assert(b[0].precedes(b[k + 1]));
                Address::lemma_total_order(b[0], x);
                assert(b.to_set().contains(x));
                assert(a.contains(x));
                let m = choose|m: int| 0 <= m < a.len() && a[m] == x;
                assert(a1[m - 1] == x);
            }
        }
        assert(a1.to_set() =~= b1.to_set());
        assert(addresses_ascending(a1)) by {
            assert forall|x: int, y: int| 0 <= x < y < a1.len() implies (#[trigger] a1[x]).precedes(
                #[trigger] a1[y],
            ) by {
                assert(a[x + 1].precedes(a[y + 1]));
            }
        }
        assert(addresses_ascending(b1)) by {
            assert forall|x: int, y: int| 0 <= x < y < b1.len() implies (#[trigger] b1[x]).precedes(
                #[trigger] b1[y],
            ) by {
                assert(b[x + 1].precedes(b[y + 1]));
            }
        }
        lemma_ascending_unique(a1, b1);
        assert(a =~= seq![a[0]] + a1);
        assert(b =~= seq![b[0]] + b1);
    }
}

/// A sequence in which each address precedes the next is ascending.
pub proof fn lemma_neighbours_ascending(s: Seq<Address>)
    requires
        forall|i: int| 0 <= i < s.len() - 1 ==> (#[trigger] s[i]).precedes(s[i + 1]),
    ensures
        addresses_ascending(s),
    decreases s.len(),
{
    if s.len() > 1 {
        let front = s.drop_last();
        assert forall|i: int| 0 <= i < front.len() - 1 implies (#[trigger] front[i]).precedes(
            front[i + 1],
        ) by {
            assert(s[i].precedes(s[i + 1]));
        }
        lemma_neighbours_ascending(front);
        assert forall|i: int, j: int| 0 <= i < j < s.len() implies (#[trigger] s[i]).precedes(
            #[trigger] s[j],
        ) by {
            if j < s.len() - 1 {
                assert(front[i].precedes(front[j]));
            } else {
                let last = s.len() - 1;
                assert(s[last - 1].precedes(s[last - 1 + 1]));
                if i < last - 1 {
                    assert(front[i].precedes(front[last - 1]));
                    Address::lemma_precedes_transitive(s[i], s[last - 1], s[last]);
                }
            }
        }
    }
}

/// Decides whether the addresses of `v` ascend.
pub fn addresses_ascend(v: &Vec<Address>) -> (r: bool)
    ensures
        r == addresses_ascending(v@),
{
    if v.len() == 0 {
        return true;
    }
    let mut i: usize = 1;
    while i < v.len()
        invariant
            1 <= i <= v.len(),
            forall|k: int| 0 <= k < i - 1 ==> (#[trigger] v@[k]).precedes(v@[k + 1]),
        decreases v.len() - i,
    {
        if !v[i - 1].is_before(&v[i]) {
            proof {
                if addresses_ascending(v@) {
                    assert(v@[i - 1].precedes(v@[i as int]));
                }
            }
            return false;
        }
        i += 1;
    }
    proof {
        lemma_neighbours_ascending(v@);
    }
    true
}

impl PartialEq for Address {
    fn eq(&self, other: &Address) -> (r: bool) {
        let mut i: usize = 0;
        while i < 20
            invariant
                i <= 20,
                forall|j: int| 0 <= j < i ==> self.0[j] == other.0[j],
            decreases 20 - i,
        {
            if self.0[i] != other.0[i] {
                return false;
            }
            i += 1;
        }
        proof {
            assert(self.0 =~= other.0);
        }
        true
    }
}

impl PartialEqSpecImpl for Address {
    open spec fn obeys_eq_spec() -> bool {
        true
    }

    open spec fn eq_spec(&self, other: &Address) -> bool {
        *self == *other
    }
}

/// Identifier of a content item: the address of the contract instance that
/// stores it.
#[derive(Clone, Copy, Debug, Eq, Hash)]
pub struct Cid(pub Address);

impl Cid {
    /// `self` comes strictly before `other` in the order of the underlying
    /// addresses.
    pub open spec fn precedes(self, other: Cid) -> bool {
        self.0.precedes(other.0)
    }

    /// Decides the order on content ids.
    pub fn is_before(&self, other: &Cid) -> (r: bool)
        ensures
            r == self.precedes(*other),
    {
        self.0.is_before(&other.0)
    }

    /// Of two content ids, either they are equal or exactly one precedes the
    /// other.
    pub proof fn lemma_total_order(a: Cid, b: Cid)
        ensures
            a == b || a.precedes(b) || b.precedes(a),
            a.precedes(b) ==> a != b && !b.precedes(a),
    {
        Address::lemma_total_order(a.0, b.0);
    }

    /// The order on content ids is transitive.
    pub proof fn lemma_precedes_transitive(a: Cid, b: Cid, c: Cid)
        requires
            a.precedes(b),
            b.precedes(c),
        ensures
            a.precedes(c),
    {
        Address::lemma_precedes_transitive(a.0, b.0, c.0);
    }
}

impl PartialEq for Cid {
    fn eq(&self, other: &Cid) -> (r: bool) {
        self.0 == other.0
    }
}

impl PartialEqSpecImpl for Cid {
    open spec fn obeys_eq_spec() -> bool {
        true
    }

    open spec fn eq_spec(&self, other: &Cid) -> bool {
        *self == *other
    }
}

/// A copy of the bytes `v`.
pub fn copy_bytes(v: &Vec<u8>) -> (r: Vec<u8>)
    ensures
        r@ == v@,
{
    let mut bytes: Vec<u8> = Vec::new();
    let mut i: usize = 0;
    while i < v.len()
        invariant
            i <= v.len(),
            bytes@ == v@.subrange(0, i as int),
        decreases v.len() - i,
    {
        bytes.push(v[i]);
        proof {
            assert(bytes@ =~= v@.subrange(0, i + 1));
        }
        i += 1;
    }
    proof {
        assert(bytes@ =~= v@);
    }
    bytes
}

/// A copy of the text `text`, if there is one.
pub fn copy_text(text: &Option<String>) -> (r: Option<String>)
    ensures
        r == *text,
{
    match text {
        Some(t) => Some(t.clone()),
        None => None,
    }
}

/// A public key, as raw bytes. The empty key marks unencrypted content.
#[derive(Clone, Debug, Eq)]
pub struct PublicKey(pub Vec<u8>);

impl View for PublicKey {
    type V = Seq<u8>;

    open spec fn view(&self) -> Seq<u8> {
        self.0@
    }
}

impl PublicKey {
    /// A copy of the key.
    pub fn duplicate(&self) -> (r: PublicKey)
        ensures
            r@ == self@,
    {
        PublicKey(copy_bytes(&self.0))
    }

    /// Whether the key is the empty key.
    pub fn is_empty(&self) -> (r: bool)
        ensures
            r == (self@.len() == 0),
    {
        self.0.len() == 0
    }
}

impl PartialEq for PublicKey {
    fn eq(&self, other: &PublicKey) -> (r: bool) {
        if self.0.len() != other.0.len() {
            return false;
        }
        let mut i: usize = 0;
        while i < self.0.len()
            invariant
                i <= self.0.len(),
                self.0.len() == other.0.len(),
                forall|j: int| 0 <= j < i ==> self.0@[j] == other.0@[j],
            decreases self.0.len() - i,
        {
            if self.0[i] != other.0[i] {
                return false;
            }
            i += 1;
        }
        proof {
            assert(self.0@ =~= other.0@);
        }
        true
    }
}

impl PartialEqSpecImpl for PublicKey {
    open spec fn obeys_eq_spec() -> bool {
        true
    }

    open spec fn eq_spec(&self, other: &PublicKey) -> bool {
        self@ == other@
    }
}

/// What a storage contract says of the content that it holds.
#[derive(Clone, Debug, PartialEq, Eq)]
pub struct Metadata {
    pub name: String,
    pub description: Option<String>,
    pub pub_key: PublicKey,
    pub owner: Address,
    pub versioned: bool,
}

impl Metadata {
    /// A copy of the record.
    pub fn duplicate(&self) -> (r: Metadata)
        ensures
            r.name == self.name,
            r.description == self.description,
            r.pub_key@ == self.pub_key@,
            r.owner == self.owner,
            r.versioned == self.versioned,
    {
        Metadata {
            name: self.name.clone(),
            description: copy_text(&self.description),
            pub_key: self.pub_key.duplicate(),
            owner: self.owner,
            versioned: self.versioned,
        }
    }
}

/// The bytes of a content item.
#[derive(Clone, Debug, PartialEq, Eq)]
pub struct Content(pub Vec<u8>);

impl Content {
    /// A copy of the content.
    pub fn duplicate(&self) -> (r: Content)
        ensures
            r.0@ == self.0@,
    {
        Content(copy_bytes(&self.0))
    }
}

/// What a score board says of itself.
#[derive(Clone, Debug, PartialEq, Eq)]
pub struct ScoreBoardMetadata {
    pub name: String,
    pub description: Option<String>,
    pub game_id: String,
    pub session_id: String,
}

impl ScoreBoardMetadata {
    /// A copy of the record.
    pub fn duplicate(&self) -> (r: ScoreBoardMetadata)
        ensures
            r == *self,
    {
        ScoreBoardMetadata {
            name: self.name.clone(),
            description: copy_text(&self.description),
            game_id: self.game_id.clone(),
            session_id: self.session_id.clone(),
        }
    }
}

/// The bytes of an event that a player reports.
#[derive(Clone, Debug, PartialEq, Eq)]
pub struct EventData(pub Vec<u8>);

impl EventData {
    /// A copy of the event.
    pub fn duplicate(&self) -> (r: EventData)
        ensures
            r.0@ == self.0@,
    {
        EventData(copy_bytes(&self.0))
    }
}

} // verus!
