//! A multi-token ledger: for each account the amount it holds of each
//! token, and for each account the operators that may move its tokens.

use crate::assoc::{
    assoc_map, has_key, keys_distinct, lemma_assoc_absent, lemma_assoc_at, lemma_assoc_push,
    lemma_assoc_remove, lemma_assoc_update, position,
};
use crate::types::Address;
use vstd::prelude::*;
use vstd::string::StringExecFns;

verus! {

/// What the ledger says of itself.
#[derive(Clone, Debug, PartialEq, Eq)]
pub struct NFTMetadata {
    pub name: String,
    pub icon: Option<String>,
    pub uri: String,
}

/// Bytes that come with a transfer. The ledger has no use for them.
#[derive(Clone, Debug, PartialEq, Eq)]
pub struct Base64Data(pub Vec<u8>);

/// Why an operation on the ledger failed. A failed operation leaves the
/// ledger as it was.
#[derive(Clone, Copy, Debug, PartialEq, Eq, Structural, Hash)]
pub enum NftError {
    /// The caller is not the owner of the contract.
    NotContractOwner,
    /// The ledger has been set up before.
    AlreadyInitialized,
    /// The ledger has not been set up yet.
    NotInitialized,
    /// The account holds none of the token.
    NoFund,
    /// The account holds less of the token than is to be taken.
    NotEnoughFund,
    /// The amount held would no longer fit in 128 bits.
    IntegerOverflow,
    /// Tokens cannot be moved to the zero address.
    ZeroAddress,
    /// The caller is neither the holder nor an approved operator of it.
    NotAuthorized,
    /// Two lists that go together differ in length.
    LengthMismatch,
}

/// The character of the decimal digit `d`.
pub open spec fn digit_char(d: int) -> char {
    if d == 0 {
        '0'
    } else if d == 1 {
        '1'
    } else if d == 2 {
        '2'
    } else if d == 3 {
        '3'
    } else if d == 4 {
        '4'
    } else if d == 5 {
        '5'
    } else if d == 6 {
        '6'
    } else if d == 7 {
        '7'
    } else if d == 8 {
        '8'
    } else {
        '9'
    }
}

/// The decimal numeral of `n`, without leading zeros.
pub open spec fn decimal_digits(n: nat) -> Seq<char>
    decreases n,
{
    if n < 10 {
        seq![digit_char(n as int)]
    } else {
        decimal_digits(n / 10).push(digit_char((n % 10) as int))
    }
}

/// The decimal digit `d` as a string.
pub fn digit_str(d: u128) -> (r: &'static str)
    requires
        d < 10,
    ensures
        r@ == seq![digit_char(d as int)],
{
    proof {
        reveal_strlit("0");
        reveal_strlit("1");
        reveal_strlit("2");
        reveal_strlit("3");
        reveal_strlit("4");
        reveal_strlit("5");
        reveal_strlit("6");
        reveal_strlit("7");
        reveal_strlit("8");
        reveal_strlit("9");
    }
    let r = if d == 0 {
        "0"
    } else if d == 1 {
        "1"
    } else if d == 2 {
        "2"
    } else if d == 3 {
        "3"
    } else if d == 4 {
        "4"
    } else if d == 5 {
        "5"
    } else if d == 6 {
        "6"
    } else if d == 7 {
        "7"
    } else if d == 8 {
        "8"
    } else {
        "9"
    };
    proof {
        assert(r@ =~= seq![digit_char(d as int)]);
    }
    r
}

/// The decimal numeral of `n`.
pub fn decimal(n: u128) -> (r: String)
    ensures
        r@ == decimal_digits(n as nat),
    decreases n,
{
    if n < 10 {
        String::from_str(digit_str(n))
    } else {
        let r = decimal(n / 10).concat(digit_str(n % 10));
        proof {
            assert(r@ =~= decimal_digits((n / 10) as nat).push(digit_char((n % 10) as int)));
        }
        r
    }
}

/// The amounts of tokens by token id.
pub type Tokens = Map<u128, u128>;

/// The amounts held, by account and token id.
pub type Balances = Map<Address, Tokens>;

/// The operators of each account, each with whether it is approved.
pub type Approvals = Map<Address, Map<Address, bool>>;

/// The amount of token `id` that `account` holds.
pub open spec fn balance(balances: Balances, account: Address, id: u128) -> u128 {
    if balances.contains_key(account) && balances[account].contains_key(id) {
        balances[account][id]
    } else {
        0
    }
}

/// Whether `operator` may move the tokens of `owner`.
pub open spec fn approved_for_all(approvals: Approvals, owner: Address, operator: Address) -> bool {
    approvals.contains_key(owner) && approvals[owner].contains_key(operator)
        && approvals[owner][operator]
}

/// The balances after `amount` of token `id` is added to what `account`
/// holds, or taken from it where `decrease` is set. An amount that falls to
/// zero is dropped from the account. An amount can only be taken from an
/// entry that exists. Where a new entry is made, it holds `amount` even
/// where that is zero.
pub open spec fn updated(
    balances: Balances,
    account: Address,
    id: u128,
    amount: u128,
    decrease: bool,
) -> Result<Balances, NftError> {
    if balances.contains_key(account) {
        let tokens = balances[account];
        if tokens.contains_key(id) {
            if decrease && tokens[id] < amount {
                Err(NftError::NotEnoughFund)
            } else if !decrease && tokens[id] + amount > u128::MAX {
                Err(NftError::IntegerOverflow)
            } else {
                let left = if decrease {
                    (tokens[id] - amount) as u128
                } else {
                    (tokens[id] + amount) as u128
                };
                if left == 0 {
                    Ok(balances.insert(account, tokens.remove(id)))
                } else {
                    Ok(balances.insert(account, tokens.insert(id, left)))
                }
            }
        } else if decrease {
            Err(NftError::NoFund)
        } else {
            Ok(balances.insert(account, tokens.insert(id, amount)))
        }
    } else if decrease {
        Err(NftError::NoFund)
    } else {
        Ok(balances.insert(account, Map::<u128, u128>::empty().insert(id, amount)))
    }
}

/// The tokens of the sender and of the receiver after the first `n` of the
/// transfers `ids` and `values` have been made between them, one after the
/// other: each takes its amount from the sender, who must have an entry for
/// the token that holds as much, and adds it to what the receiver holds.
pub open spec fn moved(from: Tokens, to: Tokens, ids: Seq<u128>, values: Seq<u128>, n: nat)
    -> Result<(Tokens, Tokens), NftError>
    decreases n,
{
    if n == 0 {
        Ok((from, to))
    } else {
        match moved(from, to, ids, values, (n - 1) as nat) {
            Err(e) => Err(e),
            Ok((from, to)) => {
                let id = ids[n - 1];
                let amount = values[n - 1];
                let held = if to.contains_key(id) {
                    to[id]
                } else {
                    0
                };
                if !from.contains_key(id) || from[id] < amount {
                    Err(NftError::NotEnoughFund)
                } else if held + amount > u128::MAX {
                    Err(NftError::IntegerOverflow)
                } else {
                    Ok(
                        (
                            from.insert(id, (from[id] - amount) as u128),
                            to.insert(id, (held + amount) as u128),
                        ),
                    )
                }
            },
        }
    }
}

/// A batch of transfers that fails at one of its transfers fails in the same
/// way however many transfers follow.
pub proof fn lemma_moved_failure_stays(
    from: Tokens,
    to: Tokens,
    ids: Seq<u128>,
    values: Seq<u128>,
    k: nat,
    n: nat,
)
    requires
        k <= n,
        moved(from, to, ids, values, k) is Err,
    ensures
        moved(from, to, ids, values, n) == moved(from, to, ids, values, k),
    decreases n,
{
    if k < n {
        lemma_moved_failure_stays(from, to, ids, values, k, (n - 1) as nat);
    }
}

/// The state of the ledger as a mathematical value.
pub struct NftState {
    pub balances: Balances,
    pub approvals: Approvals,
}

impl NftState {
    /// The owner of the contract mints `amount` of token `id` for `to`.
    pub open spec fn mint(
        self,
        caller: Address,
        contract_owner: Address,
        to: Address,
        id: u128,
        amount: u128,
    ) -> Result<NftState, NftError> {
        if caller != contract_owner {
            Err(NftError::NotContractOwner)
        } else {
            match updated(self.balances, to, id, amount, false) {
                Ok(balances) => Ok(NftState { balances, ..self }),
                Err(e) => Err(e),
            }
        }
    }

    /// The owner of the contract burns `amount` of token `id` that
    /// `account` holds.
    pub open spec fn burn(
        self,
        caller: Address,
        contract_owner: Address,
        account: Address,
        id: u128,
        amount: u128,
    ) -> Result<NftState, NftError> {
        if caller != contract_owner {
            Err(NftError::NotContractOwner)
        } else {
            match updated(self.balances, account, id, amount, true) {
                Ok(balances) => Ok(NftState { balances, ..self }),
                Err(e) => Err(e),
            }
        }
    }

    /// `caller` says whether `operator` may move its tokens.
    pub open spec fn set_approval_for_all(self, caller: Address, operator: Address, approved: bool)
        -> NftState {
        let row = if self.approvals.contains_key(caller) {
            self.approvals[caller]
        } else {
            Map::empty()
        };
        NftState { approvals: self.approvals.insert(caller, row.insert(operator, approved)), ..self }
    }

    /// Whether `caller` may move the tokens of `from`.
    pub open spec fn may_move(self, caller: Address, from: Address) -> bool {
        caller == from || approved_for_all(self.approvals, from, caller)
    }

    /// `caller` moves `amount` of token `id` from `from` to `to`.
    pub open spec fn safe_transfer_from(
        self,
        caller: Address,
        from: Address,
        to: Address,
        id: u128,
        amount: u128,
    ) -> Result<NftState, NftError> {
        if to.is_zero() {
            Err(NftError::ZeroAddress)
        } else if !self.may_move(caller, from) {
            Err(NftError::NotAuthorized)
        } else {
            match updated(self.balances, from, id, amount, true) {
                Err(e) => Err(e),
                Ok(taken) => match updated(taken, to, id, amount, false) {
                    Err(e) => Err(e),
                    Ok(balances) => Ok(NftState { balances, ..self }),
                },
            }
        }
    }

    /// `caller` moves, for each index, `values[i]` of token `ids[i]` from
    /// `from` to `to`. The receiver gets an entry in the ledger if it has
    /// none. The tokens of the receiver are worked out from what it held
    /// before the call and are written last: where the sender is the
    /// receiver, they are what is written.
    pub open spec fn safe_batch_transfer_from(
        self,
        caller: Address,
        from: Address,
        to: Address,
        ids: Seq<u128>,
        values: Seq<u128>,
    ) -> Result<NftState, NftError> {
        if ids.len() != values.len() {
            Err(NftError::LengthMismatch)
        } else if to.is_zero() {
            Err(NftError::ZeroAddress)
        } else if !self.may_move(caller, from) {
            Err(NftError::NotAuthorized)
        } else {
            let base = if self.balances.contains_key(to) {
                self.balances
            } else {
                self.balances.insert(to, Map::empty())
            };
            if !base.contains_key(from) {
                Err(NftError::NotEnoughFund)
            } else {
                match moved(base[from], base[to], ids, values, ids.len()) {
                    Err(e) => Err(e),
                    Ok((from_tokens, to_tokens)) => Ok(
                        NftState {
                            balances: base.insert(from, from_tokens).insert(to, to_tokens),
                            ..self
                        },
                    ),
                }
            }
        }
    }
}

/// The amount that an account holds of one token.
#[derive(Clone, Copy, Debug, PartialEq, Eq, Structural)]
pub struct TokenBalance {
    pub id: u128,
    pub amount: u128,
}

/// The tokens of one account, by ascending token id.
#[derive(Clone, Debug, PartialEq, Eq)]
pub struct AccountTokens {
    pub account: Address,
    pub tokens: Vec<TokenBalance>,
}

/// The token ids of `s` ascend.
pub open spec fn ids_ascending(s: Seq<TokenBalance>) -> bool {
    forall|i: int, j: int| 0 <= i < j < s.len() ==> (#[trigger] s[i]).id < (#[trigger] s[j]).id
}

/// The tokens `s` as pairs of an id and an amount.
pub open spec fn token_entries(s: Seq<TokenBalance>) -> Seq<(u128, u128)> {
    Seq::new(s.len(), |i: int| (s[i].id, s[i].amount))
}

/// The tokens `s` as a map from ids to amounts.
pub open spec fn tokens_view(s: Seq<TokenBalance>) -> Tokens {
    assoc_map(token_entries(s))
}

/// Tokens with ascending ids have distinct ids.
pub proof fn lemma_ids_distinct(s: Seq<TokenBalance>)
    requires
        ids_ascending(s),
    ensures
        keys_distinct(token_entries(s)),
{
    assert forall|i: int, j: int| 0 <= i < j < token_entries(s).len() implies (
    #[trigger] token_entries(s)[i]).0 != (#[trigger] token_entries(s)[j]).0 by {
        assert(s[i].id < s[j].id);
    }
}

/// Decides whether the token ids of `tokens` ascend.
pub fn ids_ascend(tokens: &Vec<TokenBalance>) -> (r: bool)
    ensures
        r == ids_ascending(tokens@),
{
    if tokens.len() == 0 {
        return true;
    }
    let mut i: usize = 1;
    while i < tokens.len()
        invariant
            1 <= i <= tokens.len(),
            forall|a: int, b: int|
                0 <= a < b < i ==> (#[trigger] tokens@[a]).id < (#[trigger] tokens@[b]).id,
        decreases tokens.len() - i,
    {
        if tokens[i - 1].id >= tokens[i].id {
            proof {
                if ids_ascending(tokens@) {
                    assert(tokens@[i - 1].id < tokens@[i as int].id);
                }
            }
            return false;
        }
        proof {
            assert forall|a: int, b: int| 0 <= a < b < i + 1 implies (#[trigger] tokens@[a]).id < (
            #[trigger] tokens@[b]).id by {
                if b == i && a < i - 1 {
                    assert(tokens@[a].id < tokens@[i - 1].id);
                }
            }
        }
        i += 1;
    }
    true
}

/// The index in `tokens` of the token `id`, if it is there.
pub fn find_token(tokens: &Vec<TokenBalance>, id: u128) -> (r: Option<usize>)
    requires
        ids_ascending(tokens@),
    ensures
        match r {
            Some(i) => {
                &&& i < tokens.len()
                &&& tokens[i as int].id == id
                &&& tokens_view(tokens@).contains_key(id)
                &&& tokens_view(tokens@)[id] == tokens[i as int].amount
            },
            None => !tokens_view(tokens@).contains_key(id),
        },
{
    let mut i: usize = 0;
    while i < tokens.len()
        invariant
            ids_ascending(tokens@),
            i <= tokens.len(),
            forall|j: int| 0 <= j < i ==> tokens[j].id != id,
        decreases tokens.len() - i,
    {
        if tokens[i].id == id {
            proof {
                lemma_ids_distinct(tokens@);
                lemma_assoc_at(token_entries(tokens@), i as int);
            }
            return Some(i);
        }
        i += 1;
    }
    proof {
        lemma_assoc_absent(token_entries(tokens@), id);
    }
    None
}

/// Sets the amount of token `id` in `tokens` to `amount`, with a new entry
/// where there is none.
pub fn set_token(tokens: &mut Vec<TokenBalance>, id: u128, amount: u128)
    requires
        ids_ascending(old(tokens)@),
    ensures
        ids_ascending(final(tokens)@),
        tokens_view(final(tokens)@) == tokens_view(old(tokens)@).insert(id, amount),
{
    let mut p: usize = 0;
    while p < tokens.len() && tokens[p].id < id
        invariant
            p <= tokens.len(),
            *tokens == *old(tokens),
            forall|k: int| 0 <= k < p ==> (#[trigger] tokens@[k]).id < id,
        decreases tokens.len() - p,
    {
        p += 1;
    }
    let ghost before = old(tokens)@;
    proof {
        lemma_ids_distinct(before);
    }
    if p < tokens.len() && tokens[p].id == id {
        tokens[p].amount = amount;
        proof {
            lemma_assoc_update(token_entries(before), p as int, amount);
            assert(token_entries(tokens@) =~= token_entries(before).update(p as int, (id, amount)));
            assert forall|i: int, j: int| 0 <= i < j < tokens@.len() implies (
            #[trigger] tokens@[i]).id < (#[trigger] tokens@[j]).id by {
                assert(before[i].id < before[j].id);
            }
        }
    } else {
        tokens.insert(p, TokenBalance { id, amount });
        proof {
            let after = tokens@;
            let old_e = token_entries(before);
            let new_e = token_entries(after);
            assert forall|i: int, j: int| 0 <= i < j < after.len() implies (#[trigger] after[i]).id
                < (#[trigger] after[j]).id by {
                if j < p {
                    assert(before[i].id < before[j].id);
                } else if j == p {
                    assert(before[i].id < id);
                } else if i > p {
                    assert(before[i - 1].id < before[j - 1].id);
                } else if i == p {
                    assert(before[p as int].id > id);
                    if j - 1 > p {
                        assert(before[p as int].id < before[j - 1].id);
                    }
                } else {
                    assert(before[i].id < before[j - 1].id);
                }
            }
            lemma_ids_distinct(after);
            assert forall|x: u128| #[trigger]
                assoc_map(new_e).contains_key(x) <==> assoc_map(old_e).insert(
                    id,
                    amount,
                ).contains_key(x) by {
                if has_key(new_e, x) {
                    let k = position(new_e, x);
                    if k < p {
                        assert(old_e[k].0 == x);
                    } else if k > p {
                        assert(old_e[k - 1].0 == x);
                    }
                }
                if has_key(old_e, x) {
                    let k = position(old_e, x);
                    if k < p {
                        assert(new_e[k].0 == x);
                    } else {
                        assert(new_e[k + 1].0 == x);
                    }
                }
                if x == id {
                    assert(new_e[p as int].0 == x);
                }
            }
            assert forall|x: u128| #[trigger] assoc_map(new_e).contains_key(x) implies assoc_map(
                new_e,
            )[x] == assoc_map(old_e).insert(id, amount)[x] by {
                let k = position(new_e, x);
                lemma_assoc_at(new_e, k);
                if k < p {
                    assert(old_e[k] == new_e[k]);
                    lemma_assoc_at(old_e, k);
                } else if k > p {
                    assert(old_e[k - 1] == new_e[k]);
                    lemma_assoc_at(old_e, k - 1);
                }
            }
            assert(assoc_map(new_e) =~= assoc_map(old_e).insert(id, amount));
        }
    }
}

/// A copy of `tokens`.
pub fn copy_tokens(tokens: &Vec<TokenBalance>) -> (r: Vec<TokenBalance>)
    ensures
        r@ == tokens@,
{
    let mut out: Vec<TokenBalance> = Vec::new();
    let mut i: usize = 0;
    while i < tokens.len()
        invariant
            i <= tokens.len(),
            out@ == tokens@.subrange(0, i as int),
        decreases tokens.len() - i,
    {
        out.push(tokens[i]);
        proof {
            assert(out@ =~= tokens@.subrange(0, i + 1));
        }
        i += 1;
    }
    proof {
        assert(out@ =~= tokens@);
    }
    out
}

/// The operators of one account, each with whether it is approved.
#[derive(Clone, Debug, PartialEq, Eq)]
pub struct AccountApprovals {
    pub owner: Address,
    pub operators: Vec<OperatorApproval>,
}

/// Whether an operator is approved.
#[derive(Clone, Copy, Debug, PartialEq, Eq)]
pub struct OperatorApproval {
    pub operator: Address,
    pub approved: bool,
}

impl AccountApprovals {
    /// The operators as pairs of an address and whether it is approved.
    pub open spec fn entries(self) -> Seq<(Address, bool)> {
        Seq::new(
            self.operators.len() as nat,
            |i: int| (self.operators[i].operator, self.operators[i].approved),
        )
    }

    /// Decides whether no operator stands twice in the row.
    pub fn is_wf(&self) -> (r: bool)
        ensures
            r == keys_distinct(self.entries()),
    {
        let mut i: usize = 0;
        while i < self.operators.len()
            invariant
                i <= self.operators.len(),
                forall|a: int, b: int|
                    0 <= a < b < i ==> (#[trigger] self.operators[a]).operator != (
                    #[trigger] self.operators[b]).operator,
            decreases self.operators.len() - i,
        {
            let mut j: usize = 0;
            while j < i
                invariant
                    j <= i,
                    i < self.operators.len(),
                    forall|a: int|
                        0 <= a < j ==> (#[trigger] self.operators[a]).operator
                            != self.operators[i as int].operator,
                decreases i - j,
            {
                if self.operators[j].operator == self.operators[i].operator {
                    proof {
                        assert(self.entries()[j as int].0 == self.entries()[i as int].0);
                    }
                    return false;
                }
                j += 1;
            }
            i += 1;
        }
        proof {
            assert forall|a: int, b: int| 0 <= a < b < self.entries().len() implies (
            #[trigger] self.entries()[a]).0 != (#[trigger] self.entries()[b]).0 by {
                assert(self.operators[a].operator != self.operators[b].operator);
            }
        }
        true
    }

    /// The index of `operator`, if the account has said anything of it.
    pub fn find_operator(&self, operator: &Address) -> (r: Option<usize>)
        ensures
            match r {
                Some(i) => i < self.operators.len() && self.operators[i as int].operator
                    == *operator,
                None => forall|i: int|
                    0 <= i < self.operators.len() ==> self.operators[i].operator != *operator,
            },
    {
        let mut i: usize = 0;
        while i < self.operators.len()
            invariant
                i <= self.operators.len(),
                forall|j: int| 0 <= j < i ==> self.operators[j].operator != *operator,
            decreases self.operators.len() - i,
        {
            if self.operators[i].operator == *operator {
                return Some(i);
            }
            i += 1;
        }
        None
    }
}

impl View for AccountApprovals {
    type V = Map<Address, bool>;

    open spec fn view(&self) -> Map<Address, bool> {
        assoc_map(self.entries())
    }
}

/// The multi-token ledger.
#[derive(Clone, Debug, PartialEq, Eq)]
pub struct NftContract {
    pub metadata: NFTMetadata,
    pub balance_of: Vec<AccountTokens>,
    pub is_approved_for_all: Vec<AccountApprovals>,
}

impl View for NftContract {
    type V = NftState;

    open spec fn view(&self) -> NftState {
        NftState {
            balances: assoc_map(self.balance_entries()),
            approvals: assoc_map(self.approval_entries()),
        }
    }
}

impl NftContract {
    /// The rows of balances as pairs of an account and its tokens.
    pub open spec fn balance_entries(self) -> Seq<(Address, Tokens)> {
        Seq::new(
            self.balance_of.len() as nat,
            |i: int| (self.balance_of[i].account, tokens_view(self.balance_of[i].tokens@)),
        )
    }

    /// The rows of approvals as pairs of an account and its operators.
    pub open spec fn approval_entries(self) -> Seq<(Address, Map<Address, bool>)> {
        Seq::new(
            self.is_approved_for_all.len() as nat,
            |i: int| (self.is_approved_for_all[i].owner, self.is_approved_for_all[i]@),
        )
    }

    /// No account has two rows, no operator stands twice in a row, and the
    /// tokens of each account are kept by ascending id.
    pub open spec fn wf(self) -> bool {
        &&& keys_distinct(self.balance_entries())
        &&& forall|i: int|
            0 <= i < self.balance_of.len() ==> ids_ascending((#[trigger] self.balance_of[i]).tokens@)
        &&& keys_distinct(self.approval_entries())
        &&& forall|i: int|
            0 <= i < self.is_approved_for_all.len() ==> keys_distinct(
                (#[trigger] self.is_approved_for_all[i]).entries(),
            )
    }

    /// Decides whether the ledger is well-formed.
    pub fn is_wf(&self) -> (r: bool)
        ensures
            r == self.wf(),
    {
        let mut i: usize = 0;
        while i < self.balance_of.len()
            invariant
                i <= self.balance_of.len(),
                forall|a: int, b: int|
                    0 <= a < b < i ==> (#[trigger] self.balance_of[a]).account != (
                    #[trigger] self.balance_of[b]).account,
                forall|a: int| 0 <= a < i ==> ids_ascending((#[trigger] self.balance_of[a]).tokens@),
            decreases self.balance_of.len() - i,
        {
            if !ids_ascend(&self.balance_of[i].tokens) {
                return false;
            }
            let mut j: usize = 0;
            while j < i
                invariant
                    j <= i,
                    i < self.balance_of.len(),
                    forall|a: int|
                        0 <= a < j ==> (#[trigger] self.balance_of[a]).account
                            != self.balance_of[i as int].account,
                decreases i - j,
            {
                if self.balance_of[j].account == self.balance_of[i].account {
                    proof {
                        assert(self.balance_entries()[j as int].0 == self.balance_entries()[i as int].0);
                    }
                    return false;
                }
                j += 1;
            }
            i += 1;
        }
        proof {
            assert forall|a: int, b: int| 0 <= a < b < self.balance_entries().len() implies (
            #[trigger] self.balance_entries()[a]).0 != (#[trigger] self.balance_entries()[b]).0 by {
                assert(self.balance_of[a].account != self.balance_of[b].account);
            }
        }
        let mut i: usize = 0;
        while i < self.is_approved_for_all.len()
            invariant
                i <= self.is_approved_for_all.len(),
                forall|a: int, b: int|
                    0 <= a < b < i ==> (#[trigger] self.is_approved_for_all[a]).owner != (
                    #[trigger] self.is_approved_for_all[b]).owner,
                forall|a: int|
                    0 <= a < i ==> keys_distinct((#[trigger] self.is_approved_for_all[a]).entries()),
            decreases self.is_approved_for_all.len() - i,
        {
            if !self.is_approved_for_all[i].is_wf() {
                return false;
            }
            let mut j: usize = 0;
            while j < i
                invariant
                    j <= i,
                    i < self.is_approved_for_all.len(),
                    forall|a: int|
                        0 <= a < j ==> (#[trigger] self.is_approved_for_all[a]).owner
                            != self.is_approved_for_all[i as int].owner,
                decreases i - j,
            {
                if self.is_approved_for_all[j].owner == self.is_approved_for_all[i].owner {
                    proof {
                        assert(self.approval_entries()[j as int].0 == self.approval_entries()[i as int].0);
                    }
                    return false;
                }
                j += 1;
            }
            i += 1;
        }
        proof {
            assert forall|a: int, b: int| 0 <= a < b < self.approval_entries().len() implies (
            #[trigger] self.approval_entries()[a]).0 != (#[trigger] self.approval_entries()[b]).0 by {
                assert(self.is_approved_for_all[a].owner != self.is_approved_for_all[b].owner);
            }
        }
        true
    }

    /// Sets the ledger up. Only the owner of the contract may, and only
    /// once.
    pub fn new(caller: Address, contract_owner: Address, initialized: bool, metadata: NFTMetadata)
        -> (r: Result<NftContract, NftError>)
        ensures
            match r {
                Ok(c) => {
                    &&& caller == contract_owner
                    &&& !initialized
                    &&& c.wf()
                    &&& c.metadata == metadata
                    &&& c@.balances == Map::<Address, Tokens>::empty()
                    &&& c@.approvals == Map::<Address, Map<Address, bool>>::empty()
                },
                Err(e) => if caller != contract_owner {
                    e == NftError::NotContractOwner
                } else {
                    initialized && e == NftError::AlreadyInitialized
                },
            },
    {
        if caller != contract_owner {
            return Err(NftError::NotContractOwner);
        }
        if initialized {
            return Err(NftError::AlreadyInitialized);
        }
        let c = NftContract { metadata, balance_of: Vec::new(), is_approved_for_all: Vec::new() };
        proof {
            assert(c@.balances =~= Map::<Address, Tokens>::empty());
            assert(c@.approvals =~= Map::<Address, Map<Address, bool>>::empty());
        }
        Ok(c)
    }

    /// The stored ledger, if there is one: without one the ledger is not set
    /// up.
    pub fn load(stored: Option<NftContract>) -> (r: Result<NftContract, NftError>)
        ensures
            match r {
                Ok(c) => stored == Some(c),
                Err(e) => stored is None && e == NftError::NotInitialized,
            },
    {
        match stored {
            Some(c) => Ok(c),
            None => Err(NftError::NotInitialized),
        }
    }

    /// The name of the ledger.
    pub fn nft_name(&self) -> (r: String)
        ensures
            r@ == self.metadata.name@,
    {
        self.metadata.name.clone()
    }

    /// The icon of the ledger, if it has one.
    pub fn nft_icon(&self) -> (r: Option<String>)
        ensures
            match r {
                Some(icon) => self.metadata.icon matches Some(i) && icon@ == i@,
                None => self.metadata.icon is None,
            },
    {
        match &self.metadata.icon {
            Some(icon) => Some(icon.clone()),
            None => None,
        }
    }

    /// Where the description of token `id` is found: the address of the
    /// ledger, then the decimal numeral of the id, then `.json`.
    pub fn nft_uri(&self, id: u128) -> (r: String)
        ensures
            r@ == self.metadata.uri@ + decimal_digits(id as nat) + ".json"@,
    {
        let number = decimal(id);
        self.metadata.uri.clone().concat(number.as_str()).concat(".json")
    }

    /// The index of the row of balances of `account`, if there is one.
    pub fn find_account(&self, account: &Address) -> (r: Option<usize>)
        requires
            self.wf(),
        ensures
            match r {
                Some(i) => {
                    &&& i < self.balance_of.len()
                    &&& self.balance_of[i as int].account == *account
                    &&& self@.balances.contains_key(*account)
                    &&& self@.balances[*account] == tokens_view(self.balance_of[i as int].tokens@)
                },
                None => !self@.balances.contains_key(*account),
            },
    {
        let mut i: usize = 0;
        while i < self.balance_of.len()
            invariant
                self.wf(),
                i <= self.balance_of.len(),
                forall|j: int| 0 <= j < i ==> self.balance_of[j].account != *account,
            decreases self.balance_of.len() - i,
        {
            if self.balance_of[i].account == *account {
                proof {
                    lemma_assoc_at(self.balance_entries(), i as int);
                }
                return Some(i);
            }
            i += 1;
        }
        proof {
            lemma_assoc_absent(self.balance_entries(), *account);
        }
        None
    }

    /// The index of the row of approvals of `owner`, if there is one.
    pub fn find_approvals(&self, owner: &Address) -> (r: Option<usize>)
        requires
            self.wf(),
        ensures
            match r {
                Some(i) => {
                    &&& i < self.is_approved_for_all.len()
                    &&& self.is_approved_for_all[i as int].owner == *owner
                    &&& self@.approvals.contains_key(*owner)
                    &&& self@.approvals[*owner] == self.is_approved_for_all[i as int]@
                },
                None => !self@.approvals.contains_key(*owner),
            },
    {
        let mut i: usize = 0;
        while i < self.is_approved_for_all.len()
            invariant
                self.wf(),
                i <= self.is_approved_for_all.len(),
                forall|j: int| 0 <= j < i ==> self.is_approved_for_all[j].owner != *owner,
            decreases self.is_approved_for_all.len() - i,
        {
            if self.is_approved_for_all[i].owner == *owner {
                proof {
                    lemma_assoc_at(self.approval_entries(), i as int);
                }
                return Some(i);
            }
            i += 1;
        }
        proof {
            lemma_assoc_absent(self.approval_entries(), *owner);
        }
        None
    }

    /// Replaces the tokens in the row at index `i`.
    fn set_row(&mut self, i: usize, tokens: Vec<TokenBalance>)
        requires
            old(self).wf(),
            i < old(self).balance_of.len(),
            ids_ascending(tokens@),
        ensures
            final(self).wf(),
            final(self)@.approvals == old(self)@.approvals,
            final(self).metadata == old(self).metadata,
            final(self).is_approved_for_all == old(self).is_approved_for_all,
            final(self)@.balances == old(self)@.balances.insert(
                old(self).balance_of[i as int].account,
                tokens_view(tokens@),
            ),
    {
        self.balance_of[i].tokens = tokens;
        proof {
            lemma_assoc_update(old(self).balance_entries(), i as int, tokens_view(tokens@));
            assert(self.balance_entries() =~= old(self).balance_entries().update(
                i as int,
                (old(self).balance_of[i as int].account, tokens_view(tokens@)),
            ));
            assert(self.approval_entries() =~= old(self).approval_entries());
            assert forall|k: int| 0 <= k < self.balance_of.len() implies ids_ascending(
                (#[trigger] self.balance_of[k]).tokens@,
            ) by {
                if k != i {
                    assert(self.balance_of[k] == old(self).balance_of[k]);
                }
            }
        }
    }

    /// Appends a row of balances for `account`, which has none.
    fn push_row(&mut self, account: Address, tokens: Vec<TokenBalance>)
        requires
            old(self).wf(),
            !old(self)@.balances.contains_key(account),
            ids_ascending(tokens@),
        ensures
            final(self).wf(),
            final(self)@.approvals == old(self)@.approvals,
            final(self).metadata == old(self).metadata,
            final(self).is_approved_for_all == old(self).is_approved_for_all,
            final(self).balance_of@ == old(self).balance_of@.push(AccountTokens { account, tokens }),
            final(self)@.balances == old(self)@.balances.insert(account, tokens_view(tokens@)),
    {
        proof {
            lemma_assoc_push(old(self).balance_entries(), account, tokens_view(tokens@));
        }
        self.balance_of.push(AccountTokens { account, tokens });
        proof {
            assert(self.balance_entries() =~= old(self).balance_entries().push(
                (account, tokens_view(tokens@)),
            ));
            assert(self.approval_entries() =~= old(self).approval_entries());
            assert forall|k: int| 0 <= k < self.balance_of.len() implies ids_ascending(
                (#[trigger] self.balance_of[k]).tokens@,
            ) by {
                if k < old(self).balance_of.len() {
                    assert(self.balance_of[k] == old(self).balance_of[k]);
                }
            }
        }
    }

    /// Adds `amount` of token `id` to what `account` holds, or takes it from
    /// that where `decrease` is set.
    ///
    /// Fails with `NoFund` where an amount is to be taken and the account
    /// has no entry for the token, with `NotEnoughFund` where the entry
    /// holds less, and with `IntegerOverflow` where the sum does not fit in
    /// 128 bits.
    pub fn internal_balance_update(
        &mut self,
        account: Address,
        id: u128,
        amount: u128,
        decrease: bool,
    ) -> (r: Result<(), NftError>)
        requires
            old(self).wf(),
        ensures
            final(self).wf(),
            final(self)@.approvals == old(self)@.approvals,
            final(self).metadata == old(self).metadata,
            match r {
                Ok(()) => updated(old(self)@.balances, account, id, amount, decrease) == Ok::<
                    Balances,
                    NftError,
                >(final(self)@.balances),
                Err(e) => {
                    &&& updated(old(self)@.balances, account, id, amount, decrease) == Err::<
                        Balances,
                        NftError,
                    >(e)
                    &&& *final(self) == *old(self)
                },
            },
    {
        match self.find_account(&account) {
            Some(i) => {
                proof {
                    assert(ids_ascending(self.balance_of[i as int].tokens@));
                    lemma_ids_distinct(self.balance_of[i as int].tokens@);
                }
                match find_token(&self.balance_of[i].tokens, id) {
                    Some(j) => {
                        let held = self.balance_of[i].tokens[j].amount;
                        let left = if decrease {
                            match held.checked_sub(amount) {
                                Some(left) => left,
                                None => {
                                    return Err(NftError::NotEnoughFund);
                                },
                            }
                        } else {
                            match held.checked_add(amount) {
                                Some(left) => left,
                                None => {
                                    return Err(NftError::IntegerOverflow);
                                },
                            }
                        };
                        let mut tokens = copy_tokens(&self.balance_of[i].tokens);
                        if left == 0 {
                            tokens.remove(j);
                            proof {
                                let before = self.balance_of[i as int].tokens@;
                                lemma_assoc_remove(token_entries(before), j as int);
                                assert(token_entries(tokens@) =~= token_entries(before).remove(
                                    j as int,
                                ));
                                assert forall|a: int, b: int|
                                    0 <= a < b < tokens@.len() implies (#[trigger] tokens@[a]).id < (
                                #[trigger] tokens@[b]).id by {
                                    let a2 = if a < j {
                                        a
                                    } else {
                                        a + 1
                                    };
                                    let b2 = if b < j {
                                        b
                                    } else {
                                        b + 1
                                    };
                                    assert(before[a2].id < before[b2].id);
                                }
                            }
                        } else {
                            set_token(&mut tokens, id, left);
                        }
                        self.set_row(i, tokens);
                        Ok(())
                    },
                    None => {
                        if decrease {
                            return Err(NftError::NoFund);
                        }
                        let mut tokens = copy_tokens(&self.balance_of[i].tokens);
                        set_token(&mut tokens, id, amount);
                        self.set_row(i, tokens);
                        Ok(())
                    },
                }
            },
            None => {
                if decrease {
                    return Err(NftError::NoFund);
                }
                let mut tokens: Vec<TokenBalance> = Vec::new();
                proof {
                    assert(tokens_view(tokens@) =~= Map::<u128, u128>::empty());
                }
                set_token(&mut tokens, id, amount);
                self.push_row(account, tokens);
                Ok(())
            },
        }
    }

    /// The owner of the contract mints `amount` of token `id` for `to`.
    pub fn nft_mint_id(
        &mut self,
        caller: Address,
        contract_owner: Address,
        to: Address,
        id: u128,
        amount: u128,
    ) -> (r: Result<(), NftError>)
        requires
            old(self).wf(),
        ensures
            final(self).wf(),
            final(self).metadata == old(self).metadata,
            match r {
                Ok(()) => old(self)@.mint(caller, contract_owner, to, id, amount) == Ok::<
                    NftState,
                    NftError,
                >(final(self)@),
                Err(e) => {
                    &&& old(self)@.mint(caller, contract_owner, to, id, amount) == Err::<
                        NftState,
                        NftError,
                    >(e)
                    &&& *final(self) == *old(self)
                },
            },
    {
        if caller != contract_owner {
            return Err(NftError::NotContractOwner);
        }
        self.internal_balance_update(to, id, amount, false)
    }

    /// The owner of the contract burns `amount` of token `id` that
    /// `account` holds.
    pub fn nft_burn(
        &mut self,
        caller: Address,
        contract_owner: Address,
        account: Address,
        id: u128,
        amount: u128,
    ) -> (r: Result<(), NftError>)
        requires
            old(self).wf(),
        ensures
            final(self).wf(),
            final(self).metadata == old(self).metadata,
            match r {
                Ok(()) => old(self)@.burn(caller, contract_owner, account, id, amount) == Ok::<
                    NftState,
                    NftError,
                >(final(self)@),
                Err(e) => {
                    &&& old(self)@.burn(caller, contract_owner, account, id, amount) == Err::<
                        NftState,
                        NftError,
                    >(e)
                    &&& *final(self) == *old(self)
                },
            },
    {
        if caller != contract_owner {
            return Err(NftError::NotContractOwner);
        }
        self.internal_balance_update(account, id, amount, true)
    }

    /// `caller` says whether `operator` may move its tokens.
    pub fn nft_set_approval_for_all(&mut self, caller: Address, operator: Address, approved: bool)
        requires
            old(self).wf(),
        ensures
            final(self).wf(),
            final(self).metadata == old(self).metadata,
            final(self)@ == old(self)@.set_approval_for_all(caller, operator, approved),
    {
        match self.find_approvals(&caller) {
            Some(i) => {
                let ghost old_row = self.is_approved_for_all[i as int];
                proof {
                    assert(keys_distinct(old_row.entries()));
                }
                match self.is_approved_for_all[i].find_operator(&operator) {
                    Some(j) => {
                        self.is_approved_for_all[i].operators[j].approved = approved;
                        proof {
                            let new_row = self.is_approved_for_all[i as int];
                            lemma_assoc_update(old_row.entries(), j as int, approved);
                            assert(new_row.entries() =~= old_row.entries().update(
                                j as int,
                                (operator, approved),
                            ));
                        }
                    },
                    None => {
                        self.is_approved_for_all[i].operators.push(
                            OperatorApproval { operator, approved },
                        );
                        proof {
                            let new_row = self.is_approved_for_all[i as int];
                            lemma_assoc_absent(old_row.entries(), operator);
                            lemma_assoc_push(old_row.entries(), operator, approved);
                            assert(new_row.entries() =~= old_row.entries().push(
                                (operator, approved),
                            ));
                        }
                    },
                }
                proof {
                    let new_row = self.is_approved_for_all[i as int];
                    lemma_assoc_update(old(self).approval_entries(), i as int, new_row@);
                    assert(self.approval_entries() =~= old(self).approval_entries().update(
                        i as int,
                        (caller, new_row@),
                    ));
                    assert(self.balance_entries() =~= old(self).balance_entries());
                    assert forall|k: int|
                        0 <= k < self.is_approved_for_all.len() implies keys_distinct(
                        (#[trigger] self.is_approved_for_all[k]).entries(),
                    ) by {
                        if k != i {
                            assert(self.is_approved_for_all[k] == old(self).is_approved_for_all[k]);
                        }
                    }
                }
            },
            None => {
                let mut operators: Vec<OperatorApproval> = Vec::new();
                operators.push(OperatorApproval { operator, approved });
                let row = AccountApprovals { owner: caller, operators };
                proof {
                    let none = Seq::<(Address, bool)>::empty();
                    assert(row.entries() =~= none.push((operator, approved)));
                    lemma_assoc_push(none, operator, approved);
                    assert(assoc_map(none) =~= Map::<Address, bool>::empty());
                    lemma_assoc_push(old(self).approval_entries(), caller, row@);
                }
                self.is_approved_for_all.push(row);
                proof {
                    assert(self.approval_entries() =~= old(self).approval_entries().push(
                        (caller, row@),
                    ));
                    assert(self.balance_entries() =~= old(self).balance_entries());
                    assert forall|k: int|
                        0 <= k < self.is_approved_for_all.len() implies keys_distinct(
                        (#[trigger] self.is_approved_for_all[k]).entries(),
                    ) by {
                        if k < old(self).is_approved_for_all.len() {
                            assert(self.is_approved_for_all[k] == old(self).is_approved_for_all[k]);
                        }
                    }
                }
            },
        }
    }

    /// Whether `operator` may move the tokens of `owner`.
    pub fn nft_is_approved_for_all(&self, owner: &Address, operator: &Address) -> (r: bool)
        requires
            self.wf(),
        ensures
            r == approved_for_all(self@.approvals, *owner, *operator),
    {
        match self.find_approvals(owner) {
            None => false,
            Some(i) => {
                let row = &self.is_approved_for_all[i];
                proof {
                    assert(keys_distinct(row.entries()));
                }
                match row.find_operator(operator) {
                    None => {
                        proof {
                            lemma_assoc_absent(row.entries(), *operator);
                        }
                        false
                    },
                    Some(j) => {
                        proof {
                            lemma_assoc_at(row.entries(), j as int);
                        }
                        row.operators[j].approved
                    },
                }
            },
        }
    }

    /// Whether `caller` may move the tokens of `from`: it is `from` itself
    /// or an approved operator of it.
    pub fn caller_is_approved(&self, caller: &Address, from: &Address) -> (r: bool)
        requires
            self.wf(),
        ensures
            r == self@.may_move(*caller, *from),
    {
        if *caller == *from {
            return true;
        }
        self.nft_is_approved_for_all(from, caller)
    }

    /// `caller` moves `amount` of token `id` from `from` to `to`. Nothing is
    /// done with `calldata`.
    ///
    /// Fails with `ZeroAddress` where `to` is the zero address, else with
    /// `NotAuthorized` where `caller` is neither `from` nor an approved
    /// operator of it, else as taking the amount from `from` fails, else as
    /// adding it to `to` fails.
    pub fn nft_safe_transfer_from(
        &mut self,
        caller: Address,
        from: Address,
        to: Address,
        id: u128,
        amount: u128,
        calldata: Base64Data,
    ) -> (r: Result<(), NftError>)
        requires
            old(self).wf(),
        ensures
            final(self).wf(),
            final(self).metadata == old(self).metadata,
            match r {
                Ok(()) => old(self)@.safe_transfer_from(caller, from, to, id, amount) == Ok::<
                    NftState,
                    NftError,
                >(final(self)@),
                Err(e) => {
                    &&& old(self)@.safe_transfer_from(caller, from, to, id, amount) == Err::<
                        NftState,
                        NftError,
                    >(e)
                    &&& final(self)@ == old(self)@
                },
            },
    {
        if to.is_zero_address() {
            return Err(NftError::ZeroAddress);
        }
        if !self.caller_is_approved(&caller, &from) {
            return Err(NftError::NotAuthorized);
        }
        // What the sender holds of the token now, to give it back where the
        // receiver cannot take the amount.
        let held = self.nft_balance_of(from, id);
        if let Err(e) = self.internal_balance_update(from, id, amount, true) {
            return Err(e);
        }
        let ghost taken = self@.balances;
        match self.internal_balance_update(to, id, amount, false) {
            Ok(()) => Ok(()),
            Err(e) => {
                self.restore_token(from, id, held);
                proof {
                    let before = old(self)@.balances;
                    assert(before.contains_key(from) && before[from].contains_key(id));
                    assert(taken.contains_key(from));
                    assert(taken[from].insert(id, held) =~= before[from]);
                    assert(self@.balances =~= before);
                }
                Err(e)
            },
        }
    }

    /// `caller` moves, for each index, `values[i]` of token `ids[i]` from
    /// `from` to `to`, one after the other. The receiver gets a row in the
    /// ledger if it has none. An amount of the sender that falls to zero
    /// keeps its entry. The tokens of the receiver are worked out from what
    /// it held before the call and are written last: where the sender is
    /// the receiver, they are what is written. Nothing is done with
    /// `calldata`.
    ///
    /// Fails with `LengthMismatch` where the lists differ in length, else
    /// with `ZeroAddress` where `to` is the zero address, else with
    /// `NotAuthorized` where `caller` is neither `from` nor an approved
    /// operator of it, else with `NotEnoughFund` where `from` has no row,
    /// else at the first transfer that cannot be made: with `NotEnoughFund`
    /// where the sender has no entry for the token or holds less, with
    /// `IntegerOverflow` where what the receiver holds would not fit in 128
    /// bits.
    pub fn nft_safe_batch_transfer_from(
        &mut self,
        caller: Address,
        from: Address,
        to: Address,
        ids: &Vec<u128>,
        values: &Vec<u128>,
        calldata: Base64Data,
    ) -> (r: Result<(), NftError>)
        requires
            old(self).wf(),
        ensures
            final(self).wf(),
            final(self).metadata == old(self).metadata,
            match r {
                Ok(()) => old(self)@.safe_batch_transfer_from(caller, from, to, ids@, values@)
                    == Ok::<NftState, NftError>(final(self)@),
                Err(e) => {
                    &&& old(self)@.safe_batch_transfer_from(caller, from, to, ids@, values@)
                        == Err::<NftState, NftError>(e)
                    &&& *final(self) == *old(self)
                },
            },
    {
        if ids.len() != values.len() {
            return Err(NftError::LengthMismatch);
        }
        if to.is_zero_address() {
            return Err(NftError::ZeroAddress);
        }
        if !self.caller_is_approved(&caller, &from) {
            return Err(NftError::NotAuthorized);
        }
        let ghost base = if self@.balances.contains_key(to) {
            self@.balances
        } else {
            self@.balances.insert(to, Map::<u128, u128>::empty())
        };
        let to_index = self.find_account(&to);
        let mut to_tokens: Vec<TokenBalance> = match to_index {
            Some(i) => {
                proof {
                    assert(ids_ascending(self.balance_of[i as int].tokens@));
                }
                copy_tokens(&self.balance_of[i].tokens)
            },
            None => {
                let none: Vec<TokenBalance> = Vec::new();
                proof {
                    assert(tokens_view(none@) =~= Map::<u128, u128>::empty());
                }
                none
            },
        };
        let from_index = self.find_account(&from);
        let mut from_tokens: Vec<TokenBalance> = match from_index {
            Some(i) => {
                proof {
                    assert(ids_ascending(self.balance_of[i as int].tokens@));
                }
                copy_tokens(&self.balance_of[i].tokens)
            },
            None => {
                if from != to {
                    return Err(NftError::NotEnoughFund);
                }
                let none: Vec<TokenBalance> = Vec::new();
                proof {
                    assert(tokens_view(none@) =~= Map::<u128, u128>::empty());
                }
                none
            },
        };
        let ghost from_start = tokens_view(from_tokens@);
        let ghost to_start = tokens_view(to_tokens@);
        proof {
            assert(base.contains_key(from));
            assert(base[from] == from_start);
            assert(base[to] == to_start);
        }
        let mut k: usize = 0;
        while k < ids.len()
            invariant
                *self == *old(self),
                self.wf(),
                !to.is_zero(),
                self@.may_move(caller, from),
                base == if self@.balances.contains_key(to) {
                    self@.balances
                } else {
                    self@.balances.insert(to, Map::<u128, u128>::empty())
                },
                base.contains_key(from),
                base[from] == from_start,
                base[to] == to_start,
                ids.len() == values.len(),
                k <= ids.len(),
                ids_ascending(from_tokens@),
                ids_ascending(to_tokens@),
                moved(from_start, to_start, ids@, values@, k as nat) == Ok::<
                    (Tokens, Tokens),
                    NftError,
                >((tokens_view(from_tokens@), tokens_view(to_tokens@))),
            decreases ids.len() - k,
        {
            let id = ids[k];
            let amount = values[k];
            let left = match find_token(&from_tokens, id) {
                None => {
                    proof {
                        lemma_moved_failure_stays(
                            from_start,
                            to_start,
                            ids@,
                            values@,
                            (k + 1) as nat,
                            ids@.len(),
                        );
                    }
                    return Err(NftError::NotEnoughFund);
                },
                Some(j) => match from_tokens[j].amount.checked_sub(amount) {
                    None => {
                        proof {
                            lemma_moved_failure_stays(
                                from_start,
                                to_start,
                                ids@,
                                values@,
                                (k + 1) as nat,
                                ids@.len(),
                            );
                        }
                        return Err(NftError::NotEnoughFund);
                    },
                    Some(left) => left,
                },
            };
            let held: u128 = match find_token(&to_tokens, id) {
                None => 0,
                Some(j) => to_tokens[j].amount,
            };
            let sum = match held.checked_add(amount) {
                None => {
                    proof {
                        lemma_moved_failure_stays(
                            from_start,
                            to_start,
                            ids@,
                            values@,
                            (k + 1) as nat,
                            ids@.len(),
                        );
                    }
                    return Err(NftError::IntegerOverflow);
                },
                Some(sum) => sum,
            };
            set_token(&mut from_tokens, id, left);
            set_token(&mut to_tokens, id, sum);
            k += 1;
        }
        let ghost from_end = tokens_view(from_tokens@);
        let ghost to_end = tokens_view(to_tokens@);
        match from_index {
            Some(i) => {
                self.set_row(i, from_tokens);
            },
            None => {},
        }
        match self.find_account(&to) {
            Some(i) => {
                self.set_row(i, to_tokens);
            },
            None => {
                self.push_row(to, to_tokens);
            },
        }
        proof {
            assert(self@.balances =~= base.insert(from, from_end).insert(to, to_end));
        }
        Ok(())
    }

    /// Whether `account` has an entry for token `id`.
    pub fn has_token(&self, account: &Address, id: u128) -> (r: bool)
        requires
            self.wf(),
        ensures
            r == (self@.balances.contains_key(*account) && self@.balances[*account].contains_key(
                id,
            )),
    {
        match self.find_account(account) {
            None => false,
            Some(i) => {
                proof {
                    assert(ids_ascending(self.balance_of[i as int].tokens@));
                }
                find_token(&self.balance_of[i].tokens, id).is_some()
            },
        }
    }

    /// Sets the amount that `account`, which has a row, holds of token `id`.
    fn restore_token(&mut self, account: Address, id: u128, amount: u128)
        requires
            old(self).wf(),
            old(self)@.balances.contains_key(account),
        ensures
            final(self).wf(),
            final(self).metadata == old(self).metadata,
            final(self)@.approvals == old(self)@.approvals,
            final(self)@.balances == old(self)@.balances.insert(
                account,
                old(self)@.balances[account].insert(id, amount),
            ),
    {
        match self.find_account(&account) {
            None => {},
            Some(i) => {
                proof {
                    assert(ids_ascending(self.balance_of[i as int].tokens@));
                }
                let mut tokens = copy_tokens(&self.balance_of[i].tokens);
                set_token(&mut tokens, id, amount);
                self.set_row(i, tokens);
            },
        }
    }

    /// The amount of token `id` that `owner` holds: zero where the ledger
    /// has no entry for it.
    pub fn nft_balance_of(&self, owner: Address, id: u128) -> (r: u128)
        requires
            self.wf(),
        ensures
            r == balance(self@.balances, owner, id),
    {
        match self.find_account(&owner) {
            None => 0,
            Some(i) => {
                proof {
                    assert(ids_ascending(self.balance_of[i as int].tokens@));
                }
                match find_token(&self.balance_of[i].tokens, id) {
                    None => 0,
                    Some(j) => self.balance_of[i].tokens[j].amount,
                }
            },
        }
    }

    /// For each index, the amount of token `ids[i]` that `owners[i]` holds.
    /// Fails with `LengthMismatch` where the lists differ in length.
    pub fn nft_balance_of_batch(&self, owners: &Vec<Address>, ids: &Vec<u128>) -> (r: Result<
        Vec<u128>,
        NftError,
    >)
        requires
            self.wf(),
        ensures
            match r {
                Ok(amounts) => {
                    &&& owners.len() == ids.len()
                    &&& amounts.len() == owners.len()
                    &&& forall|i: int|
                        0 <= i < amounts.len() ==> #[trigger] amounts[i] == balance(
                            self@.balances,
                            owners[i],
                            ids[i],
                        )
                },
                Err(e) => owners.len() != ids.len() && e == NftError::LengthMismatch,
            },
    {
        if owners.len() != ids.len() {
            return Err(NftError::LengthMismatch);
        }
        let mut out: Vec<u128> = Vec::new();
        let mut i: usize = 0;
        while i < owners.len()
            invariant
                self.wf(),
                owners.len() == ids.len(),
                i <= owners.len(),
                out.len() == i,
                forall|k: int|
                    0 <= k < i ==> #[trigger] out[k] == balance(self@.balances, owners[k], ids[k]),
            decreases owners.len() - i,
        {
            let amount = self.nft_balance_of(owners[i], ids[i]);
            out.push(amount);
            i += 1;
        }
        Ok(out)
    }

    /// The tokens of `owner` with their amounts, by ascending token id.
    /// Fails with `NotEnoughFund` where the ledger has no row for `owner`.
    pub fn nft_owned_tokens(&self, owner: Address) -> (r: Result<Vec<(u128, u128)>, NftError>)
        requires
            self.wf(),
        ensures
            match r {
                Ok(list) => {
                    &&& self@.balances.contains_key(owner)
                    &&& keys_distinct(list@)
                    &&& assoc_map(list@) == self@.balances[owner]
                    &&& forall|i: int, j: int|
                        0 <= i < j < list.len() ==> (#[trigger] list[i]).0 < (#[trigger] list[j]).0
                },
                Err(e) => !self@.balances.contains_key(owner) && e == NftError::NotEnoughFund,
            },
    {
        match self.find_account(&owner) {
            None => Err(NftError::NotEnoughFund),
            Some(i) => {
                let tokens = &self.balance_of[i].tokens;
                proof {
                    assert(ids_ascending(tokens@));
                    lemma_ids_distinct(tokens@);
                }
                let mut out: Vec<(u128, u128)> = Vec::new();
                let mut k: usize = 0;
                while k < tokens.len()
                    invariant
                        k <= tokens.len(),
                        out@ == token_entries(tokens@).subrange(0, k as int),
                    decreases tokens.len() - k,
                {
                    out.push((tokens[k].id, tokens[k].amount));
                    proof {
                        assert(out@ =~= token_entries(tokens@).subrange(0, k + 1));
                    }
                    k += 1;
                }
                proof {
                    assert(out@ =~= token_entries(tokens@));
                    assert forall|a: int, b: int| 0 <= a < b < out.len() implies (
                    #[trigger] out[a]).0 < (#[trigger] out[b]).0 by {
                        assert(tokens@[a].id < tokens@[b].id);
                    }
                }
                Ok(out)
            },
        }
    }
}

} // verus!
