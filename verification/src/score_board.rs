//! The score board of a game session: the rules by which actions score, and
//! the scores of the players.

use crate::assoc::{
    assoc_map, has_key, keys_distinct, lemma_assoc_absent, lemma_assoc_at, lemma_assoc_update,
    position,
};
use crate::address_set::{lists_addresses, AddressSet};
use crate::types::{
    addresses_ascending, lemma_ascending_unique, lemma_insert_keeps_ascending,
    lemma_neighbours_ascending, Address, EventData, ScoreBoardMetadata,
};
use vstd::prelude::*;

verus! {

/// What a player did.
#[derive(Clone, Copy, Debug, PartialEq, Eq, Structural)]
pub enum ActionType {
    Default,
}

/// An action of a player.
#[derive(Clone, Copy, Debug, PartialEq, Eq)]
pub struct RuleAction {
    pub user: Address,
    pub action: ActionType,
}

/// The rules of the game: every action scores one point.
#[derive(Clone, Copy, Debug, PartialEq, Eq, Structural)]
pub struct Rules;

impl Rules {
    /// The points that `action` scores.
    pub open spec fn points(self, action: RuleAction) -> nat {
        1
    }

    /// The points that `action` scores.
    pub fn process_rules(&self, action: &RuleAction) -> (r: u64)
        ensures
            r == self.points(*action),
    {
        1
    }
}

/// The score of one player.
#[derive(Clone, Copy, Debug, PartialEq, Eq)]
pub struct Scores {
    pub user: Address,
    pub scores: u64,
}

/// Why an operation on a board failed.
#[derive(Clone, Copy, Debug, PartialEq, Eq, Structural, Hash)]
pub enum BoardError {
    /// The user is not a player of the board.
    CannotFindUser,
}

/// `a` stands before `b` on the leader board: it has the lower score, or
/// the same score and the address that precedes.
pub open spec fn ranks_before(a: Scores, b: Scores) -> bool {
    a.scores < b.scores || (a.scores == b.scores && a.user.precedes(b.user))
}

/// `out` is the leader board of `scores`: every player with its score, by
/// ascending score, players with the same score by ascending address.
pub open spec fn is_leader_board(scores: Map<Address, nat>, out: Seq<Scores>) -> bool {
    &&& forall|i: int, j: int|
        0 <= i < j < out.len() ==> ranks_before(#[trigger] out[i], #[trigger] out[j])
    &&& forall|i: int|
        0 <= i < out.len() ==> scores.contains_key((#[trigger] out[i]).user) && scores[out[i].user]
            == out[i].scores
    &&& forall|a: Address| #[trigger]
        scores.contains_key(a) ==> exists|i: int| 0 <= i < out.len() && (#[trigger] out[i]).user == a
}

/// The scores of the players of one game session, kept by ascending
/// address.
#[derive(Clone, Debug, PartialEq, Eq)]
pub struct Board {
    pub rules: Rules,
    pub scores: Vec<Scores>,
}

impl View for Board {
    type V = Map<Address, nat>;

    open spec fn view(&self) -> Map<Address, nat> {
        assoc_map(self.entries())
    }
}

impl Board {
    /// The scores as pairs of a player and a number of points.
    pub open spec fn entries(self) -> Seq<(Address, nat)> {
        Seq::new(self.scores.len() as nat, |i: int| (self.scores[i].user, self.scores[i].scores as nat))
    }

    /// The addresses of the players in the order in which they are kept.
    pub open spec fn players(self) -> Seq<Address> {
        Seq::new(self.scores.len() as nat, |i: int| self.scores[i].user)
    }

    /// The players are in ascending order of their addresses.
    pub open spec fn wf(self) -> bool {
        addresses_ascending(self.players())
    }

    /// Decides whether the board is well-formed.
    pub fn is_wf(&self) -> (r: bool)
        ensures
            r == self.wf(),
    {
        let ghost keys = self.players();
        if self.scores.len() > 0 {
            let mut i: usize = 1;
            while i < self.scores.len()
                invariant
                    keys == self.players(),
                    1 <= i <= self.scores.len(),
                    forall|k: int| 0 <= k < i - 1 ==> (#[trigger] keys[k]).precedes(keys[k + 1]),
                decreases self.scores.len() - i,
            {
                if !self.scores[i - 1].user.is_before(&self.scores[i].user) {
                    proof {
                        if self.wf() {
                            assert(keys[i - 1].precedes(keys[i as int]));
                        }
                    }
                    return false;
                }
                proof {
                    assert(keys[i - 1].precedes(keys[i - 1 + 1]));
                }
                i += 1;
            }
        }
        proof {
            lemma_neighbours_ascending(keys);
        }
        true
    }

    /// The players of a well-formed board are the domain of its scores.
    pub proof fn lemma_players(self)
        requires
            self.wf(),
        ensures
            self@.dom() == self.players().to_set(),
    {
        self.lemma_distinct();
        assert forall|a: Address| self@.dom().contains(a) <==> self.players().to_set().contains(
            a,
        ) by {
            if self@.contains_key(a) {
                let i = position(self.entries(), a);
                assert(self.entries()[i].0 == a);
                assert(self.players()[i] == a);
            }
            if self.players().contains(a) {
                let i = choose|i: int| 0 <= i < self.players().len() && self.players()[i] == a;
                lemma_assoc_at(self.entries(), i);
            }
        }
        assert(self@.dom() =~= self.players().to_set());
    }

    /// In a well-formed board no player occurs twice.
    pub proof fn lemma_distinct(self)
        requires
            self.wf(),
        ensures
            keys_distinct(self.entries()),
    {
        assert forall|i: int, j: int| 0 <= i < j < self.entries().len() implies (
        #[trigger] self.entries()[i]).0 != (#[trigger] self.entries()[j]).0 by {
            assert(self.players()[i].precedes(self.players()[j]));
            Address::lemma_total_order(self.players()[i], self.players()[j]);
        }
    }

    /// The index of `user`, if it is a player.
    pub fn find(&self, user: &Address) -> (r: Option<usize>)
        requires
            self.wf(),
        ensures
            match r {
                Some(i) => {
                    &&& i < self.scores.len()
                    &&& self.scores[i as int].user == *user
                    &&& self@.contains_key(*user)
                    &&& self@[*user] == self.scores[i as int].scores
                },
                None => !self@.contains_key(*user),
            },
    {
        let mut i: usize = 0;
        while i < self.scores.len()
            invariant
                self.wf(),
                i <= self.scores.len(),
                forall|j: int| 0 <= j < i ==> self.scores[j].user != *user,
            decreases self.scores.len() - i,
        {
            if self.scores[i].user == *user {
                proof {
                    self.lemma_distinct();
                    lemma_assoc_at(self.entries(), i as int);
                }
                return Some(i);
            }
            i += 1;
        }
        proof {
            lemma_assoc_absent(self.entries(), *user);
        }
        None
    }

    /// A board on which each of `users` has no points yet.
    pub fn new(users: Vec<Address>, rules: Rules) -> (r: Board)
        ensures
            r.wf(),
            r.rules == rules,
            forall|a: Address| #[trigger] r@.contains_key(a) <==> users@.contains(a),
            forall|a: Address| #[trigger] r@.contains_key(a) ==> r@[a] == 0,
    {
        let mut board = Board { rules, scores: Vec::new() };
        proof {
            assert(board@ =~= Map::<Address, nat>::empty());
        }
        let mut i: usize = 0;
        while i < users.len()
            invariant
                i <= users.len(),
                board.wf(),
                board.rules == rules,
                forall|a: Address| #[trigger]
                    board@.contains_key(a) <==> users@.subrange(0, i as int).contains(a),
                forall|a: Address| #[trigger] board@.contains_key(a) ==> board@[a] == 0,
            decreases users.len() - i,
        {
            let user = users[i];
            let ghost before = board;
            if board.find(&user).is_none() {
                let mut p: usize = 0;
                while p < board.scores.len() && board.scores[p].user.is_before(&user)
                    invariant
                        p <= board.scores.len(),
                        board == before,
                        forall|k: int| 0 <= k < p ==> (#[trigger] board.players()[k]).precedes(user),
                    decreases board.scores.len() - p,
                {
                    p += 1;
                }
                board.scores.insert(p, Scores { user, scores: 0 });
                proof {
                    let old_e = before.entries();
                    let new_e = board.entries();
                    before.lemma_distinct();
                    assert forall|k: int| 0 <= k < before.players().len() implies (
                    #[trigger] before.players()[k]) != user by {
                        lemma_assoc_at(old_e, k);
                    }
                    if p < before.scores.len() {
                        assert(!before.players()[p as int].precedes(user));
                        Address::lemma_total_order(user, before.players()[p as int]);
                    }
                    lemma_insert_keeps_ascending(before.players(), p as int, user);
                    assert(board.players() =~= before.players().insert(p as int, user));
                    board.lemma_distinct();
                    assert forall|a: Address| #[trigger]
                        assoc_map(new_e).contains_key(a) <==> assoc_map(old_e).insert(
                            user,
                            0,
                        ).contains_key(a) by {
                        if has_key(new_e, a) {
                            let k = position(new_e, a);
                            if k < p {
                                assert(old_e[k].0 == a);
                            } else if k > p {
                                assert(old_e[k - 1].0 == a);
                            }
                        }
                        if has_key(old_e, a) {
                            let k = position(old_e, a);
                            if k < p {
                                assert(new_e[k].0 == a);
                            } else {
                                assert(new_e[k + 1].0 == a);
                            }
                        }
                        if a == user {
                            assert(new_e[p as int].0 == a);
                        }
                    }
                    assert forall|a: Address| #[trigger]
                        assoc_map(new_e).contains_key(a) implies assoc_map(new_e)[a] == assoc_map(
                        old_e,
                    ).insert(user, 0)[a] by {
                        let k = position(new_e, a);
                        lemma_assoc_at(new_e, k);
                        if k < p {
                            assert(old_e[k] == new_e[k]);
                            lemma_assoc_at(old_e, k);
                        } else if k > p {
                            assert(old_e[k - 1] == new_e[k]);
                            lemma_assoc_at(old_e, k - 1);
                        }
                    }
                    assert(board@ =~= before@.insert(user, 0));
                }
            }
            proof {
                let done = users@.subrange(0, i as int);
                let next = users@.subrange(0, i + 1);
                assert(next =~= done.push(user));
                assert forall|a: Address| #[trigger] board@.contains_key(a) <==> next.contains(
                    a,
                ) by {
                    if done.contains(a) {
                        let k = choose|k: int| 0 <= k < done.len() && done[k] == a;
                        assert(next[k] == a);
                    }
                    if next.contains(a) {
                        let k = choose|k: int| 0 <= k < next.len() && next[k] == a;
                        if k < done.len() {
                            assert(done[k] == a);
                        }
                    }
                    assert(next[i as int] == user);
                }
            }
            i += 1;
        }
        proof {
            assert(users@.subrange(0, users.len() as int) =~= users@);
        }
        board
    }

    /// The points of `user`, if it is a player.
    pub fn score_of(&self, user: &Address) -> (r: Option<u64>)
        requires
            self.wf(),
        ensures
            match r {
                Some(points) => self@.contains_key(*user) && self@[*user] == points,
                None => !self@.contains_key(*user),
            },
    {
        match self.find(user) {
            Some(i) => Some(self.scores[i].scores),
            None => None,
        }
    }

    /// Adds to the score of the player of `action` the points that the
    /// action scores. Fails with `CannotFindUser` where there is no such
    /// player. The new score must fit in 64 bits.
    pub fn update(&mut self, action: &RuleAction) -> (r: Result<(), BoardError>)
        requires
            old(self).wf(),
            old(self)@.contains_key(action.user) ==> old(self)@[action.user] + old(
                self,
            ).rules.points(*action) <= u64::MAX,
        ensures
            final(self).wf(),
            final(self).rules == old(self).rules,
            match r {
                Ok(()) => {
                    &&& old(self)@.contains_key(action.user)
                    &&& final(self)@ == old(self)@.insert(
                        action.user,
                        old(self)@[action.user] + old(self).rules.points(*action),
                    )
                },
                Err(e) => {
                    &&& !old(self)@.contains_key(action.user)
                    &&& e == BoardError::CannotFindUser
                    &&& *final(self) == *old(self)
                },
            },
    {
        let points = self.rules.process_rules(action);
        match self.find(&action.user) {
            None => Err(BoardError::CannotFindUser),
            Some(i) => {
                let total: u64 = self.scores[i].scores + points;
                self.scores[i].scores = total;
                proof {
                    old(self).lemma_distinct();
                    lemma_assoc_update(old(self).entries(), i as int, total as nat);
                    assert(self.entries() =~= old(self).entries().update(
                        i as int,
                        (action.user, total as nat),
                    ));
                    assert(self.players() =~= old(self).players());
                }
                Ok(())
            },
        }
    }

    /// The leader board: the players by ascending score, players with the
    /// same score by ascending address.
    pub fn leader_board(&self) -> (r: Vec<Scores>)
        requires
            self.wf(),
        ensures
            is_leader_board(self@, r@),
    {
        let mut out: Vec<Scores> = Vec::new();
        // For each place of the leader board, the index of the player that
        // stands there.
        let mut source: Ghost<Seq<int>> = Ghost(Seq::empty());
        let mut k: usize = 0;
        proof {
            self.lemma_distinct();
        }
        while k < self.scores.len()
            invariant
                self.wf(),
                keys_distinct(self.entries()),
                k <= self.scores.len(),
                source@.len() == out.len(),
                forall|i: int, j: int|
                    0 <= i < j < out.len() ==> ranks_before(#[trigger] out[i], #[trigger] out[j]),
                forall|i: int|
                    0 <= i < out.len() ==> 0 <= #[trigger] source@[i] < k && out[i]
                        == self.scores[source@[i]],
                forall|q: int| 0 <= q < k ==> source@.contains(q),
            decreases self.scores.len() - k,
        {
            let item = self.scores[k];
            let ghost before = out@;
            let ghost old_source = source@;
            let mut p: usize = 0;
            while p < out.len() && out[p].scores <= item.scores
                invariant
                    p <= out.len(),
                    out@ == before,
                    forall|i: int| 0 <= i < p ==> (#[trigger] out[i]).scores <= item.scores,
                decreases out.len() - p,
            {
                p += 1;
            }
            out.insert(p, item);
            proof {
                source@ = old_source.insert(p as int, k as int);
                assert forall|i: int, j: int| 0 <= i < j < out.len() implies ranks_before(
                    #[trigger] out[i],
                    #[trigger] out[j],
                ) by {
                    if j < p {
                        assert(ranks_before(before[i], before[j]));
                    } else if j == p {
                        // Whatever stands before the new item has at most its
                        // score, and an address that was met earlier.
                        let q = old_source[i];
                        assert(before[i] == self.scores[q]);
                        assert(self.players()[q].precedes(self.players()[k as int]));
                        assert(before[i].scores <= item.scores);
                    } else if i > p {
                        assert(ranks_before(before[i - 1], before[j - 1]));
                    } else if i == p {
                        assert(before[p as int].scores > item.scores);
                        if j - 1 > p {
                            assert(ranks_before(before[p as int], before[j - 1]));
                        }
                    } else {
                        assert(ranks_before(before[i], before[j - 1]));
                    }
                }
                assert forall|i: int| 0 <= i < out.len() implies 0 <= #[trigger] source@[i] < k + 1
                    && out[i] == self.scores[source@[i]] by {
                    if i < p {
                        assert(source@[i] == old_source[i]);
                    } else if i > p {
                        assert(source@[i] == old_source[i - 1]);
                    }
                }
                assert forall|q: int| 0 <= q < k + 1 implies source@.contains(q) by {
                    if q < k {
                        assert(old_source.contains(q));
                        let i = choose|i: int| 0 <= i < old_source.len() && old_source[i] == q;
                        if i < p {
                            assert(source@[i] == q);
                        } else {
                            assert(source@[i + 1] == q);
                        }
                    } else {
                        assert(source@[p as int] == q);
                    }
                }
            }
            k += 1;
        }
        proof {
            assert forall|i: int| 0 <= i < out.len() implies self@.contains_key(
                (#[trigger] out[i]).user,
            ) && self@[out[i].user] == out[i].scores by {
                lemma_assoc_at(self.entries(), source@[i]);
            }
            assert forall|a: Address| #[trigger] self@.contains_key(a) implies exists|i: int|
                0 <= i < out.len() && (#[trigger] out[i]).user == a by {
                let q = position(self.entries(), a);
                assert(self.entries()[q].0 == a);
                assert(source@.contains(q));
                let i = choose|i: int| 0 <= i < source@.len() && source@[i] == q;
                assert(out[i].user == a);
            }
        }
        out
    }
}

/// An event that a player reported.
#[derive(Clone, Debug, PartialEq, Eq)]
pub struct Event {
    /// The time of the block in which the event was reported.
    pub timestamp: u128,
    /// The player who reported it.
    pub reporter: Address,
    /// What was reported.
    pub data: EventData,
}

/// An event as a mathematical value.
pub struct EventView {
    pub timestamp: u128,
    pub reporter: Address,
    pub data: Seq<u8>,
}

impl View for Event {
    type V = EventView;

    open spec fn view(&self) -> EventView {
        EventView { timestamp: self.timestamp, reporter: self.reporter, data: self.data.0@ }
    }
}

impl Event {
    /// A copy of the event.
    pub fn duplicate(&self) -> (r: Event)
        ensures
            r@ == self@,
    {
        Event { timestamp: self.timestamp, reporter: self.reporter, data: self.data.duplicate() }
    }
}

/// Why an operation on a score board failed. A failed operation leaves the
/// score board as it was.
#[derive(Clone, Copy, Debug, PartialEq, Eq, Structural, Hash)]
pub enum ScoreBoardError {
    /// The caller is not the owner of the contract.
    NotContractOwner,
    /// The score board has been set up before.
    AlreadyInitialized,
    /// The score board has not been set up yet.
    NotInitialized,
    /// The game has ended: the score board is locked.
    Locked,
    /// The game has started already.
    GameAlreadyStarted,
    /// The caller is not the administrator of the score board.
    NotAdministrator,
    /// The caller is not a player.
    CannotFindUser,
    /// The game has not started: there is no board yet.
    BoardNotInitialized,
}

/// The score board of one game session.
#[derive(Clone, Debug, PartialEq, Eq)]
pub struct Contract {
    pub metadata: ScoreBoardMetadata,
    pub users: AddressSet,
    pub events: Vec<Event>,
    pub board: Option<Board>,
    pub administrator: Address,
    pub locked: bool,
    pub game_is_started: bool,
}

impl Contract {
    /// There is a board exactly once the game has started; its players are
    /// the users, and no player has more points than events were reported.
    /// Before that there are no users.
    pub open spec fn wf(self) -> bool {
        &&& self.users.wf()
        &&& self.game_is_started == (self.board is Some)
        &&& match self.board {
            Some(board) => {
                &&& board.wf()
                &&& board@.dom() == self.users@
                &&& forall|a: Address| #[trigger]
                    board@.contains_key(a) ==> board@[a] <= self.events.len()
            },
            None => self.users@ == Set::<Address>::empty(),
        }
    }

    /// Decides whether the score board is well-formed.
    pub fn is_wf(&self) -> (r: bool)
        ensures
            r == self.wf(),
    {
        if !self.users.is_wf() {
            return false;
        }
        match &self.board {
            None => {
                proof {
                    if self.users.items.len() == 0 {
                        assert(self.users@ =~= Set::<Address>::empty());
                    } else {
                        assert(self.users.items@.contains(self.users.items@[0]));
                        assert(self.users@.contains(self.users.items@[0]));
                    }
                }
                !self.game_is_started && self.users.items.len() == 0
            },
            Some(board) => {
                if !self.game_is_started || !board.is_wf() {
                    return false;
                }
                proof {
                    board.lemma_players();
                    board.lemma_distinct();
                }
                if board.scores.len() != self.users.items.len() {
                    proof {
                        if board@.dom() == self.users@ {
                            lemma_ascending_unique(board.players(), self.users.items@);
                        }
                    }
                    return false;
                }
                let mut i: usize = 0;
                while i < board.scores.len()
                    invariant
                        self.board == Some(*board),
                        board.wf(),
                        self.users.wf(),
                        keys_distinct(board.entries()),
                        board@.dom() == board.players().to_set(),
                        board.scores.len() == self.users.items.len(),
                        i <= board.scores.len(),
                        forall|k: int| 0 <= k < i ==> board.players()[k] == self.users.items@[k],
                        forall|k: int|
                            0 <= k < i ==> (#[trigger] board.scores[k]).scores <= self.events.len(),
                    decreases board.scores.len() - i,
                {
                    if board.scores[i].user != self.users.items[i] {
                        proof {
                            if board@.dom() == self.users@ {
                                lemma_ascending_unique(board.players(), self.users.items@);
                                assert(board.players()[i as int] == self.users.items@[i as int]);
                            }
                        }
                        return false;
                    }
                    if board.scores[i].scores > self.events.len() as u64 {
                        proof {
                            lemma_assoc_at(board.entries(), i as int);
                        }
                        return false;
                    }
                    i += 1;
                }
                proof {
                    assert(board.players() =~= self.users.items@);
                    assert forall|a: Address| #[trigger] board@.contains_key(a) implies board@[a]
                        <= self.events.len() by {
                        let k = position(board.entries(), a);
                        assert(board.entries()[k].0 == a);
                        lemma_assoc_at(board.entries(), k);
                    }
                }
                true
            },
        }
    }

    /// Sets the score board up, with `administrator` as the one who may
    /// start and end the game. Only the owner of the contract may set the
    /// score board up, and only once.
    pub fn new(
        caller: Address,
        contract_owner: Address,
        initialized: bool,
        metadata: ScoreBoardMetadata,
        administrator: Address,
    ) -> (r: Result<Contract, ScoreBoardError>)
        ensures
            match r {
                Ok(c) => {
                    &&& caller == contract_owner
                    &&& !initialized
                    &&& c.wf()
                    &&& c.metadata == metadata
                    &&& c.administrator == administrator
                    &&& c.users@ == Set::<Address>::empty()
                    &&& c.events@ == Seq::<Event>::empty()
                    &&& c.board is None
                    &&& !c.locked
                    &&& !c.game_is_started
                },
                Err(e) => if caller != contract_owner {
                    e == ScoreBoardError::NotContractOwner
                } else {
                    initialized && e == ScoreBoardError::AlreadyInitialized
                },
            },
    {
        if caller != contract_owner {
            return Err(ScoreBoardError::NotContractOwner);
        }
        if initialized {
            return Err(ScoreBoardError::AlreadyInitialized);
        }
        Ok(
            Contract {
                metadata,
                users: AddressSet::new(),
                events: Vec::new(),
                board: None,
                administrator,
                locked: false,
                game_is_started: false,
            },
        )
    }

    /// The stored score board, if there is one: without one the score board
    /// is not set up.
    pub fn load(stored: Option<Contract>) -> (r: Result<Contract, ScoreBoardError>)
        ensures
            match r {
                Ok(c) => stored == Some(c),
                Err(e) => stored is None && e == ScoreBoardError::NotInitialized,
            },
    {
        match stored {
            Some(c) => Ok(c),
            None => Err(ScoreBoardError::NotInitialized),
        }
    }

    /// The administrator starts the game with `users` as its players, each
    /// without points.
    ///
    /// Fails with `Locked` where the game has ended, else with
    /// `GameAlreadyStarted` where it has started, else with
    /// `NotAdministrator` where `caller` is not the administrator.
    pub fn start_game(&mut self, caller: Address, users: Vec<Address>) -> (r: Result<
        (),
        ScoreBoardError,
    >)
        requires
            old(self).wf(),
        ensures
            final(self).wf(),
            match r {
                Ok(()) => {
                    &&& !old(self).locked
                    &&& !old(self).game_is_started
                    &&& caller == old(self).administrator
                    &&& final(self).game_is_started
                    &&& final(self).users@ == users@.to_set()
                    &&& final(self).board matches Some(board)
                    &&& board@.dom() == users@.to_set()
                    &&& forall|a: Address| #[trigger] board@.contains_key(a) ==> board@[a] == 0
                    &&& final(self).metadata == old(self).metadata
                    &&& final(self).events == old(self).events
                    &&& final(self).administrator == old(self).administrator
                    &&& final(self).locked == old(self).locked
                },
                Err(e) => {
                    &&& *final(self) == *old(self)
                    &&& e == if old(self).locked {
                        ScoreBoardError::Locked
                    } else if old(self).game_is_started {
                        ScoreBoardError::GameAlreadyStarted
                    } else {
                        ScoreBoardError::NotAdministrator
                    }
                    &&& (old(self).locked || old(self).game_is_started || caller != old(
                        self,
                    ).administrator)
                },
            },
    {
        if self.locked {
            return Err(ScoreBoardError::Locked);
        }
        if self.game_is_started {
            return Err(ScoreBoardError::GameAlreadyStarted);
        }
        if caller != self.administrator {
            return Err(ScoreBoardError::NotAdministrator);
        }
        let mut i: usize = 0;
        while i < users.len()
            invariant
                i <= users.len(),
                self.users.wf(),
                self.users@ == users@.subrange(0, i as int).to_set(),
                self.metadata == old(self).metadata,
                self.events == old(self).events,
                self.board == old(self).board,
                self.administrator == old(self).administrator,
                self.locked == old(self).locked,
                self.game_is_started == old(self).game_is_started,
            decreases users.len() - i,
        {
            self.users.insert(users[i]);
            proof {
                let done = users@.subrange(0, i as int);
                let next = users@.subrange(0, i + 1);
                assert(next =~= done.push(users@[i as int]));
                assert forall|a: Address| next.to_set().contains(a) <==> done.to_set().insert(
                    users@[i as int],
                ).contains(a) by {
                    if next.contains(a) {
                        let k = choose|k: int| 0 <= k < next.len() && next[k] == a;
                        if k < done.len() {
                            assert(done[k] == a);
                        }
                    }
                    if done.contains(a) {
                        let k = choose|k: int| 0 <= k < done.len() && done[k] == a;
                        assert(next[k] == a);
                    }
                    assert(next[i as int] == users@[i as int]);
                }
                assert(next.to_set() =~= done.to_set().insert(users@[i as int]));
            }
            i += 1;
        }
        proof {
            assert(users@.subrange(0, users.len() as int) =~= users@);
        }
        let board = Board::new(users, Rules);
        proof {
            assert(board@.dom() =~= self.users@);
        }
        self.board = Some(board);
        self.game_is_started = true;
        Ok(())
    }

    /// The player `caller` reports `event` at the time `timestamp`. The
    /// event is kept, and the player scores what the rules give for it.
    ///
    /// Fails with `Locked` where the game has ended, else with
    /// `CannotFindUser` where `caller` is not a player.
    pub fn store_event(&mut self, caller: Address, timestamp: u128, event: EventData) -> (r: Result<
        (),
        ScoreBoardError,
    >)
        requires
            old(self).wf(),
        ensures
            final(self).wf(),
            match r {
                Ok(()) => {
                    &&& !old(self).locked
                    &&& old(self).users@.contains(caller)
                    &&& final(self).events@ == old(self).events@.push(
                        Event { timestamp, reporter: caller, data: event },
                    )
                    &&& old(self).board matches Some(before)
                    &&& final(self).board matches Some(after)
                    &&& after@ == before@.insert(
                        caller,
                        before@[caller] + before.rules.points(
                            RuleAction { user: caller, action: ActionType::Default },
                        ),
                    )
                    &&& final(self).users == old(self).users
                    &&& final(self).metadata == old(self).metadata
                    &&& final(self).administrator == old(self).administrator
                    &&& final(self).locked == old(self).locked
                    &&& final(self).game_is_started == old(self).game_is_started
                },
                Err(e) => {
                    &&& *final(self) == *old(self)
                    &&& e == if old(self).locked {
                        ScoreBoardError::Locked
                    } else {
                        ScoreBoardError::CannotFindUser
                    }
                    &&& (old(self).locked || !old(self).users@.contains(caller))
                },
            },
    {
        if self.locked {
            return Err(ScoreBoardError::Locked);
        }
        if !self.users.contains(&caller) {
            return Err(ScoreBoardError::CannotFindUser);
        }
        let action = RuleAction { user: caller, action: ActionType::Default };
        let mut board = match self.board.take() {
            Some(board) => board,
            None => {
                // Without a board there are no users.
                return Err(ScoreBoardError::CannotFindUser);
            },
        };
        self.events.push(Event { timestamp, reporter: caller, data: event });
        let ghost before = board@;
        proof {
            assert(before.contains_key(caller));
            assert(before[caller] <= old(self).events.len());
            assert(self.events.len() == old(self).events.len() + 1);
            assert(before[caller] + 1 <= usize::MAX);
        }
        let updated = board.update(&action);
        proof {
            assert(updated is Ok);
            assert(board@.dom() =~= before.dom());
        }
        self.board = Some(board);
        Ok(())
    }

    /// The administrator ends the game: the score board is locked for good.
    ///
    /// Fails with `Locked` where the game has ended already, else with
    /// `NotAdministrator` where `caller` is not the administrator.
    pub fn end_game(&mut self, caller: Address) -> (r: Result<(), ScoreBoardError>)
        requires
            old(self).wf(),
        ensures
            final(self).wf(),
            match r {
                Ok(()) => {
                    &&& !old(self).locked
                    &&& caller == old(self).administrator
                    &&& *final(self) == (Contract { locked: true, ..*old(self) })
                },
                Err(e) => {
                    &&& *final(self) == *old(self)
                    &&& e == if old(self).locked {
                        ScoreBoardError::Locked
                    } else {
                        ScoreBoardError::NotAdministrator
                    }
                    &&& (old(self).locked || caller != old(self).administrator)
                },
            },
    {
        if self.locked {
            return Err(ScoreBoardError::Locked);
        }
        if caller != self.administrator {
            return Err(ScoreBoardError::NotAdministrator);
        }
        self.locked = true;
        Ok(())
    }

    /// The name of the score board.
    pub fn name(&self) -> (r: String)
        ensures
            r == self.metadata.name,
    {
        self.metadata.name.clone()
    }

    /// What the score board says of itself.
    pub fn metadata(&self) -> (r: ScoreBoardMetadata)
        ensures
            r == self.metadata,
    {
        self.metadata.duplicate()
    }

    /// The administrator of the score board.
    pub fn administrator(&self) -> (r: Address)
        ensures
            r == self.administrator,
    {
        self.administrator
    }

    /// The leader board. Fails with `BoardNotInitialized` where the game has
    /// not started.
    pub fn board(&self) -> (r: Result<Vec<Scores>, ScoreBoardError>)
        requires
            self.wf(),
        ensures
            match r {
                Ok(list) => self.board matches Some(board) && is_leader_board(board@, list@),
                Err(e) => self.board is None && e == ScoreBoardError::BoardNotInitialized,
            },
    {
        match &self.board {
            Some(board) => Ok(board.leader_board()),
            None => Err(ScoreBoardError::BoardNotInitialized),
        }
    }

    /// The events that were reported, oldest first.
    pub fn events(&self) -> (r: Vec<Event>)
        ensures
            r@.len() == self.events@.len(),
            forall|i: int| 0 <= i < r@.len() ==> (#[trigger] r@[i])@ == self.events@[i]@,
    {
        let mut out: Vec<Event> = Vec::new();
        let mut i: usize = 0;
        while i < self.events.len()
            invariant
                i <= self.events.len(),
                out@.len() == i,
                forall|k: int| 0 <= k < i ==> (#[trigger] out@[k])@ == self.events@[k]@,
            decreases self.events.len() - i,
        {
            out.push(self.events[i].duplicate());
            i += 1;
        }
        out
    }

    /// The players, by ascending address.
    pub fn users(&self) -> (r: Vec<Address>)
        requires
            self.wf(),
        ensures
            lists_addresses(self.users@, r@),
    {
        self.users.to_vec()
    }
}

} // verus!
