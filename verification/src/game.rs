//! A game and the lobbies of its sessions: who has joined a session, who is
//! ready, and whether the game of the session has started.

use crate::address_set::{lists_addresses, AddressSet};
use crate::assoc::{
    assoc_map, has_key, keys_distinct, lemma_assoc_absent, lemma_assoc_at, lemma_assoc_push,
    lemma_assoc_update, position,
};
use crate::types::{copy_text, lemma_neighbours_ascending, Address, ScoreBoardMetadata};
use vstd::prelude::*;

verus! {

/// What the lobby knows of a user who has joined.
#[derive(Clone, Copy, Debug, PartialEq, Eq, Structural)]
pub struct User {
    pub is_ready: bool,
}

impl User {
    /// A user who has just joined and is not ready yet.
    pub fn new() -> (r: User)
        ensures
            !r.is_ready,
    {
        User { is_ready: false }
    }
}

/// Why an operation on a lobby failed. A failed operation leaves the lobby
/// as it was.
#[derive(Clone, Copy, Debug, PartialEq, Eq, Structural, Hash)]
pub enum LobbyError {
    /// The lobby is locked: the game has started.
    Locked,
    /// The user has joined already.
    AlreadyJoined,
    /// The user cannot be found.
    CannotFindUser,
}

/// A user of the lobby under the address of the account.
#[derive(Clone, Copy, Debug, PartialEq, Eq)]
pub struct LobbyUser {
    pub address: Address,
    pub user: User,
}

/// Each address of `s` precedes all that follow it.
pub open spec fn users_ascending(s: Seq<LobbyUser>) -> bool {
    forall|i: int, j: int|
        0 <= i < j < s.len() ==> (#[trigger] s[i]).address.precedes((#[trigger] s[j]).address)
}

/// The lobby of one game session. The users are kept by ascending address.
#[derive(Clone, Debug, PartialEq, Eq)]
pub struct Lobby {
    pub board: Address,
    pub locked: bool,
    pub users: Vec<LobbyUser>,
}

/// A lobby as a mathematical value: for each user who has joined, whether
/// the user is ready.
pub struct LobbyView {
    pub board: Address,
    pub locked: bool,
    pub users: Map<Address, bool>,
}

impl LobbyView {
    /// `user` joins.
    pub open spec fn join(self, user: Address) -> Result<LobbyView, LobbyError> {
        if self.locked {
            Err(LobbyError::Locked)
        } else if self.users.contains_key(user) {
            Err(LobbyError::AlreadyJoined)
        } else {
            Ok(LobbyView { users: self.users.insert(user, false), ..self })
        }
    }

    /// `user` asks to leave. No user who has joined can leave: the call
    /// fails for a user of the lobby, and for anyone else it succeeds and
    /// changes nothing.
    pub open spec fn leave(self, user: Address) -> Result<LobbyView, LobbyError> {
        if self.users.contains_key(user) {
            Err(LobbyError::CannotFindUser)
        } else {
            Ok(self)
        }
    }

    /// `user` says whether it is ready.
    pub open spec fn set_ready(self, user: Address, status: bool) -> Result<LobbyView, LobbyError> {
        if self.locked {
            Err(LobbyError::Locked)
        } else if !self.users.contains_key(user) {
            Err(LobbyError::CannotFindUser)
        } else {
            Ok(LobbyView { users: self.users.insert(user, status), ..self })
        }
    }

    /// Whether `user` is ready.
    pub open spec fn is_ready(self, user: Address) -> Result<bool, LobbyError> {
        if self.users.contains_key(user) {
            Ok(self.users[user])
        } else {
            Err(LobbyError::CannotFindUser)
        }
    }

    /// `out` lists exactly the users that are ready, by ascending address.
    pub open spec fn lists_ready(self, out: Seq<Address>) -> bool {
        &&& forall|i: int, j: int|
            0 <= i < j < out.len() ==> (#[trigger] out[i]).precedes(#[trigger] out[j])
        &&& forall|i: int|
            0 <= i < out.len() ==> self.users.contains_key(#[trigger] out[i]) && self.users[out[i]]
        &&& forall|a: Address| #[trigger]
            self.users.contains_key(a) && self.users[a] ==> out.contains(a)
    }
}

impl View for Lobby {
    type V = LobbyView;

    open spec fn view(&self) -> LobbyView {
        LobbyView { board: self.board, locked: self.locked, users: assoc_map(self.entries()) }
    }
}

impl Lobby {
    /// The users as pairs of an address and whether the user is ready.
    pub open spec fn entries(self) -> Seq<(Address, bool)> {
        Seq::new(
            self.users.len() as nat,
            |i: int| (self.users[i].address, self.users[i].user.is_ready),
        )
    }

    /// The users are in ascending order of their addresses.
    pub open spec fn wf(self) -> bool {
        users_ascending(self.users@)
    }

    /// The addresses of the users in the order in which they are kept.
    pub open spec fn addresses(self) -> Seq<Address> {
        Seq::new(self.users.len() as nat, |i: int| self.users[i].address)
    }

    /// Decides whether the lobby is well-formed.
    pub fn is_wf(&self) -> (r: bool)
        ensures
            r == self.wf(),
    {
        let ghost keys = self.addresses();
        if self.users.len() > 0 {
            let mut i: usize = 1;
            while i < self.users.len()
                invariant
                    keys == self.addresses(),
                    1 <= i <= self.users.len(),
                    forall|k: int| 0 <= k < i - 1 ==> (#[trigger] keys[k]).precedes(keys[k + 1]),
                decreases self.users.len() - i,
            {
                if !self.users[i - 1].address.is_before(&self.users[i].address) {
                    proof {
                        if self.wf() {
                            assert(self.users@[i - 1].address.precedes(self.users@[i as int].address));
                        }
                    }
                    return false;
                }
                proof {
                    assert(keys[i - 1].precedes(keys[i - 1 + 1]));
                }
                i += 1;
            }
        }
        proof {
            lemma_neighbours_ascending(keys);
            assert forall|i: int, j: int| 0 <= i < j < self.users@.len() implies (
            #[trigger] self.users@[i]).address.precedes((#[trigger] self.users@[j]).address) by {
                assert(keys[i].precedes(keys[j]));
            }
        }
        true
    }

    /// In a well-formed lobby no address occurs twice.
    pub proof fn lemma_distinct(self)
        requires
            self.wf(),
        ensures
            keys_distinct(self.entries()),
    {
        assert forall|i: int, j: int| 0 <= i < j < self.entries().len() implies (
        #[trigger] self.entries()[i]).0 != (#[trigger] self.entries()[j]).0 by {
            assert(self.users@[i].address.precedes(self.users@[j].address));
            Address::lemma_total_order(self.users@[i].address, self.users@[j].address);
        }
    }

    /// The index of `user`, if it has joined.
    pub fn find(&self, user: &Address) -> (r: Option<usize>)
        requires
            self.wf(),
        ensures
            match r {
                Some(i) => {
                    &&& i < self.users.len()
                    &&& self.users[i as int].address == *user
                    &&& self@.users.contains_key(*user)
                    &&& self@.users[*user] == self.users[i as int].user.is_ready
                },
                None => !self@.users.contains_key(*user),
            },
    {
        let mut i: usize = 0;
        while i < self.users.len()
            invariant
                self.wf(),
                i <= self.users.len(),
                forall|j: int| 0 <= j < i ==> self.users[j].address != *user,
            decreases self.users.len() - i,
        {
            if self.users[i].address == *user {
                proof {
                    self.lemma_distinct();
                    lemma_assoc_at(self.entries(), i as int);
                }
                return Some(i);
            }
            i += 1;
        }
        proof {
            lemma_assoc_absent(self.entries(), *user);
        }
        None
    }

    /// Takes `user` in as not ready. The user must not have joined before.
    fn insert(&mut self, user: Address)
        requires
            old(self).wf(),
            !old(self)@.users.contains_key(user),
        ensures
            final(self).wf(),
            final(self)@ == (LobbyView {
                users: old(self)@.users.insert(user, false),
                ..old(self)@
            }),
    {
        let mut p: usize = 0;
        while p < self.users.len() && self.users[p].address.is_before(&user)
            invariant
                p <= self.users.len(),
                *self == *old(self),
                forall|k: int| 0 <= k < p ==> self.users@[k].address.precedes(user),
            decreases self.users.len() - p,
        {
            p += 1;
        }
        self.users.insert(p, LobbyUser { address: user, user: User::new() });
        proof {
            let before = old(self).users@;
            let after = self.users@;
            old(self).lemma_distinct();
            assert forall|k: int| 0 <= k < before.len() implies (#[trigger] before[k]).address
                != user by {
                lemma_assoc_at(old(self).entries(), k);
            }
            assert forall|x: int, y: int| 0 <= x < y < after.len() implies (
            #[trigger] after[x]).address.precedes((#[trigger] after[y]).address) by {
                if y < p {
                    assert(before[x].address.precedes(before[y].address));
                } else if y == p {
                    assert(before[x].address.precedes(user));
                } else if x > p {
                    assert(before[x - 1].address.precedes(before[y - 1].address));
                } else {
                    assert(!before[p as int].address.precedes(user));
                    assert(before[p as int].address != user);
                    Address::lemma_total_order(user, before[p as int].address);
                    if y - 1 > p {
                        assert(before[p as int].address.precedes(before[y - 1].address));
                        Address::lemma_precedes_transitive(
                            user,
                            before[p as int].address,
                            before[y - 1].address,
                        );
                    }
                    if x < p {
                        assert(before[x].address.precedes(before[y - 1].address));
                    }
                }
            }
            self.lemma_distinct();
            let old_e = old(self).entries();
            let new_e = self.entries();
            assert forall|a: Address| #[trigger]
                assoc_map(new_e).contains_key(a) <==> assoc_map(old_e).insert(
                    user,
                    false,
                ).contains_key(a) by {
                if has_key(new_e, a) {
                    let k = position(new_e, a);
                    if k < p {
                        assert(old_e[k].0 == a);
                    } else if k > p {
                        assert(old_e[k - 1].0 == a);
                    }
                }
                if has_key(old_e, a) {
                    let k = position(old_e, a);
                    if k < p {
                        assert(new_e[k].0 == a);
                    } else {
                        assert(new_e[k + 1].0 == a);
                    }
                }
                if a == user {
                    assert(new_e[p as int].0 == a);
                }
            }
            assert forall|a: Address| #[trigger] assoc_map(new_e).contains_key(a) implies assoc_map(
                new_e,
            )[a] == assoc_map(old_e).insert(user, false)[a] by {
                let k = position(new_e, a);
                lemma_assoc_at(new_e, k);
                if k < p {
                    assert(old_e[k] == new_e[k]);
                    lemma_assoc_at(old_e, k);
                } else if k > p {
                    assert(old_e[k - 1] == new_e[k]);
                    lemma_assoc_at(old_e, k - 1);
                }
            }
            assert(assoc_map(new_e) =~= assoc_map(old_e).insert(user, false));
        }
    }

    /// The lobby of the session that keeps its scores on `board`, with
    /// `users` as its first users, none of them ready.
    pub fn new(board: Address, users: Vec<Address>) -> (r: Lobby)
        ensures
            r.wf(),
            r@.board == board,
            !r@.locked,
            forall|a: Address| #[trigger] r@.users.contains_key(a) <==> users@.contains(a),
            forall|a: Address| #[trigger] r@.users.contains_key(a) ==> !r@.users[a],
    {
        let mut lobby = Lobby { board, locked: false, users: Vec::new() };
        proof {
            assert(lobby@.users =~= Map::<Address, bool>::empty());
        }
        let mut i: usize = 0;
        while i < users.len()
            invariant
                i <= users.len(),
                lobby.wf(),
                lobby@.board == board,
                !lobby@.locked,
                forall|a: Address| #[trigger]
                    lobby@.users.contains_key(a) <==> users@.subrange(0, i as int).contains(a),
                forall|a: Address| #[trigger] lobby@.users.contains_key(a) ==> !lobby@.users[a],
            decreases users.len() - i,
        {
            let user = users[i];
            let ghost before = lobby@.users;
            if lobby.find(&user).is_none() {
                lobby.insert(user);
            }
            proof {
                let done = users@.subrange(0, i as int);
                let next = users@.subrange(0, i + 1);
                assert(next =~= done.push(user));
                assert forall|a: Address| #[trigger]
                    lobby@.users.contains_key(a) <==> next.contains(a) by {
                    if done.contains(a) {
                        let k = choose|k: int| 0 <= k < done.len() && done[k] == a;
                        assert(next[k] == a);
                    }
                    if next.contains(a) {
                        let k = choose|k: int| 0 <= k < next.len() && next[k] == a;
                        if k < done.len() {
                            assert(done[k] == a);
                        }
                    }
                    assert(next[i as int] == user);
                }
            }
            i += 1;
        }
        proof {
            assert(users@.subrange(0, users.len() as int) =~= users@);
        }
        lobby
    }

    /// `user` joins the lobby, not ready yet. Fails with `Locked` where the
    /// lobby is locked, else with `AlreadyJoined` where the user has joined
    /// before.
    pub fn join(&mut self, user: Address) -> (r: Result<(), LobbyError>)
        requires
            old(self).wf(),
        ensures
            final(self).wf(),
            match r {
                Ok(()) => old(self)@.join(user) == Ok::<LobbyView, LobbyError>(final(self)@),
                Err(e) => {
                    &&& old(self)@.join(user) == Err::<LobbyView, LobbyError>(e)
                    &&& *final(self) == *old(self)
                },
            },
    {
        if self.locked {
            return Err(LobbyError::Locked);
        }
        if self.find(&user).is_some() {
            return Err(LobbyError::AlreadyJoined);
        }
        self.insert(user);
        Ok(())
    }

    /// `user` asks to leave the lobby. No user who has joined can leave: the
    /// call fails with `CannotFindUser` for a user of the lobby; for anyone
    /// else it succeeds. The lobby stays as it is either way.
    pub fn leave(&mut self, user: &Address) -> (r: Result<(), LobbyError>)
        requires
            old(self).wf(),
        ensures
            *final(self) == *old(self),
            match r {
                Ok(()) => old(self)@.leave(*user) == Ok::<LobbyView, LobbyError>(final(self)@),
                Err(e) => old(self)@.leave(*user) == Err::<LobbyView, LobbyError>(e),
            },
    {
        if self.find(user).is_some() {
            Err(LobbyError::CannotFindUser)
        } else {
            Ok(())
        }
    }

    /// Records whether `user` is ready. Fails with `Locked` where the lobby
    /// is locked, else with `CannotFindUser` where the user has not joined.
    pub fn set_ready(&mut self, user: &Address, status: bool) -> (r: Result<(), LobbyError>)
        requires
            old(self).wf(),
        ensures
            final(self).wf(),
            match r {
                Ok(()) => old(self)@.set_ready(*user, status) == Ok::<LobbyView, LobbyError>(
                    final(self)@,
                ),
                Err(e) => {
                    &&& old(self)@.set_ready(*user, status) == Err::<LobbyView, LobbyError>(e)
                    &&& *final(self) == *old(self)
                },
            },
    {
        if self.locked {
            return Err(LobbyError::Locked);
        }
        match self.find(user) {
            None => Err(LobbyError::CannotFindUser),
            Some(i) => {
                self.users[i].user.is_ready = status;
                proof {
                    old(self).lemma_distinct();
                    lemma_assoc_update(old(self).entries(), i as int, status);
                    assert(self.entries() =~= old(self).entries().update(
                        i as int,
                        (*user, status),
                    ));
                    assert forall|x: int, y: int| 0 <= x < y < self.users@.len() implies (
                    #[trigger] self.users@[x]).address.precedes(
                        (#[trigger] self.users@[y]).address,
                    ) by {
                        assert(old(self).users@[x].address.precedes(old(self).users@[y].address));
                    }
                }
                Ok(())
            },
        }
    }

    /// Whether `user` is ready. Fails with `CannotFindUser` where the user
    /// has not joined.
    pub fn is_ready(&self, user: &Address) -> (r: Result<bool, LobbyError>)
        requires
            self.wf(),
        ensures
            r == self@.is_ready(*user),
    {
        match self.find(user) {
            None => Err(LobbyError::CannotFindUser),
            Some(i) => Ok(self.users[i].user.is_ready),
        }
    }

    /// The users that are ready, by ascending address.
    pub fn ready_users(&self) -> (r: Vec<Address>)
        requires
            self.wf(),
        ensures
            self@.lists_ready(r@),
    {
        let mut out: Vec<Address> = Vec::new();
        let mut source: Ghost<Seq<int>> = Ghost(Seq::empty());
        let mut k: usize = 0;
        proof {
            self.lemma_distinct();
        }
        while k < self.users.len()
            invariant
                self.wf(),
                keys_distinct(self.entries()),
                k <= self.users.len(),
                source@.len() == out.len(),
                forall|i: int|
                    0 <= i < out.len() ==> {
                        &&& 0 <= (#[trigger] source@[i]) < k
                        &&& out[i] == self.users[source@[i]].address
                        &&& self.users[source@[i]].user.is_ready
                    },
                forall|i: int, j: int|
                    0 <= i < j < out.len() ==> (#[trigger] source@[i]) < (#[trigger] source@[j]),
                forall|p: int|
                    0 <= p < k && (#[trigger] self.users[p]).user.is_ready ==> exists|i: int|
                        0 <= i < out.len() && #[trigger] source@[i] == p,
            decreases self.users.len() - k,
        {
            if self.users[k].user.is_ready {
                let ghost old_source = source@;
                let ghost old_len = out.len();
                out.push(self.users[k].address);
                proof {
                    source@ = old_source.push(k as int);
                    assert forall|p: int|
                        0 <= p < k + 1 && (#[trigger] self.users[p]).user.is_ready implies exists|
                        i: int,
                    | 0 <= i < out.len() && #[trigger] source@[i] == p by {
                        if p < k {
                            let i = choose|i: int| 0 <= i < old_len && #[trigger] old_source[i] == p;
                            assert(source@[i] == p);
                        } else {
                            assert(source@[old_len as int] == p);
                        }
                    }
                }
            }
            k += 1;
        }
        proof {
            assert forall|i: int, j: int| 0 <= i < j < out@.len() implies (
            #[trigger] out@[i]).precedes(#[trigger] out@[j]) by {
                assert(source@[i] < source@[j]);
                assert(self.users@[source@[i]].address.precedes(self.users@[source@[j]].address));
            }
            assert forall|i: int| 0 <= i < out@.len() implies self@.users.contains_key(
                #[trigger] out@[i],
            ) && self@.users[out@[i]] by {
                lemma_assoc_at(self.entries(), source@[i]);
            }
            assert forall|a: Address| #[trigger]
                self@.users.contains_key(a) && self@.users[a] implies out@.contains(a) by {
                let p = position(self.entries(), a);
                assert(self.entries()[p].0 == a);
                lemma_assoc_at(self.entries(), p);
                assert(self.users[p].user.is_ready);
                let i = choose|i: int| 0 <= i < out.len() && #[trigger] source@[i] == p;
                assert(out@[i] == a);
            }
        }
        out
    }

    /// A copy of the lobby.
    pub fn duplicate(&self) -> (r: Lobby)
        ensures
            r.board == self.board,
            r.locked == self.locked,
            r.users@ == self.users@,
            r@ == self@,
            r.wf() == self.wf(),
    {
        let mut users: Vec<LobbyUser> = Vec::new();
        let mut i: usize = 0;
        while i < self.users.len()
            invariant
                i <= self.users.len(),
                users@ == self.users@.subrange(0, i as int),
            decreases self.users.len() - i,
        {
            users.push(self.users[i]);
            proof {
                assert(users@ =~= self.users@.subrange(0, i + 1));
            }
            i += 1;
        }
        proof {
            assert(users@ =~= self.users@);
        }
        let r = Lobby { board: self.board, locked: self.locked, users };
        proof {
            assert(r.entries() =~= self.entries());
        }
        r
    }

    /// Locks the lobby: the game has started.
    pub fn lock(&mut self)
        ensures
            final(self)@ == (LobbyView { locked: true, ..old(self)@ }),
            final(self).users == old(self).users,
            final(self).wf() == old(self).wf(),
    {
        self.locked = true;
    }
}

/// What a game says of itself.
#[derive(Clone, Debug, PartialEq, Eq)]
pub struct Metadata {
    pub name: String,
    pub description: Option<String>,
    pub game_id: String,
}

/// Why an operation on a game failed. A failed operation leaves the game as
/// it was.
#[derive(Clone, Copy, Debug, PartialEq, Eq, Structural, Hash)]
pub enum GameError {
    /// The caller is not the owner of the contract.
    NotContractOwner,
    /// The game has been set up before.
    AlreadyInitialized,
    /// The game has not been set up yet.
    NotInitialized,
    /// The session has a registered board already.
    SessionAlreadyRegistered,
    /// The score board belongs to another game.
    GameIdMismatch,
    /// The score board belongs to another session.
    SessionIdMismatch,
    /// This contract is not the administrator of the score board.
    NotBoardAdministrator,
    /// The score board has users already.
    BoardHasUsers,
    /// The session has no lobby.
    CannotFindSession,
    /// The lobby of the session is locked.
    LobbyLocked,
    /// The user has joined the lobby already.
    AlreadyJoined,
    /// The user cannot be found in the lobby.
    CannotFindUser,
    /// The caller is neither the owner nor an administrator.
    NotOwnerOrAdministrator,
    /// No user of the lobby is ready.
    NoReadyUsers,
    /// The user is an administrator already.
    AlreadyAdministrator,
}

/// The failure of a game that a failure of a lobby amounts to.
pub open spec fn lobby_failure(e: LobbyError) -> GameError {
    match e {
        LobbyError::Locked => GameError::LobbyLocked,
        LobbyError::AlreadyJoined => GameError::AlreadyJoined,
        LobbyError::CannotFindUser => GameError::CannotFindUser,
    }
}

/// The failure of a game that a failure of a lobby amounts to.
pub fn from_lobby_error(e: LobbyError) -> (r: GameError)
    ensures
        r == lobby_failure(e),
{
    match e {
        LobbyError::Locked => GameError::LobbyLocked,
        LobbyError::AlreadyJoined => GameError::AlreadyJoined,
        LobbyError::CannotFindUser => GameError::CannotFindUser,
    }
}

/// The lobby of a session under the id of the session.
#[derive(Clone, Debug, PartialEq, Eq)]
pub struct Session {
    pub session_id: String,
    pub lobby: Lobby,
}

/// A game with the lobbies of its sessions and its administrators.
#[derive(Clone, Debug, PartialEq, Eq)]
pub struct Contract {
    pub metadata: Metadata,
    pub registered_boards: Vec<Session>,
    pub administrators: AddressSet,
}

/// What an operation on the lobby of a session does to the lobbies of a
/// game: the lobby of the session is replaced where the operation succeeds,
/// and nothing changes where it fails or where the session has no lobby.
pub open spec fn in_session(
    sessions: Map<Seq<char>, LobbyView>,
    session_id: Seq<char>,
    outcome: spec_fn(LobbyView) -> Result<LobbyView, LobbyError>,
) -> Result<Map<Seq<char>, LobbyView>, GameError> {
    if !sessions.contains_key(session_id) {
        Err(GameError::CannotFindSession)
    } else {
        match outcome(sessions[session_id]) {
            Ok(lobby) => Ok(sessions.insert(session_id, lobby)),
            Err(e) => Err(lobby_failure(e)),
        }
    }
}

impl Contract {
    /// The sessions as pairs of an id and a lobby.
    pub open spec fn entries(self) -> Seq<(Seq<char>, LobbyView)> {
        Seq::new(
            self.registered_boards.len() as nat,
            |i: int| (self.registered_boards[i].session_id@, self.registered_boards[i].lobby@),
        )
    }

    /// The lobbies by the ids of their sessions.
    pub open spec fn sessions(self) -> Map<Seq<char>, LobbyView> {
        assoc_map(self.entries())
    }

    /// No session has two lobbies, and the lobbies and the set of
    /// administrators are well-formed.
    pub open spec fn wf(self) -> bool {
        &&& keys_distinct(self.entries())
        &&& forall|i: int|
            0 <= i < self.registered_boards.len() ==> (#[trigger] self.registered_boards[i]).lobby.wf()
        &&& self.administrators.wf()
    }

    /// Decides whether the game is well-formed.
    pub fn is_wf(&self) -> (r: bool)
        ensures
            r == self.wf(),
    {
        if !self.administrators.is_wf() {
            return false;
        }
        let mut i: usize = 0;
        while i < self.registered_boards.len()
            invariant
                i <= self.registered_boards.len(),
                forall|a: int, b: int|
                    0 <= a < b < i ==> (#[trigger] self.registered_boards[a]).session_id@ != (
                    #[trigger] self.registered_boards[b]).session_id@,
                forall|a: int| 0 <= a < i ==> (#[trigger] self.registered_boards[a]).lobby.wf(),
            decreases self.registered_boards.len() - i,
        {
            if !self.registered_boards[i].lobby.is_wf() {
                return false;
            }
            let mut j: usize = 0;
            while j < i
                invariant
                    j <= i,
                    i < self.registered_boards.len(),
                    forall|a: int|
                        0 <= a < j ==> (#[trigger] self.registered_boards[a]).session_id@
                            != self.registered_boards[i as int].session_id@,
                decreases i - j,
            {
                if self.registered_boards[j].session_id == self.registered_boards[i].session_id {
                    proof {
                        assert(self.entries()[j as int].0 == self.entries()[i as int].0);
                    }
                    return false;
                }
                j += 1;
            }
            i += 1;
        }
        proof {
            assert forall|a: int, b: int| 0 <= a < b < self.entries().len() implies (
            #[trigger] self.entries()[a]).0 != (#[trigger] self.entries()[b]).0 by {
                assert(self.registered_boards[a].session_id@
                    != self.registered_boards[b].session_id@);
            }
        }
        true
    }

    /// Sets the game up. Only the owner of the contract may, and only once.
    pub fn new(caller: Address, contract_owner: Address, initialized: bool, metadata: Metadata) -> (r:
        Result<Contract, GameError>)
        ensures
            match r {
                Ok(c) => {
                    &&& caller == contract_owner
                    &&& !initialized
                    &&& c.wf()
                    &&& c.metadata == metadata
                    &&& c.sessions() == Map::<Seq<char>, LobbyView>::empty()
                    &&& c.administrators@ == Set::<Address>::empty()
                },
                Err(e) => if caller != contract_owner {
                    e == GameError::NotContractOwner
                } else {
                    initialized && e == GameError::AlreadyInitialized
                },
            },
    {
        if caller != contract_owner {
            return Err(GameError::NotContractOwner);
        }
        if initialized {
            return Err(GameError::AlreadyInitialized);
        }
        let c = Contract {
            metadata,
            registered_boards: Vec::new(),
            administrators: AddressSet::new(),
        };
        proof {
            assert(c.sessions() =~= Map::<Seq<char>, LobbyView>::empty());
        }
        Ok(c)
    }

    /// The stored game, if there is one: without one the game is not set up.
    pub fn load(stored: Option<Contract>) -> (r: Result<Contract, GameError>)
        ensures
            match r {
                Ok(c) => stored == Some(c),
                Err(e) => stored is None && e == GameError::NotInitialized,
            },
    {
        match stored {
            Some(c) => Ok(c),
            None => Err(GameError::NotInitialized),
        }
    }

    /// The index of the lobby of the session `session_id`, if it has one.
    pub fn find_session(&self, session_id: &String) -> (r: Option<usize>)
        requires
            self.wf(),
        ensures
            match r {
                Some(i) => {
                    &&& i < self.registered_boards.len()
                    &&& self.registered_boards[i as int].session_id@ == session_id@
                    &&& self.sessions().contains_key(session_id@)
                    &&& self.sessions()[session_id@] == self.registered_boards[i as int].lobby@
                },
                None => !self.sessions().contains_key(session_id@),
            },
    {
        let mut i: usize = 0;
        while i < self.registered_boards.len()
            invariant
                self.wf(),
                i <= self.registered_boards.len(),
                forall|j: int| 0 <= j < i ==> self.registered_boards[j].session_id@ != session_id@,
            decreases self.registered_boards.len() - i,
        {
            if self.registered_boards[i].session_id == *session_id {
                proof {
                    lemma_assoc_at(self.entries(), i as int);
                }
                return Some(i);
            }
            i += 1;
        }
        proof {
            lemma_assoc_absent(self.entries(), session_id@);
        }
        None
    }

    /// Whether `caller` is the owner of the contract or an administrator of
    /// the game.
    pub fn is_owner_or_admin(&self, caller: &Address, contract_owner: &Address) -> (r: bool)
        ensures
            r == (*caller == *contract_owner || self.administrators@.contains(*caller)),
    {
        *caller == *contract_owner || self.administrators.contains(caller)
    }

    /// `caller` opens the lobby of the session `session_id`, which keeps its
    /// scores on the score board at `board`, and is its first user.
    /// `board_metadata` is what the score board says of itself,
    /// `board_administrator` is its administrator, `board_users` are its
    /// users, and `instance` is the address of this contract.
    ///
    /// Fails with `SessionAlreadyRegistered` where the session has a lobby,
    /// else with `GameIdMismatch` where the score board is of another game,
    /// else with `SessionIdMismatch` where it is of another session, else
    /// with `NotBoardAdministrator` where this contract is not its
    /// administrator, else with `BoardHasUsers` where it has users.
    pub fn create_lobby(
        &mut self,
        caller: Address,
        session_id: String,
        board: Address,
        board_metadata: &ScoreBoardMetadata,
        board_administrator: Address,
        board_users: &Vec<Address>,
        instance: Address,
    ) -> (r: Result<(), GameError>)
        requires
            old(self).wf(),
        ensures
            final(self).wf(),
            final(self).metadata == old(self).metadata,
            final(self).administrators == old(self).administrators,
            match r {
                Ok(()) => {
                    &&& !old(self).sessions().contains_key(session_id@)
                    &&& board_metadata.game_id@ == old(self).metadata.game_id@
                    &&& board_metadata.session_id@ == session_id@
                    &&& board_administrator == instance
                    &&& board_users.len() == 0
                    &&& final(self).sessions() == old(self).sessions().insert(
                        session_id@,
                        LobbyView {
                            board,
                            locked: false,
                            users: Map::<Address, bool>::empty().insert(caller, false),
                        },
                    )
                },
                Err(e) => {
                    &&& *final(self) == *old(self)
                    &&& e == if old(self).sessions().contains_key(session_id@) {
                        GameError::SessionAlreadyRegistered
                    } else if board_metadata.game_id@ != old(self).metadata.game_id@ {
                        GameError::GameIdMismatch
                    } else if board_metadata.session_id@ != session_id@ {
                        GameError::SessionIdMismatch
                    } else if board_administrator != instance {
                        GameError::NotBoardAdministrator
                    } else {
                        GameError::BoardHasUsers
                    }
                    &&& (old(self).sessions().contains_key(session_id@) || board_metadata.game_id@
                        != old(self).metadata.game_id@ || board_metadata.session_id@ != session_id@
                        || board_administrator != instance || board_users.len() != 0)
                },
            },
    {
        if self.find_session(&session_id).is_some() {
            return Err(GameError::SessionAlreadyRegistered);
        }
        if board_metadata.game_id != self.metadata.game_id {
            return Err(GameError::GameIdMismatch);
        }
        if board_metadata.session_id != session_id {
            return Err(GameError::SessionIdMismatch);
        }
        if board_administrator != instance {
            return Err(GameError::NotBoardAdministrator);
        }
        if board_users.len() != 0 {
            return Err(GameError::BoardHasUsers);
        }
        let mut first: Vec<Address> = Vec::new();
        first.push(caller);
        let lobby = Lobby::new(board, first);
        proof {
            assert(first@.contains(caller)) by {
                assert(first@[0] == caller);
            }
            assert(lobby@.users =~= Map::<Address, bool>::empty().insert(caller, false));
            lemma_assoc_push(old(self).entries(), session_id@, lobby@);
        }
        self.registered_boards.push(Session { session_id, lobby });
        proof {
            assert(self.entries() =~= old(self).entries().push((session_id@, lobby@)));
            assert forall|i: int| 0 <= i < self.registered_boards.len() implies (
            #[trigger] self.registered_boards[i]).lobby.wf() by {
                if i < old(self).registered_boards.len() {
                    assert(self.registered_boards[i] == old(self).registered_boards[i]);
                }
            }
        }
        Ok(())
    }

    /// What replacing the lobby at index `i` does to the sessions.
    proof fn lemma_lobby_replaced(before: Contract, after: Contract, i: int)
        requires
            before.wf(),
            0 <= i < before.registered_boards.len(),
            after.registered_boards.len() == before.registered_boards.len(),
            after.registered_boards[i].session_id == before.registered_boards[i].session_id,
            after.registered_boards[i].lobby.wf(),
            forall|k: int|
                0 <= k < before.registered_boards.len() && k != i ==> after.registered_boards[k]
                    == before.registered_boards[k],
            after.administrators == before.administrators,
        ensures
            after.wf(),
            after.sessions() == before.sessions().insert(
                before.registered_boards[i].session_id@,
                after.registered_boards[i].lobby@,
            ),
    {
        lemma_assoc_update(before.entries(), i, after.registered_boards[i].lobby@);
        assert(after.entries() =~= before.entries().update(
            i,
            (before.registered_boards[i].session_id@, after.registered_boards[i].lobby@),
        ));
        assert forall|k: int| 0 <= k < after.registered_boards.len() implies (
        #[trigger] after.registered_boards[k]).lobby.wf() by {
            if k != i {
                assert(after.registered_boards[k] == before.registered_boards[k]);
            }
        }
    }

    /// `caller` joins the lobby of the session `session_id`.
    ///
    /// Fails with `CannotFindSession` where the session has no lobby, else as
    /// joining the lobby fails.
    pub fn join_lobby(&mut self, caller: Address, session_id: &String) -> (r: Result<(), GameError>)
        requires
            old(self).wf(),
        ensures
            final(self).wf(),
            final(self).metadata == old(self).metadata,
            final(self).administrators == old(self).administrators,
            match r {
                Ok(()) => in_session(
                    old(self).sessions(),
                    session_id@,
                    |lobby: LobbyView| lobby.join(caller),
                ) == Ok::<Map<Seq<char>, LobbyView>, GameError>(final(self).sessions()),
                Err(e) => {
                    &&& in_session(
                        old(self).sessions(),
                        session_id@,
                        |lobby: LobbyView| lobby.join(caller),
                    ) == Err::<Map<Seq<char>, LobbyView>, GameError>(e)
                    &&& *final(self) == *old(self)
                },
            },
    {
        let i = match self.find_session(session_id) {
            Some(i) => i,
            None => {
                return Err(GameError::CannotFindSession);
            },
        };
        proof {
            assert(self.registered_boards[i as int].lobby.wf());
        }
        let mut lobby = self.registered_boards[i].lobby.duplicate();
        match lobby.join(caller) {
            Ok(()) => {
                self.registered_boards[i].lobby = lobby;
                proof {
                    Self::lemma_lobby_replaced(*old(self), *self, i as int);
                }
                Ok(())
            },
            Err(e) => Err(from_lobby_error(e)),
        }
    }

    /// `caller` asks to leave the lobby of the session `session_id`. The
    /// game stays as it is either way.
    ///
    /// Fails with `CannotFindSession` where the session has no lobby, else as
    /// leaving the lobby fails.
    pub fn leave_lobby(&self, caller: Address, session_id: &String) -> (r: Result<(), GameError>)
        requires
            self.wf(),
        ensures
            match r {
                Ok(()) => in_session(
                    self.sessions(),
                    session_id@,
                    |lobby: LobbyView| lobby.leave(caller),
                ) is Ok,
                Err(e) => in_session(
                    self.sessions(),
                    session_id@,
                    |lobby: LobbyView| lobby.leave(caller),
                ) == Err::<Map<Seq<char>, LobbyView>, GameError>(e),
            },
    {
        let i = match self.find_session(session_id) {
            Some(i) => i,
            None => {
                return Err(GameError::CannotFindSession);
            },
        };
        proof {
            assert(self.registered_boards[i as int].lobby.wf());
        }
        let mut lobby = self.registered_boards[i].lobby.duplicate();
        match lobby.leave(&caller) {
            Ok(()) => Ok(()),
            Err(e) => Err(from_lobby_error(e)),
        }
    }

    /// `caller` says whether it is ready in the lobby of the session
    /// `session_id`.
    ///
    /// Fails with `CannotFindSession` where the session has no lobby, else as
    /// recording it in the lobby fails.
    pub fn set_user_ready_status(&mut self, caller: Address, session_id: &String, status: bool) -> (r:
        Result<(), GameError>)
        requires
            old(self).wf(),
        ensures
            final(self).wf(),
            final(self).metadata == old(self).metadata,
            final(self).administrators == old(self).administrators,
            match r {
                Ok(()) => in_session(
                    old(self).sessions(),
                    session_id@,
                    |lobby: LobbyView| lobby.set_ready(caller, status),
                ) == Ok::<Map<Seq<char>, LobbyView>, GameError>(final(self).sessions()),
                Err(e) => {
                    &&& in_session(
                        old(self).sessions(),
                        session_id@,
                        |lobby: LobbyView| lobby.set_ready(caller, status),
                    ) == Err::<Map<Seq<char>, LobbyView>, GameError>(e)
                    &&& *final(self) == *old(self)
                },
            },
    {
        let i = match self.find_session(session_id) {
            Some(i) => i,
            None => {
                return Err(GameError::CannotFindSession);
            },
        };
        proof {
            assert(self.registered_boards[i as int].lobby.wf());
        }
        let mut lobby = self.registered_boards[i].lobby.duplicate();
        match lobby.set_ready(&caller, status) {
            Ok(()) => {
                self.registered_boards[i].lobby = lobby;
                proof {
                    Self::lemma_lobby_replaced(*old(self), *self, i as int);
                }
                Ok(())
            },
            Err(e) => Err(from_lobby_error(e)),
        }
    }

    /// The owner or an administrator starts the game of the session
    /// `session_id`: its lobby is locked. Returns the score board of the
    /// session and the users that are ready, by ascending address: the game
    /// is to be started on that score board with these as its players.
    ///
    /// Fails with `NotOwnerOrAdministrator` where `caller` is neither, else
    /// with `CannotFindSession` where the session has no lobby, else with
    /// `LobbyLocked` where the lobby is locked, else with `NoReadyUsers`
    /// where no user is ready.
    pub fn start_game(&mut self, caller: Address, contract_owner: Address, session_id: &String) -> (r:
        Result<(Address, Vec<Address>), GameError>)
        requires
            old(self).wf(),
        ensures
            final(self).wf(),
            final(self).metadata == old(self).metadata,
            final(self).administrators == old(self).administrators,
            match r {
                Ok((board, players)) => {
                    &&& caller == contract_owner || old(self).administrators@.contains(caller)
                    &&& old(self).sessions().contains_key(session_id@)
                    &&& !old(self).sessions()[session_id@].locked
                    &&& board == old(self).sessions()[session_id@].board
                    &&& old(self).sessions()[session_id@].lists_ready(players@)
                    &&& players.len() > 0
                    &&& final(self).sessions() == old(self).sessions().insert(
                        session_id@,
                        LobbyView { locked: true, ..old(self).sessions()[session_id@] },
                    )
                },
                Err(e) => {
                    &&& *final(self) == *old(self)
                    &&& if !(caller == contract_owner || old(self).administrators@.contains(caller)) {
                        e == GameError::NotOwnerOrAdministrator
                    } else if !old(self).sessions().contains_key(session_id@) {
                        e == GameError::CannotFindSession
                    } else if old(self).sessions()[session_id@].locked {
                        e == GameError::LobbyLocked
                    } else {
                        &&& e == GameError::NoReadyUsers
                        &&& forall|a: Address| #[trigger]
                            old(self).sessions()[session_id@].users.contains_key(a) ==> !old(
                                self,
                            ).sessions()[session_id@].users[a]
                    }
                },
            },
    {
        if !self.is_owner_or_admin(&caller, &contract_owner) {
            return Err(GameError::NotOwnerOrAdministrator);
        }
        let i = match self.find_session(session_id) {
            Some(i) => i,
            None => {
                return Err(GameError::CannotFindSession);
            },
        };
        proof {
            assert(self.registered_boards[i as int].lobby.wf());
        }
        if self.registered_boards[i].lobby.locked {
            return Err(GameError::LobbyLocked);
        }
        let board = self.registered_boards[i].lobby.board;
        let players = self.registered_boards[i].lobby.ready_users();
        if players.len() == 0 {
            proof {
                let lobby = self.sessions()[session_id@];
                assert forall|a: Address| #[trigger] lobby.users.contains_key(a) implies !lobby.users[a] by {
                    if lobby.users[a] {
                        assert(players@.contains(a));
                    }
                }
            }
            return Err(GameError::NoReadyUsers);
        }
        self.registered_boards[i].lobby.lock();
        proof {
            Self::lemma_lobby_replaced(*old(self), *self, i as int);
        }
        Ok((board, players))
    }

    /// The owner or an administrator ends the game of the session
    /// `session_id`. Returns the score board of the session: the game is to
    /// be ended there.
    ///
    /// Fails with `NotOwnerOrAdministrator` where `caller` is neither, else
    /// with `CannotFindSession` where the session has no lobby.
    pub fn end_game(&self, caller: Address, contract_owner: Address, session_id: &String) -> (r:
        Result<Address, GameError>)
        requires
            self.wf(),
        ensures
            match r {
                Ok(board) => {
                    &&& caller == contract_owner || self.administrators@.contains(caller)
                    &&& self.sessions().contains_key(session_id@)
                    &&& board == self.sessions()[session_id@].board
                },
                Err(e) => if !(caller == contract_owner || self.administrators@.contains(caller)) {
                    e == GameError::NotOwnerOrAdministrator
                } else {
                    !self.sessions().contains_key(session_id@) && e == GameError::CannotFindSession
                },
            },
    {
        if !self.is_owner_or_admin(&caller, &contract_owner) {
            return Err(GameError::NotOwnerOrAdministrator);
        }
        match self.find_session(session_id) {
            Some(i) => Ok(self.registered_boards[i].lobby.board),
            None => Err(GameError::CannotFindSession),
        }
    }

    /// The owner makes `user` an administrator.
    ///
    /// Fails with `NotContractOwner` where `caller` is not the owner, else
    /// with `AlreadyAdministrator` where `user` is an administrator.
    pub fn add_admin(&mut self, caller: Address, contract_owner: Address, user: Address) -> (r:
        Result<(), GameError>)
        requires
            old(self).wf(),
        ensures
            final(self).wf(),
            final(self).metadata == old(self).metadata,
            final(self).registered_boards == old(self).registered_boards,
            match r {
                Ok(()) => {
                    &&& caller == contract_owner
                    &&& !old(self).administrators@.contains(user)
                    &&& final(self).administrators@ == old(self).administrators@.insert(user)
                },
                Err(e) => {
                    &&& *final(self) == *old(self)
                    &&& if caller != contract_owner {
                        e == GameError::NotContractOwner
                    } else {
                        old(self).administrators@.contains(user) && e
                            == GameError::AlreadyAdministrator
                    }
                },
            },
    {
        if caller != contract_owner {
            return Err(GameError::NotContractOwner);
        }
        if !self.administrators.insert(user) {
            return Err(GameError::AlreadyAdministrator);
        }
        proof {
            assert(self.entries() =~= old(self).entries());
        }
        Ok(())
    }

    /// The owner takes `user` from the administrators, if it is one.
    ///
    /// Fails with `NotContractOwner` where `caller` is not the owner.
    pub fn remove_admin(&mut self, caller: Address, contract_owner: Address, user: Address) -> (r:
        Result<(), GameError>)
        requires
            old(self).wf(),
        ensures
            final(self).wf(),
            final(self).metadata == old(self).metadata,
            final(self).registered_boards == old(self).registered_boards,
            match r {
                Ok(()) => {
                    &&& caller == contract_owner
                    &&& final(self).administrators@ == old(self).administrators@.remove(user)
                },
                Err(e) => {
                    &&& *final(self) == *old(self)
                    &&& caller != contract_owner
                    &&& e == GameError::NotContractOwner
                },
            },
    {
        if caller != contract_owner {
            return Err(GameError::NotContractOwner);
        }
        self.administrators.remove(&user);
        proof {
            assert(self.entries() =~= old(self).entries());
        }
        Ok(())
    }

    /// The administrators, by ascending address.
    pub fn list_admins(&self) -> (r: Vec<Address>)
        requires
            self.wf(),
        ensures
            lists_addresses(self.administrators@, r@),
    {
        self.administrators.to_vec()
    }

    /// The name of the game.
    pub fn name(&self) -> (r: String)
        ensures
            r == self.metadata.name,
    {
        self.metadata.name.clone()
    }

    /// What the game says of itself.
    pub fn metadata(&self) -> (r: Metadata)
        ensures
            r == self.metadata,
    {
        Metadata {
            name: self.metadata.name.clone(),
            description: copy_text(&self.metadata.description),
            game_id: self.metadata.game_id.clone(),
        }
    }

    /// The score board of the session `session_id`. Fails with
    /// `CannotFindSession` where the session has no lobby.
    pub fn get_board_by_session(&self, session_id: &String) -> (r: Result<Address, GameError>)
        requires
            self.wf(),
        ensures
            match r {
                Ok(board) => self.sessions().contains_key(session_id@) && board
                    == self.sessions()[session_id@].board,
                Err(e) => !self.sessions().contains_key(session_id@) && e
                    == GameError::CannotFindSession,
            },
    {
        match self.find_session(session_id) {
            Some(i) => Ok(self.registered_boards[i].lobby.board),
            None => Err(GameError::CannotFindSession),
        }
    }

    /// The lobby of the session `session_id`. Fails with
    /// `CannotFindSession` where the session has none.
    pub fn get_lobby_by_session(&self, session_id: &String) -> (r: Result<Lobby, GameError>)
        requires
            self.wf(),
        ensures
            match r {
                Ok(lobby) => self.sessions().contains_key(session_id@) && lobby@
                    == self.sessions()[session_id@] && lobby.wf(),
                Err(e) => !self.sessions().contains_key(session_id@) && e
                    == GameError::CannotFindSession,
            },
    {
        match self.find_session(session_id) {
            Some(i) => {
                proof {
                    assert(self.registered_boards[i as int].lobby.wf());
                }
                Ok(self.registered_boards[i].lobby.duplicate())
            },
            None => Err(GameError::CannotFindSession),
        }
    }
}

} // verus!
