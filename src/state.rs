use vstd::prelude::*;

use crate::identity::Identity;
use crate::token::{IRC2Token, TransferError};

verus! {

/// What every new account is credited with.
pub const GRANT: u64 = 1000;

/// An account as the host sees it: the username and what its owner holds.
#[derive(Clone, Debug)]
pub struct User {
    pub username: String,
    pub balance: u64,
}

/// Why a registration was refused.
#[derive(Debug, PartialEq, Eq, Structural)]
pub enum RegistrationError {
    /// The requested username is empty.
    InvalidUsername,
    /// The caller already owns an account, under another username.
    AlreadyRegistered,
    /// Granting one more account would overflow the supply.
    SupplyExhausted,
}

/// One registered account: its owner and its username.
struct Profile {
    owner: Identity,
    username: String,
}

spec fn accounts_in(s: Seq<Profile>) -> Map<Seq<u8>, Seq<char>>
    decreases s.len(),
{
    if s.len() == 0 {
        Map::empty()
    } else {
        accounts_in(s.drop_last()).insert(s.last().owner@, s.last().username@)
    }
}

spec fn usernames_in(s: Seq<Profile>) -> Map<Seq<char>, Seq<u8>>
    decreases s.len(),
{
    if s.len() == 0 {
        Map::empty()
    } else {
        usernames_in(s.drop_last()).insert(s.last().username@, s.last().owner@)
    }
}

spec fn profiles_distinct(s: Seq<Profile>) -> bool {
    &&& forall|i: int, j: int| 0 <= i < j < s.len() ==> s[i].owner@ != s[j].owner@
    &&& forall|i: int, j: int| 0 <= i < j < s.len() ==> s[i].username@ != s[j].username@
}

/// With distinct owners and usernames, each profile is found under both keys.
proof fn lemma_profile_at(s: Seq<Profile>, i: int)
    requires
        profiles_distinct(s),
        0 <= i < s.len(),
    ensures
        accounts_in(s).contains_key(s[i].owner@),
        accounts_in(s)[s[i].owner@] == s[i].username@,
        usernames_in(s).contains_key(s[i].username@),
        usernames_in(s)[s[i].username@] == s[i].owner@,
    decreases s.len(),
{
    if i != s.len() - 1 {
        lemma_profile_at(s.drop_last(), i);
    }
}

/// An identity with no profile owns no account.
proof fn lemma_owner_absent(s: Seq<Profile>, id: Seq<u8>)
    requires
        forall|i: int| 0 <= i < s.len() ==> s[i].owner@ != id,
    ensures
        !accounts_in(s).contains_key(id),
    decreases s.len(),
{
    if s.len() > 0 {
        lemma_owner_absent(s.drop_last(), id);
    }
}

/// A username with no profile is not taken.
proof fn lemma_username_absent(s: Seq<Profile>, name: Seq<char>)
    requires
        forall|i: int| 0 <= i < s.len() ==> s[i].username@ != name,
    ensures
        !usernames_in(s).contains_key(name),
    decreases s.len(),
{
    if s.len() > 0 {
        lemma_username_absent(s.drop_last(), name);
    }
}

/// A new profile adds one entry to each index.
proof fn lemma_push_profile(s: Seq<Profile>, p: Profile)
    ensures
        accounts_in(s.push(p)) == accounts_in(s).insert(p.owner@, p.username@),
        usernames_in(s.push(p)) == usernames_in(s).insert(p.username@, p.owner@),
{
    assert(s.push(p).drop_last() =~= s);
}

/// There are as many accounts as profiles.
proof fn lemma_accounts_counted(s: Seq<Profile>)
    requires
        profiles_distinct(s),
    ensures
        accounts_in(s).dom().finite(),
        accounts_in(s).dom().len() == s.len(),
    decreases s.len(),
{
    if s.len() > 0 {
        let d = s.drop_last();
        lemma_accounts_counted(d);
        lemma_owner_absent(d, s.last().owner@);
    }
}

/// The registry: every account, keyed both by owner and by username, and the
/// token ledger that holds the balances.
pub struct State {
    users: Vec<Profile>,
    token: IRC2Token,
}

impl State {
    /// The username of each identity that owns an account.
    pub closed spec fn accounts(&self) -> Map<Seq<u8>, Seq<char>> {
        accounts_in(self.users@)
    }

    /// The owner of each username that is taken.
    pub closed spec fn usernames(&self) -> Map<Seq<char>, Seq<u8>> {
        usernames_in(self.users@)
    }

    /// What `id` holds; 0 for an identity that the ledger has never seen.
    pub closed spec fn balance_of(&self, id: Seq<u8>) -> nat {
        self.token.balance_of(id)
    }

    /// The sum of all balances.
    pub closed spec fn held_total(&self) -> nat {
        self.token.held_total()
    }

    /// The sum of all grants ever issued.
    pub closed spec fn supply(&self) -> nat {
        self.token.supply()
    }

    /// Owners and usernames are unique, no username is empty, and each
    /// account has brought exactly one grant into the supply.
    pub closed spec fn wf(&self) -> bool {
        &&& self.token.wf()
        &&& profiles_distinct(self.users@)
        &&& forall|i: int| 0 <= i < self.users@.len() ==> self.users@[i].username@.len() > 0
        &&& self.token.supply() == GRANT * self.users@.len()
    }

    /// `self` holds the same accounts, usernames, balances and supply as `other`.
    pub open spec fn same_as(&self, other: &State) -> bool {
        &&& self.accounts() == other.accounts()
        &&& self.usernames() == other.usernames()
        &&& self.supply() == other.supply()
        &&& forall|k: Seq<u8>| #[trigger] self.balance_of(k) == other.balance_of(k)
    }

    /// Whether registering `name` for `caller` creates a new account.
    pub open spec fn admits(&self, caller: Seq<u8>, name: Seq<char>) -> bool {
        &&& name.len() > 0
        &&& !self.usernames().contains_key(name)
        &&& !self.accounts().contains_key(caller)
        &&& self.supply() + GRANT <= u64::MAX
    }

    /// Grants are conserved: with N accounts registered, the supply is N times
    /// the grant, and the balances of all identities sum to the supply.
    pub proof fn lemma_grant_conservation(&self)
        requires
            self.wf(),
        ensures
            self.accounts().dom().finite(),
            self.supply() == GRANT * self.accounts().dom().len(),
            self.held_total() == self.supply(),
    {
        lemma_accounts_counted(self.users@);
        self.token.lemma_balances_within_supply(Seq::<u8>::empty());
    }

    /// The two indexes agree: each taken username belongs to an identity whose
    /// account carries that username, and each account's username is taken by
    /// its owner. So no two identities share a username.
    pub proof fn lemma_registry_consistent(&self)
        requires
            self.wf(),
        ensures
            forall|name: Seq<char>| #[trigger]
                self.usernames().contains_key(name) ==> {
                    &&& self.accounts().contains_key(self.usernames()[name])
                    &&& self.accounts()[self.usernames()[name]] == name
                },
            forall|id: Seq<u8>| #[trigger]
                self.accounts().contains_key(id) ==> {
                    &&& self.usernames().contains_key(self.accounts()[id])
                    &&& self.usernames()[self.accounts()[id]] == id
                },
    {
        let s = self.users@;
        assert forall|name: Seq<char>| #[trigger] self.usernames().contains_key(name) implies {
            &&& self.accounts().contains_key(self.usernames()[name])
            &&& self.accounts()[self.usernames()[name]] == name
        } by {
            if forall|i: int| 0 <= i < s.len() ==> s[i].username@ != name {
                lemma_username_absent(s, name);
            }
            let i = choose|i: int| 0 <= i < s.len() && s[i].username@ == name;
            lemma_profile_at(s, i);
        }
        assert forall|id: Seq<u8>| #[trigger] self.accounts().contains_key(id) implies {
            &&& self.usernames().contains_key(self.accounts()[id])
            &&& self.usernames()[self.accounts()[id]] == id
        } by {
            if forall|i: int| 0 <= i < s.len() ==> s[i].owner@ != id {
                lemma_owner_absent(s, id);
            }
            let i = choose|i: int| 0 <= i < s.len() && s[i].owner@ == id;
            lemma_profile_at(s, i);
        }
    }

    /// An empty registry.
    pub fn new() -> (r: State)
        ensures
            r.wf(),
            r.accounts() == Map::<Seq<u8>, Seq<char>>::empty(),
            r.usernames() == Map::<Seq<char>, Seq<u8>>::empty(),
            r.supply() == 0,
            forall|k: Seq<u8>| #[trigger] r.balance_of(k) == 0,
    {
        State { users: Vec::new(), token: IRC2Token::new() }
    }

    /// The sum of all grants ever issued.
    pub fn total_supply(&self) -> (r: u64)
        ensures
            r == self.supply(),
    {
        self.token.total_supply()
    }

    fn find_owner(&self, id: &Identity) -> (r: Option<usize>)
        ensures
            match r {
                Some(i) => i < self.users@.len() && self.users@[i as int].owner@ == id@,
                None => forall|i: int| 0 <= i < self.users@.len() ==> self.users@[i].owner@ != id@,
            },
    {
        let mut i: usize = 0;
        while i < self.users.len()
            invariant
                0 <= i <= self.users@.len(),
                forall|j: int| 0 <= j < i ==> self.users@[j].owner@ != id@,
            decreases self.users@.len() - i,
        {
            if self.users[i].owner.same_as(id) {
                return Some(i);
            }
            i = i + 1;
        }
        None
    }

    fn find_username(&self, name: &String) -> (r: Option<usize>)
        ensures
            match r {
                Some(i) => i < self.users@.len() && self.users@[i as int].username@ == name@,
                None => forall|i: int|
                    0 <= i < self.users@.len() ==> self.users@[i].username@ != name@,
            },
    {
        let mut i: usize = 0;
        while i < self.users.len()
            invariant
                0 <= i <= self.users@.len(),
                forall|j: int| 0 <= j < i ==> self.users@[j].username@ != name@,
            decreases self.users@.len() - i,
        {
            if self.users[i].username == *name {
                return Some(i);
            }
            i = i + 1;
        }
        None
    }

    /// Whether `id` owns an account.
    pub fn is_registered(&self, id: &Identity) -> (r: bool)
        requires
            self.wf(),
        ensures
            r == self.accounts().contains_key(id@),
    {
        match self.find_owner(id) {
            Some(i) => {
                proof {
                    lemma_profile_at(self.users@, i as int);
                }
                true
            },
            None => {
                proof {
                    lemma_owner_absent(self.users@, id@);
                }
                false
            },
        }
    }

    /// The caller's own account, read through the ledger for its balance; an
    /// empty username and a zero balance where the caller owns none.
    pub fn get_self(&self, caller: &Identity) -> (r: User)
        requires
            self.wf(),
        ensures
            self.accounts().contains_key(caller@) ==> r.username@ == self.accounts()[caller@]
                && r.balance == self.balance_of(caller@),
            !self.accounts().contains_key(caller@) ==> r.username@ == Seq::<char>::empty()
                && r.balance == 0,
    {
        match self.find_owner(caller) {
            Some(i) => {
                proof {
                    lemma_profile_at(self.users@, i as int);
                }
                User { username: self.users[i].username.clone(), balance: self.token.balance(caller) }
            },
            None => {
                proof {
                    lemma_owner_absent(self.users@, caller@);
                }
                User { username: String::new(), balance: 0 }
            },
        }
    }

    /// What the caller holds; 0 where it has never held anything.
    pub fn get_balance(&self, caller: &Identity) -> (r: u64)
        requires
            self.wf(),
        ensures
            r == self.balance_of(caller@),
    {
        self.token.balance(caller)
    }

    /// Registers `username` for `caller` and credits the caller with the grant.
    /// A username that is already taken is not registered again: the account
    /// of its owner comes back, whoever asks, and nothing changes. An identity
    /// owns at most one account, so a caller that has one cannot take a second
    /// username.
    pub fn register_account(&mut self, caller: &Identity, username: String) -> (r: Result<
        User,
        RegistrationError,
    >)
        requires
            old(self).wf(),
        ensures
            final(self).wf(),
            username@.len() == 0 ==> r == Err::<User, RegistrationError>(
                RegistrationError::InvalidUsername,
            ),
            username@.len() > 0 && old(self).usernames().contains_key(username@) ==> {
                let owner = old(self).usernames()[username@];
                &&& r is Ok
                &&& r->Ok_0.username@ == username@
                &&& r->Ok_0.balance == old(self).balance_of(owner)
                &&& old(self).accounts().contains_key(owner)
                &&& old(self).accounts()[owner] == username@
            },
            username@.len() > 0 && !old(self).usernames().contains_key(username@)
                && old(self).accounts().contains_key(caller@) ==> r == Err::<User, RegistrationError>(
                RegistrationError::AlreadyRegistered,
            ),
            username@.len() > 0 && !old(self).usernames().contains_key(username@)
                && !old(self).accounts().contains_key(caller@) && old(self).supply() + GRANT
                > u64::MAX ==> r == Err::<User, RegistrationError>(
                RegistrationError::SupplyExhausted,
            ),
            !old(self).admits(caller@, username@) ==> final(self).same_as(old(self)),
            old(self).admits(caller@, username@) ==> {
                &&& r is Ok
                &&& r->Ok_0.username@ == username@
                &&& r->Ok_0.balance == final(self).balance_of(caller@)
                &&& final(self).accounts() == old(self).accounts().insert(caller@, username@)
                &&& final(self).usernames() == old(self).usernames().insert(username@, caller@)
                &&& final(self).supply() == old(self).supply() + GRANT
                &&& final(self).balance_of(caller@) == old(self).balance_of(caller@) + GRANT
                &&& forall|k: Seq<u8>|
                    k != caller@ ==> #[trigger] final(self).balance_of(k) == old(self).balance_of(k)
            },
    {
        if username.as_str().is_empty() {
            return Err(RegistrationError::InvalidUsername);
        }
        match self.find_username(&username) {
            Some(i) => {
                proof {
                    lemma_profile_at(self.users@, i as int);
                }
                let balance = self.token.balance(&self.users[i].owner);
                return Ok(User { username, balance });
            },
            None => {
                proof {
                    lemma_username_absent(self.users@, username@);
                }
            },
        }
        match self.find_owner(caller) {
            Some(i) => {
                proof {
                    lemma_profile_at(self.users@, i as int);
                }
                return Err(RegistrationError::AlreadyRegistered);
            },
            None => {
                proof {
                    lemma_owner_absent(self.users@, caller@);
                }
            },
        }
        if self.token.total_supply() > u64::MAX - GRANT {
            return Err(RegistrationError::SupplyExhausted);
        }
        let ghost before = self.users@;
        let profile = Profile { owner: caller.duplicate(), username: username.clone() };
        proof {
            lemma_push_profile(self.users@, profile);
        }
        self.users.push(profile);
        proof {
            assert(self.users@ == before.push(profile));
            assert(profiles_distinct(self.users@));
        }
        self.token.grant(caller, GRANT);
        let balance = self.token.balance(caller);
        Ok(User { username, balance })
    }

    /// Registers the username of `user` for `caller`, as `register_account`
    /// does; its balance is ignored. `None` where registration was refused.
    pub fn create_account(&mut self, caller: &Identity, user: User) -> (r: Option<User>)
        requires
            old(self).wf(),
        ensures
            final(self).wf(),
            r is None <==> user.username@.len() == 0 || (!old(self).usernames().contains_key(
                user.username@,
            ) && !old(self).admits(caller@, user.username@)),
            user.username@.len() > 0 && old(self).usernames().contains_key(user.username@) ==> {
                &&& r is Some
                &&& r->Some_0.username@ == user.username@
                &&& r->Some_0.balance == old(self).balance_of(old(self).usernames()[user.username@])
            },
            !old(self).admits(caller@, user.username@) ==> final(self).same_as(old(self)),
            old(self).admits(caller@, user.username@) ==> {
                &&& r is Some
                &&& r->Some_0.username@ == user.username@
                &&& r->Some_0.balance == final(self).balance_of(caller@)
                &&& final(self).accounts() == old(self).accounts().insert(caller@, user.username@)
                &&& final(self).usernames() == old(self).usernames().insert(user.username@, caller@)
                &&& final(self).supply() == old(self).supply() + GRANT
                &&& final(self).balance_of(caller@) == old(self).balance_of(caller@) + GRANT
                &&& forall|k: Seq<u8>|
                    k != caller@ ==> #[trigger] final(self).balance_of(k) == old(self).balance_of(k)
            },
    {
        match self.register_account(caller, user.username) {
            Ok(u) => Some(u),
            Err(_) => None,
        }
    }

    /// Moves `amount` from the caller to `to`, who need not own an account.
    /// Refused, with nothing changed, where the caller holds less than `amount`.
    pub fn transfer_tokens(&mut self, caller: &Identity, to: &Identity, amount: u64) -> (r: Result<
        (),
        TransferError,
    >)
        requires
            old(self).wf(),
        ensures
            final(self).wf(),
            final(self).accounts() == old(self).accounts(),
            final(self).usernames() == old(self).usernames(),
            final(self).supply() == old(self).supply(),
            r is Err <==> old(self).balance_of(caller@) < amount,
            r is Err ==> r == Err::<(), TransferError>(TransferError::InsufficientBalance)
                && final(self).same_as(old(self)),
            r is Ok ==> final(self).balance_of(caller@) + final(self).balance_of(to@)
                == old(self).balance_of(caller@) + old(self).balance_of(to@),
            r is Ok && caller@ == to@ ==> final(self).same_as(old(self)),
            r is Ok && caller@ != to@ ==> {
                &&& final(self).balance_of(caller@) == old(self).balance_of(caller@) - amount
                &&& final(self).balance_of(to@) == old(self).balance_of(to@) + amount
                &&& forall|k: Seq<u8>|
                    k != caller@ && k != to@ ==> #[trigger] final(self).balance_of(k)
                        == old(self).balance_of(k)
            },
    {
        self.token.transfer(caller, to, amount)
    }
}

} // verus!
