use vstd::prelude::*;

use crate::identity::Identity;

verus! {

/// Why a transfer was refused.
#[derive(Debug, PartialEq, Eq, Structural)]
pub enum TransferError {
    /// The sender holds less than the amount.
    InsufficientBalance,
}

impl TransferError {
    /// The message that the host shows for this error.
    pub fn message(&self) -> (r: String)
        ensures
            r@ == transfer_error_text(),
    {
        match self {
            TransferError::InsufficientBalance => "Insufficient balance".to_string(),
        }
    }
}

pub open spec fn transfer_error_text() -> Seq<char> {
    "Insufficient balance"@
}

/// One row of the ledger: what an identity holds.
struct Holding {
    owner: Identity,
    amount: u64,
}

/// What `id` holds in the rows `s`: the amount of its row, or 0 where it has none.
spec fn held_by(s: Seq<Holding>, id: Seq<u8>) -> nat
    decreases s.len(),
{
    if s.len() == 0 {
        0
    } else if s.last().owner@ == id {
        s.last().amount as nat
    } else {
        held_by(s.drop_last(), id)
    }
}

/// The sum of all amounts in the rows `s`.
spec fn held_in_all(s: Seq<Holding>) -> nat
    decreases s.len(),
{
    if s.len() == 0 {
        0
    } else {
        held_in_all(s.drop_last()) + s.last().amount as nat
    }
}

spec fn owners_distinct(s: Seq<Holding>) -> bool {
    forall|i: int, j: int| 0 <= i < j < s.len() ==> s[i].owner@ != s[j].owner@
}

/// With distinct owners, an identity holds exactly the amount of its row.
proof fn lemma_held_at(s: Seq<Holding>, i: int)
    requires
        owners_distinct(s),
        0 <= i < s.len(),
    ensures
        held_by(s, s[i].owner@) == s[i].amount,
    decreases s.len(),
{
    if i != s.len() - 1 {
        lemma_held_at(s.drop_last(), i);
    }
}

/// An identity without a row holds nothing.
proof fn lemma_held_absent(s: Seq<Holding>, id: Seq<u8>)
    requires
        forall|i: int| 0 <= i < s.len() ==> s[i].owner@ != id,
    ensures
        held_by(s, id) == 0,
    decreases s.len(),
{
    if s.len() > 0 {
        lemma_held_absent(s.drop_last(), id);
    }
}

/// No identity holds more than all rows together.
proof fn lemma_held_bounded(s: Seq<Holding>, id: Seq<u8>)
    ensures
        held_by(s, id) <= held_in_all(s),
    decreases s.len(),
{
    if s.len() > 0 {
        lemma_held_bounded(s.drop_last(), id);
    }
}

/// Rewriting one row changes that owner's balance and the total by the same step.
proof fn lemma_update_row(s: Seq<Holding>, i: int, h: Holding)
    requires
        owners_distinct(s),
        0 <= i < s.len(),
        h.owner@ == s[i].owner@,
    ensures
        owners_distinct(s.update(i, h)),
        held_in_all(s.update(i, h)) + s[i].amount == held_in_all(s) + h.amount,
        held_by(s.update(i, h), h.owner@) == h.amount,
        forall|k: Seq<u8>| k != h.owner@ ==> #[trigger] held_by(s.update(i, h), k) == held_by(s, k),
    decreases s.len(),
{
    let t = s.update(i, h);
    if i == s.len() - 1 {
        assert(t.drop_last() =~= s.drop_last());
        assert(t.last() == h);
        assert(s.last() == s[i]);
        assert forall|k: Seq<u8>| k != h.owner@ implies #[trigger] held_by(t, k) == held_by(s, k) by {
            assert(held_by(t, k) == held_by(t.drop_last(), k));
            assert(held_by(s, k) == held_by(s.drop_last(), k));
        }
    } else {
        let d = s.drop_last();
        lemma_update_row(d, i, h);
        assert(t.drop_last() =~= d.update(i, h));
        assert(t.last() == s.last());
        assert(s.last().owner@ != s[i].owner@);
        assert forall|k: Seq<u8>| k != h.owner@ implies #[trigger] held_by(t, k) == held_by(s, k) by {
            if s.last().owner@ != k {
                assert(held_by(t, k) == held_by(d.update(i, h), k));
            }
        }
    }
}

/// A row for a new owner adds its amount to the total and touches no other balance.
proof fn lemma_push_row(s: Seq<Holding>, h: Holding)
    requires
        owners_distinct(s),
        forall|i: int| 0 <= i < s.len() ==> s[i].owner@ != h.owner@,
    ensures
        owners_distinct(s.push(h)),
        held_in_all(s.push(h)) == held_in_all(s) + h.amount,
        held_by(s.push(h), h.owner@) == h.amount,
        forall|k: Seq<u8>| k != h.owner@ ==> #[trigger] held_by(s.push(h), k) == held_by(s, k),
{
    assert(s.push(h).drop_last() =~= s);
}

/// The token ledger: the balance of every identity that ever held tokens, and
/// the total that was ever granted.
pub struct IRC2Token {
    total_supply: u64,
    balances: Vec<Holding>,
}

impl IRC2Token {
    /// What `id` holds; 0 for an identity that the ledger has never seen.
    pub closed spec fn balance_of(&self, id: Seq<u8>) -> nat {
        held_by(self.balances@, id)
    }

    /// The sum of all balances.
    pub closed spec fn held_total(&self) -> nat {
        held_in_all(self.balances@)
    }

    /// The sum of all grants ever issued.
    pub closed spec fn supply(&self) -> nat {
        self.total_supply as nat
    }

    /// Each identity has at most one row, and the rows add up to the supply.
    pub closed spec fn wf(&self) -> bool {
        &&& owners_distinct(self.balances@)
        &&& held_in_all(self.balances@) == self.total_supply
    }

    /// The balances sum to the supply, so no single balance exceeds it.
    pub proof fn lemma_balances_within_supply(&self, id: Seq<u8>)
        requires
            self.wf(),
        ensures
            self.held_total() == self.supply(),
            self.balance_of(id) <= self.supply(),
    {
        lemma_held_bounded(self.balances@, id);
    }

    pub fn new() -> (r: IRC2Token)
        ensures
            r.wf(),
            r.supply() == 0,
            forall|k: Seq<u8>| #[trigger] r.balance_of(k) == 0,
    {
        IRC2Token { total_supply: 0, balances: Vec::new() }
    }

    pub fn total_supply(&self) -> (r: u64)
        ensures
            r == self.supply(),
    {
        self.total_supply
    }

    fn position(&self, id: &Identity) -> (r: Option<usize>)
        ensures
            match r {
                Some(i) => i < self.balances@.len() && self.balances@[i as int].owner@ == id@,
                None => forall|i: int|
                    0 <= i < self.balances@.len() ==> self.balances@[i].owner@ != id@,
            },
    {
        let mut i: usize = 0;
        while i < self.balances.len()
            invariant
                0 <= i <= self.balances@.len(),
                forall|j: int| 0 <= j < i ==> self.balances@[j].owner@ != id@,
            decreases self.balances@.len() - i,
        {
            if self.balances[i].owner.same_as(id) {
                return Some(i);
            }
            i = i + 1;
        }
        None
    }

    /// What `id` holds; 0 for an identity that the ledger has never seen.
    pub fn balance(&self, id: &Identity) -> (r: u64)
        requires
            self.wf(),
        ensures
            r == self.balance_of(id@),
    {
        self.lookup(id)
    }

    fn lookup(&self, id: &Identity) -> (r: u64)
        requires
            owners_distinct(self.balances@),
        ensures
            r == self.balance_of(id@),
    {
        match self.position(id) {
            Some(i) => {
                proof {
                    lemma_held_at(self.balances@, i as int);
                }
                self.balances[i].amount
            },
            None => {
                proof {
                    lemma_held_absent(self.balances@, id@);
                }
                0
            },
        }
    }

    /// Sets what `id` holds, leaving every other balance and the supply as they were.
    fn set_balance(&mut self, id: &Identity, value: u64)
        requires
            owners_distinct(old(self).balances@),
        ensures
            owners_distinct(final(self).balances@),
            final(self).total_supply == old(self).total_supply,
            final(self).held_total() + old(self).balance_of(id@) == old(self).held_total() + value,
            final(self).balance_of(id@) == value,
            forall|k: Seq<u8>|
                k != id@ ==> #[trigger] final(self).balance_of(k) == old(self).balance_of(k),
    {
        match self.position(id) {
            Some(i) => {
                proof {
                    lemma_held_at(self.balances@, i as int);
                }
                let row = Holding { owner: id.duplicate(), amount: value };
                proof {
                    lemma_update_row(self.balances@, i as int, row);
                }
                self.balances.set(i, row);
            },
            None => {
                proof {
                    lemma_held_absent(self.balances@, id@);
                }
                let row = Holding { owner: id.duplicate(), amount: value };
                proof {
                    lemma_push_row(self.balances@, row);
                }
                self.balances.push(row);
            },
        }
    }

    /// Issues `amount` new tokens to `id`: its balance and the supply both grow by it.
    pub fn grant(&mut self, id: &Identity, amount: u64)
        requires
            old(self).wf(),
            old(self).supply() + amount <= u64::MAX,
        ensures
            final(self).wf(),
            final(self).supply() == old(self).supply() + amount,
            final(self).balance_of(id@) == old(self).balance_of(id@) + amount,
            forall|k: Seq<u8>|
                k != id@ ==> #[trigger] final(self).balance_of(k) == old(self).balance_of(k),
    {
        proof {
            self.lemma_balances_within_supply(id@);
        }
        let held = self.balance(id);
        self.total_supply = self.total_supply + amount;
        self.set_balance(id, held + amount);
    }

    /// Moves `amount` from `from` to `to`. Refused, with nothing changed, where
    /// `from` holds less than `amount`. The receiver need not be known to the ledger.
    pub fn transfer(&mut self, from: &Identity, to: &Identity, amount: u64) -> (r: Result<
        (),
        TransferError,
    >)
        requires
            old(self).wf(),
        ensures
            final(self).wf(),
            final(self).supply() == old(self).supply(),
            r is Err <==> old(self).balance_of(from@) < amount,
            r is Err ==> r == Err::<(), TransferError>(TransferError::InsufficientBalance),
            r is Err ==> forall|k: Seq<u8>|
                #[trigger] final(self).balance_of(k) == old(self).balance_of(k),
            r is Ok ==> final(self).balance_of(from@) + final(self).balance_of(to@)
                == old(self).balance_of(from@) + old(self).balance_of(to@),
            r is Ok && from@ == to@ ==> forall|k: Seq<u8>|
                #[trigger] final(self).balance_of(k) == old(self).balance_of(k),
            r is Ok && from@ != to@ ==> {
                &&& final(self).balance_of(from@) == old(self).balance_of(from@) - amount
                &&& final(self).balance_of(to@) == old(self).balance_of(to@) + amount
                &&& forall|k: Seq<u8>|
                    k != from@ && k != to@ ==> #[trigger] final(self).balance_of(k)
                        == old(self).balance_of(k)
            },
    {
        let from_balance = self.balance(from);
        if from_balance < amount {
            return Err(TransferError::InsufficientBalance);
        }
        self.set_balance(from, from_balance - amount);
        proof {
            lemma_held_bounded(self.balances@, to@);
        }
        let to_balance = self.lookup(to);
        self.set_balance(to, to_balance + amount);
        Ok(())
    }
}

} // verus!
