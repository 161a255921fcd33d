//! The share-token ledger: per-address balances whose sum always equals the
//! recorded total supply, and the allowance table with expiring entries.

use vstd::prelude::*;
use crate::c_pool::storage_types::AllowanceValue;
use crate::errors::Error;
use crate::fixed_point::in_i128;

verus! {

/// No address appears twice.
pub open spec fn keys_unique(s: Seq<(u64, i128)>) -> bool {
    forall|i: int, j: int| 0 <= i < j < s.len() ==> (#[trigger] s[i]).0 != (#[trigger] s[j]).0
}

/// The sum of all balances held.
pub open spec fn sum_bal(s: Seq<(u64, i128)>) -> int
    decreases s.len(),
{
    if s.len() == 0 {
        0
    } else {
        sum_bal(s.drop_last()) + s.last().1 as int
    }
}

/// The balance an address holds; zero when absent.
pub open spec fn bal_of(s: Seq<(u64, i128)>, a: u64) -> int
    decreases s.len(),
{
    if s.len() == 0 {
        0
    } else if s.last().0 == a {
        s.last().1 as int
    } else {
        bal_of(s.drop_last(), a)
    }
}

/// An address that appears at position `i` of a ledger without repeated
/// keys holds exactly the balance stored there.
pub proof fn lemma_bal_of_at(s: Seq<(u64, i128)>, i: int)
    requires
        keys_unique(s),
        0 <= i < s.len(),
    ensures
        bal_of(s, s[i].0) == s[i].1,
    decreases s.len(),
{
    if i == s.len() - 1 {
    } else {
        assert(s.drop_last()[i] == s[i]);
        lemma_bal_of_at(s.drop_last(), i);
    }
}

/// An address that appears nowhere holds zero.
pub proof fn lemma_bal_of_absent(s: Seq<(u64, i128)>, a: u64)
    requires
        forall|i: int| 0 <= i < s.len() ==> (#[trigger] s[i]).0 != a,
    ensures
        bal_of(s, a) == 0,
    decreases s.len(),
{
    if s.len() > 0 {
        assert(forall|i: int| 0 <= i < s.drop_last().len() ==> (#[trigger] s.drop_last()[i]).0
            != a);
        lemma_bal_of_absent(s.drop_last(), a);
    }
}

/// Replacing the balance at one position moves the sum by the difference
/// and the balance of that one address to the new value.
pub proof fn lemma_update(s: Seq<(u64, i128)>, i: int, v: i128)
    requires
        keys_unique(s),
        0 <= i < s.len(),
    ensures
        sum_bal(s.update(i, (s[i].0, v))) == sum_bal(s) - s[i].1 + v,
        bal_of(s.update(i, (s[i].0, v)), s[i].0) == v,
        forall|b: u64| b != s[i].0 ==> bal_of(s.update(i, (s[i].0, v)), b) == bal_of(s, b),
        keys_unique(s.update(i, (s[i].0, v))),
    decreases s.len(),
{
    let t = s.update(i, (s[i].0, v));
    assert(t.len() == s.len());
    assert(forall|k: int| 0 <= k < s.len() && k != i ==> t[k] == s[k]);
    assert(t[i].0 == s[i].0);
    if i == s.len() - 1 {
        assert(t.drop_last() =~= s.drop_last());
        assert forall|b: u64| b != s[i].0 implies bal_of(t, b) == bal_of(s, b) by {
            assert(bal_of(t, b) == bal_of(t.drop_last(), b));
            assert(bal_of(s, b) == bal_of(s.drop_last(), b));
        }
    } else {
        assert(t.last() == s.last());
        assert(t.drop_last() =~= s.drop_last().update(i, (s[i].0, v)));
        assert(s.drop_last()[i] == s[i]);
        lemma_update(s.drop_last(), i, v);
        assert forall|b: u64| b != s[i].0 implies bal_of(t, b) == bal_of(s, b) by {
            if s.last().0 == b {
                assert(bal_of(t, b) == t.last().1 as int);
                assert(bal_of(s, b) == s.last().1 as int);
            } else {
                assert(bal_of(t, b) == bal_of(t.drop_last(), b));
                assert(bal_of(s, b) == bal_of(s.drop_last(), b));
            }
        }
    }
}

/// Appending a fresh address grows the sum by its balance and leaves every
/// other balance alone.
pub proof fn lemma_push(s: Seq<(u64, i128)>, a: u64, v: i128)
    requires
        forall|i: int| 0 <= i < s.len() ==> (#[trigger] s[i]).0 != a,
    ensures
        sum_bal(s.push((a, v))) == sum_bal(s) + v,
        bal_of(s.push((a, v)), a) == v,
        forall|b: u64| b != a ==> bal_of(s.push((a, v)), b) == bal_of(s, b),
        keys_unique(s) ==> keys_unique(s.push((a, v))),
{
    assert(s.push((a, v)).drop_last() =~= s);
    assert(s.push((a, v)).last() == (a, v));
    if keys_unique(s) {
        assert forall|i: int, j: int| 0 <= i < j < s.push((a, v)).len() implies (#[trigger] s.push(
            (a, v),
        )[i]).0 != (#[trigger] s.push((a, v))[j]).0 by {
            if j < s.len() {
                assert(s.push((a, v))[i] == s[i] && s.push((a, v))[j] == s[j]);
            } else {
                assert(s.push((a, v))[i] == s[i]);
            }
        }
    }
}

/// Every individual balance of a nonnegative ledger is at most the sum.
pub proof fn lemma_bal_le_sum(s: Seq<(u64, i128)>, a: u64)
    requires
        forall|i: int| 0 <= i < s.len() ==> (#[trigger] s[i]).1 >= 0,
    ensures
        0 <= bal_of(s, a) || bal_of(s, a) == 0,
        bal_of(s, a) <= sum_bal(s),
        0 <= sum_bal(s),
    decreases s.len(),
{
    if s.len() > 0 {
        assert(forall|i: int| 0 <= i < s.drop_last().len() ==> (#[trigger] s.drop_last()[i]).1
            >= 0);
        lemma_bal_le_sum(s.drop_last(), a);
        assert(s.last().1 >= 0);
    }
}

/// The fungible share ledger: the entries, and the total supply that every
/// operation keeps equal to the sum of balances.
pub struct ShareLedger {
    pub entries: Vec<(u64, i128)>,
    pub total: i128,
}

impl ShareLedger {
    /// The ledger is sound: unique addresses, no negative balance, and a
    /// total equal to the sum of all balances.
    pub open spec fn wf(&self) -> bool {
        &&& keys_unique(self.entries@)
        &&& forall|i: int| 0 <= i < self.entries@.len() ==> (#[trigger] self.entries@[i]).1 >= 0
        &&& self.total as int == sum_bal(self.entries@)
    }

    /// The balance an address holds.
    pub open spec fn spec_balance(&self, a: u64) -> int {
        bal_of(self.entries@, a)
    }

    /// An empty ledger with no supply.
    pub fn new() -> (r: ShareLedger)
        ensures
            r.wf(),
            r.total == 0,
            forall|a: u64| r.spec_balance(a) == 0,
    {
        let r = ShareLedger { entries: Vec::new(), total: 0 };
        proof {
            assert(r.entries@.len() == 0);
            assert forall|a: u64| r.spec_balance(a) == 0 by {}
        }
        r
    }

    /// The position of an address, if present.
    fn find(&self, a: u64) -> (r: Option<usize>)
        ensures
            match r {
                Some(i) => i < self.entries@.len() && self.entries@[i as int].0 == a,
                None => forall|i: int|
                    0 <= i < self.entries@.len() ==> (#[trigger] self.entries@[i]).0 != a,
            },
    {
        let mut i: usize = 0;
        while i < self.entries.len()
            invariant
                i <= self.entries@.len(),
                forall|j: int| 0 <= j < i ==> (#[trigger] self.entries@[j]).0 != a,
            decreases self.entries@.len() - i,
        {
            if self.entries[i].0 == a {
                return Some(i);
            }
            i = i + 1;
        }
        None
    }

    /// The balance an address holds; zero for one never seen.
    pub fn balance(&self, a: u64) -> (r: i128)
        requires
            self.wf(),
        ensures
            r as int == self.spec_balance(a),
    {
        match self.find(a) {
            Some(i) => {
                proof {
                    lemma_bal_of_at(self.entries@, i as int);
                }
                self.entries[i].1
            },
            None => {
                proof {
                    lemma_bal_of_absent(self.entries@, a);
                }
                0
            },
        }
    }

    /// Credits an address and grows the total supply by the same amount;
    /// fails with `ErrAddOverflow` where the supply would leave `i128`.
    pub fn receive(&mut self, a: u64, amount: i128) -> (r: Result<(), Error>)
        requires
            old(self).wf(),
            amount >= 0,
        ensures
            final(self).wf(),
            in_i128(old(self).total + amount) ==> (r matches Ok(u) && final(self).total
                == old(self).total + amount && final(self).spec_balance(a) == old(self).spec_balance(a) + amount),
            !in_i128(old(self).total + amount) ==> (r matches Err(er) && er
                == Error::ErrAddOverflow && *final(self) == *old(self)),
            forall|b: u64| b != a ==> final(self).spec_balance(b) == old(self).spec_balance(b),
    {
        let new_total = match self.total.checked_add(amount) {
            Some(v) => v,
            None => {
                return Err(Error::ErrAddOverflow);
            },
        };
        match self.find(a) {
            Some(i) => {
                proof {
                    lemma_bal_of_at(self.entries@, i as int);
                    lemma_bal_le_sum(self.entries@, a);
                    lemma_update(self.entries@, i as int, (self.entries@[i as int].1 + amount) as i128);
                }
                let cur = self.entries[i].1;
                self.entries.set(i, (a, cur + amount));
                self.total = new_total;
            },
            None => {
                proof {
                    lemma_bal_of_absent(self.entries@, a);
                    lemma_push(self.entries@, a, amount);
                }
                self.entries.push((a, amount));
                self.total = new_total;
            },
        }
        Ok(())
    }

    /// Debits an address and shrinks the total supply by the same amount;
    /// fails with `ErrInsufficientBalance` where the balance is short.
    pub fn spend(&mut self, a: u64, amount: i128) -> (r: Result<(), Error>)
        requires
            old(self).wf(),
            amount >= 0,
        ensures
            final(self).wf(),
            old(self).spec_balance(a) >= amount ==> (r matches Ok(u) && final(self).total
                == old(self).total - amount && final(self).spec_balance(a) == old(self).spec_balance(a) - amount),
            old(self).spec_balance(a) < amount ==> (r matches Err(er) && er
                == Error::ErrInsufficientBalance && *final(self) == *old(self)),
            forall|b: u64| b != a ==> final(self).spec_balance(b) == old(self).spec_balance(b),
    {
        match self.find(a) {
            Some(i) => {
                proof {
                    lemma_bal_of_at(self.entries@, i as int);
                    lemma_bal_le_sum(self.entries@, a);
                }
                let cur = self.entries[i].1;
                if cur < amount {
                    return Err(Error::ErrInsufficientBalance);
                }
                proof {
                    lemma_update(self.entries@, i as int, (self.entries@[i as int].1 - amount) as i128);
                }
                self.entries.set(i, (a, cur - amount));
                self.total = self.total - amount;
                Ok(())
            },
            None => {
                proof {
                    lemma_bal_of_absent(self.entries@, a);
                }
                if amount == 0 {
                    Ok(())
                } else {
                    Err(Error::ErrInsufficientBalance)
                }
            },
        }
    }
}

/// The allowance a pair holds; an absent pair has none.
pub open spec fn allowance_of(s: Seq<(u64, u64, AllowanceValue)>, from: u64, spender: u64)
    -> AllowanceValue
    decreases s.len(),
{
    if s.len() == 0 {
        AllowanceValue { amount: 0, expiration_ledger: 0 }
    } else if s.last().0 == from && s.last().1 == spender {
        s.last().2
    } else {
        allowance_of(s.drop_last(), from, spender)
    }
}

/// No pair of addresses appears twice.
pub open spec fn pairs_unique(s: Seq<(u64, u64, AllowanceValue)>) -> bool {
    forall|i: int, j: int| 0 <= i < j < s.len() ==> ((#[trigger] s[i]).0, s[i].1) != ((
    #[trigger] s[j]).0, s[j].1)
}

pub proof fn lemma_allowance_at(s: Seq<(u64, u64, AllowanceValue)>, i: int)
    requires
        pairs_unique(s),
        0 <= i < s.len(),
    ensures
        allowance_of(s, s[i].0, s[i].1) == s[i].2,
    decreases s.len(),
{
    if i == s.len() - 1 {
    } else {
        assert(s.drop_last()[i] == s[i]);
        lemma_allowance_at(s.drop_last(), i);
    }
}

pub proof fn lemma_allowance_absent(s: Seq<(u64, u64, AllowanceValue)>, from: u64, spender: u64)
    requires
        forall|i: int| 0 <= i < s.len() ==> ((#[trigger] s[i]).0, s[i].1) != (from, spender),
    ensures
        allowance_of(s, from, spender) == (AllowanceValue { amount: 0, expiration_ledger: 0 }),
    decreases s.len(),
{
    if s.len() > 0 {
        assert(forall|i: int| 0 <= i < s.drop_last().len() ==> ((#[trigger] s.drop_last()[i]).0,
            s.drop_last()[i].1) != (from, spender));
        lemma_allowance_absent(s.drop_last(), from, spender);
    }
}

pub proof fn lemma_allowance_update(s: Seq<(u64, u64, AllowanceValue)>, i: int, v: AllowanceValue)
    requires
        pairs_unique(s),
        0 <= i < s.len(),
    ensures
        allowance_of(s.update(i, (s[i].0, s[i].1, v)), s[i].0, s[i].1) == v,
        forall|f: u64, p: u64| (f, p) != (s[i].0, s[i].1) ==> allowance_of(
            s.update(i, (s[i].0, s[i].1, v)),
            f,
            p,
        ) == allowance_of(s, f, p),
        pairs_unique(s.update(i, (s[i].0, s[i].1, v))),
    decreases s.len(),
{
    let t = s.update(i, (s[i].0, s[i].1, v));
    assert(forall|k: int| 0 <= k < s.len() && k != i ==> t[k] == s[k]);
    if i == s.len() - 1 {
        assert(t.drop_last() =~= s.drop_last());
        assert forall|f: u64, p: u64| (f, p) != (s[i].0, s[i].1) implies allowance_of(t, f, p)
            == allowance_of(s, f, p) by {
            assert(allowance_of(t, f, p) == allowance_of(t.drop_last(), f, p));
            assert(allowance_of(s, f, p) == allowance_of(s.drop_last(), f, p));
        }
    } else {
        assert(t.last() == s.last());
        assert(t.drop_last() =~= s.drop_last().update(i, (s[i].0, s[i].1, v)));
        assert(s.drop_last()[i] == s[i]);
        lemma_allowance_update(s.drop_last(), i, v);
        assert forall|f: u64, p: u64| (f, p) != (s[i].0, s[i].1) implies allowance_of(t, f, p)
            == allowance_of(s, f, p) by {
            if s.last().0 == f && s.last().1 == p {
                assert(allowance_of(t, f, p) == t.last().2);
                assert(allowance_of(s, f, p) == s.last().2);
            } else {
                assert(allowance_of(t, f, p) == allowance_of(t.drop_last(), f, p));
                assert(allowance_of(s, f, p) == allowance_of(s.drop_last(), f, p));
            }
        }
    }
}

pub proof fn lemma_allowance_push(
    s: Seq<(u64, u64, AllowanceValue)>,
    from: u64,
    spender: u64,
    v: AllowanceValue,
)
    requires
        forall|i: int| 0 <= i < s.len() ==> ((#[trigger] s[i]).0, s[i].1) != (from, spender),
    ensures
        allowance_of(s.push((from, spender, v)), from, spender) == v,
        forall|f: u64, p: u64| (f, p) != (from, spender) ==> allowance_of(
            s.push((from, spender, v)),
            f,
            p,
        ) == allowance_of(s, f, p),
        pairs_unique(s) ==> pairs_unique(s.push((from, spender, v))),
{
    assert(s.push((from, spender, v)).drop_last() =~= s);
    if pairs_unique(s) {
        assert forall|i: int, j: int| 0 <= i < j < s.push((from, spender, v)).len() implies ((
        #[trigger] s.push((from, spender, v))[i]).0, s.push((from, spender, v))[i].1) != ((
        #[trigger] s.push((from, spender, v))[j]).0, s.push((from, spender, v))[j].1) by {
            if j < s.len() {
                assert(s.push((from, spender, v))[i] == s[i]);
                assert(s.push((from, spender, v))[j] == s[j]);
            } else {
                assert(s.push((from, spender, v))[i] == s[i]);
            }
        }
    }
}

/// The allowance table.
pub struct Allowances {
    pub entries: Vec<(u64, u64, AllowanceValue)>,
}

impl Allowances {
    pub open spec fn wf(&self) -> bool {
        pairs_unique(self.entries@)
    }

    /// The stored allowance of a pair, before applying expiry.
    pub open spec fn spec_stored(&self, from: u64, spender: u64) -> AllowanceValue {
        allowance_of(self.entries@, from, spender)
    }

    /// The live allowance of a pair at a ledger sequence: the stored amount,
    /// or zero once the expiration ledger has passed.
    pub open spec fn spec_live(&self, from: u64, spender: u64, seq_num: u32) -> i128 {
        let v = self.spec_stored(from, spender);
        if v.expiration_ledger < seq_num {
            0
        } else {
            v.amount
        }
    }

    pub fn new() -> (r: Allowances)
        ensures
            r.wf(),
            forall|f: u64, p: u64| #[trigger] r.spec_stored(f, p) == (AllowanceValue {
                amount: 0,
                expiration_ledger: 0,
            }),
    {
        let r = Allowances { entries: Vec::new() };
        proof {
            assert forall|f: u64, p: u64| #[trigger] r.spec_stored(f, p) == (AllowanceValue {
                amount: 0,
                expiration_ledger: 0,
            }) by {
                lemma_allowance_absent(r.entries@, f, p);
            }
        }
        r
    }

    fn find(&self, from: u64, spender: u64) -> (r: Option<usize>)
        ensures
            match r {
                Some(i) => i < self.entries@.len() && self.entries@[i as int].0 == from
                    && self.entries@[i as int].1 == spender,
                None => forall|i: int|
                    0 <= i < self.entries@.len() ==> ((#[trigger] self.entries@[i]).0,
                    self.entries@[i].1) != (from, spender),
            },
    {
        let mut i: usize = 0;
        while i < self.entries.len()
            invariant
                i <= self.entries@.len(),
                forall|j: int| 0 <= j < i ==> ((#[trigger] self.entries@[j]).0,
                    self.entries@[j].1) != (from, spender),
            decreases self.entries@.len() - i,
        {
            if self.entries[i].0 == from && self.entries[i].1 == spender {
                return Some(i);
            }
            i = i + 1;
        }
        None
    }

    /// The allowance as a caller sees it at the given ledger sequence: an
    /// expired entry reads as zero with its old expiration.
    pub fn read(&self, from: u64, spender: u64, seq_num: u32) -> (r: AllowanceValue)
        requires
            self.wf(),
        ensures
            r.amount as int == self.spec_live(from, spender, seq_num),
            r.expiration_ledger == self.spec_stored(from, spender).expiration_ledger,
    {
        match self.find(from, spender) {
            Some(i) => {
                proof {
                    lemma_allowance_at(self.entries@, i as int);
                }
                let v = self.entries[i].2;
                if v.expiration_ledger < seq_num {
                    AllowanceValue { amount: 0, expiration_ledger: v.expiration_ledger }
                } else {
                    v
                }
            },
            None => {
                proof {
                    lemma_allowance_absent(self.entries@, from, spender);
                }
                AllowanceValue { amount: 0, expiration_ledger: 0 }
            },
        }
    }

    /// Records an allowance; a positive amount with an expiration already in
    /// the past fails with `ErrInvalidExpirationLedger`.
    pub fn write(
        &mut self,
        from: u64,
        spender: u64,
        amount: i128,
        expiration_ledger: u32,
        seq_num: u32,
    ) -> (r: Result<(), Error>)
        requires
            old(self).wf(),
        ensures
            final(self).wf(),
            (amount > 0 && expiration_ledger < seq_num) ==> (r matches Err(er) && er
                == Error::ErrInvalidExpirationLedger && *final(self) == *old(self)),
            !(amount > 0 && expiration_ledger < seq_num) ==> (r matches Ok(u) && final(self).spec_stored(from, spender) == (AllowanceValue { amount, expiration_ledger }) && (
            forall|f: u64, p: u64| (f, p) != (from, spender) ==> final(self).spec_stored(f, p)
                == old(self).spec_stored(f, p))),
    {
        if amount > 0 && expiration_ledger < seq_num {
            return Err(Error::ErrInvalidExpirationLedger);
        }
        let v = AllowanceValue { amount, expiration_ledger };
        match self.find(from, spender) {
            Some(i) => {
                proof {
                    lemma_allowance_update(self.entries@, i as int, v);
                }
                self.entries.set(i, (from, spender, v));
            },
            None => {
                proof {
                    lemma_allowance_push(self.entries@, from, spender, v);
                }
                self.entries.push((from, spender, v));
            },
        }
        Ok(())
    }

    /// Consumes part of a live allowance; fails with
    /// `ErrInsufficientAllowance` where the live amount is short.
    pub fn spend(&mut self, from: u64, spender: u64, amount: i128, seq_num: u32) -> (r: Result<
        (),
        Error,
    >)
        requires
            old(self).wf(),
            amount >= 0,
        ensures
            final(self).wf(),
            old(self).spec_live(from, spender, seq_num) < amount ==> (r matches Err(er) && er
                == Error::ErrInsufficientAllowance && *final(self) == *old(self)),
            old(self).spec_live(from, spender, seq_num) >= amount ==> (r matches Ok(u) && final(self).spec_live(from, spender, seq_num) == old(self).spec_live(from, spender, seq_num)
                - amount && (forall|f: u64, p: u64| (f, p) != (from, spender) ==> final(self).spec_stored(f, p) == old(self).spec_stored(f, p))),
    {
        let cur = self.read(from, spender, seq_num);
        if cur.amount < amount {
            return Err(Error::ErrInsufficientAllowance);
        }
        if amount > 0 {
            let res = self.write(
                from,
                spender,
                cur.amount - amount,
                cur.expiration_ledger,
                seq_num,
            );
            proof {
                assert(res matches Ok(u));
            }
        }
        Ok(())
    }
}

} // verus!
