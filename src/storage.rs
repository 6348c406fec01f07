use vstd::prelude::*;

verus! {

/// The prepaid storage quota of one account.
pub struct AccountBalance {
    pub account_id: String,
    pub amount: u128,
}

/// Prepaid storage quota per account; an account with no entry has none.
pub struct StorageLedger {
    entries: Vec<AccountBalance>,
}

impl StorageLedger {
    pub closed spec fn accounts(&self) -> Seq<Seq<char>> {
        self.entries@.map_values(|e: AccountBalance| e.account_id@)
    }

    pub closed spec fn amounts(&self) -> Seq<u128> {
        self.entries@.map_values(|e: AccountBalance| e.amount)
    }

    /// No account has two entries.
    pub open spec fn wf(&self) -> bool {
        &&& self.accounts().len() == self.amounts().len()
        &&& forall|i: int, j: int|
            0 <= i < self.accounts().len() && 0 <= j < self.accounts().len() && i != j
                ==> self.accounts()[i] != self.accounts()[j]
    }

    /// The quota that `account` has prepaid.
    pub open spec fn balance(&self, account: Seq<char>) -> u128 {
        if exists|i: int| 0 <= i < self.accounts().len() && self.accounts()[i] == account {
            self.amounts()[choose|i: int| 0 <= i < self.accounts().len() && self.accounts()[i] == account]
        } else {
            0
        }
    }

    pub fn new() -> (r: StorageLedger)
        ensures
            r.wf(),
            forall|a: Seq<char>| r.balance(a) == 0,
    {
        let r = StorageLedger { entries: Vec::new() };
        assert(r.accounts() =~= Seq::<Seq<char>>::empty());
        assert(r.amounts() =~= Seq::<u128>::empty());
        r
    }

    fn find(&self, account: &String) -> (r: Option<usize>)
        requires
            self.wf(),
        ensures
            match r {
                Some(i) => i < self.accounts().len() && self.accounts()[i as int] == account@,
                None => forall|i: int| 0 <= i < self.accounts().len() ==> self.accounts()[i] != account@,
            },
    {
        let mut i: usize = 0;
        while i < self.entries.len()
            invariant
                self.wf(),
                i <= self.accounts().len(),
                self.accounts().len() == self.entries@.len(),
                forall|j: int| 0 <= j < i ==> self.accounts()[j] != account@,
            decreases self.entries@.len() - i,
        {
            if self.entries[i].account_id.eq(account) {
                return Some(i);
            }
            i = i + 1;
        }
        None
    }

    /// The quota that `account` has prepaid.
    pub fn balance_of(&self, account: &String) -> (r: u128)
        requires
            self.wf(),
        ensures
            r == self.balance(account@),
    {
        match self.find(account) {
            Some(i) => {
                proof {
                    let j = choose|j: int| 0 <= j < self.accounts().len() && self.accounts()[j] == account@;
                    assert(j == i);
                }
                self.entries[i].amount
            },
            None => 0,
        }
    }

    /// Sets the quota of `account` to `amount`.
    pub fn set(&mut self, account: &String, amount: u128)
        requires
            old(self).wf(),
        ensures
            final(self).wf(),
            forall|a: Seq<char>| #[trigger] final(self).balance(a) == if a == account@ {
                amount
            } else {
                old(self).balance(a)
            },
    {
        let ghost acc0 = self.accounts();
        let ghost amt0 = self.amounts();
        match self.find(account) {
            Some(i) => {
                self.entries.remove(i);
                self.entries.insert(i, AccountBalance { account_id: account.clone(), amount });
                proof {
                    assert(self.accounts() =~= acc0.update(i as int, account@));
                    assert(self.amounts() =~= amt0.update(i as int, amount));
                    assert forall|a: Seq<char>| #[trigger] self.balance(a) == if a == account@ {
                        amount
                    } else {
                        old(self).balance(a)
                    } by {
                        if a == account@ {
                            let j = choose|j: int| 0 <= j < self.accounts().len() && self.accounts()[j] == a;
                            assert(self.accounts()[i as int] == a);
                            assert(j == i);
                        } else if exists|j: int| 0 <= j < acc0.len() && acc0[j] == a {
                            let j = choose|j: int| 0 <= j < acc0.len() && acc0[j] == a;
                            assert(self.accounts()[j] == a);
                            let k = choose|k: int| 0 <= k < self.accounts().len() && self.accounts()[k] == a;
                            assert(acc0[k] == a);
                        } else {
                            assert forall|j: int| 0 <= j < self.accounts().len() implies self.accounts()[j] != a by {
                                if j != i {
                                    assert(self.accounts()[j] == acc0[j]);
                                }
                            }
                        }
                    }
                }
            },
            None => {
                self.entries.push(AccountBalance { account_id: account.clone(), amount });
                proof {
                    let n = acc0.len() as int;
                    assert(self.accounts() =~= acc0.push(account@));
                    assert(self.amounts() =~= amt0.push(amount));
                    assert forall|a: Seq<char>| #[trigger] self.balance(a) == if a == account@ {
                        amount
                    } else {
                        old(self).balance(a)
                    } by {
                        if a == account@ {
                            let j = choose|j: int| 0 <= j < self.accounts().len() && self.accounts()[j] == a;
                            assert(self.accounts()[n] == a);
                            assert(j == n);
                        } else if exists|j: int| 0 <= j < acc0.len() && acc0[j] == a {
                            let j = choose|j: int| 0 <= j < acc0.len() && acc0[j] == a;
                            assert(self.accounts()[j] == a);
                            let k = choose|k: int| 0 <= k < self.accounts().len() && self.accounts()[k] == a;
                            assert(k != n);
                            assert(acc0[k] == a);
                        } else {
                            assert forall|j: int| 0 <= j < self.accounts().len() implies self.accounts()[j] != a by {
                                if j < n {
                                    assert(self.accounts()[j] == acc0[j]);
                                }
                            }
                        }
                    }
                }
            },
        }
    }
}

} // verus!
