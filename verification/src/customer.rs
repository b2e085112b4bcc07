//! Customer records and looking an account up by its number.

use vstd::prelude::*;
use crate::text::text_eq;

verus! {

/// A customer of the bank and their account.
#[derive(Debug)]
pub struct Customer {
    pub name: String,
    pub surname: String,
    pub pesel: String,
    pub account_number: String,
    pub pin: String,
    /// The balance, in hundredths of the currency unit.
    pub balance: i64,
}

impl Clone for Customer {
    fn clone(&self) -> (r: Self)
        ensures
            r == *self,
    {
        Customer {
            name: self.name.clone(),
            surname: self.surname.clone(),
            pesel: self.pesel.clone(),
            account_number: self.account_number.clone(),
            pin: self.pin.clone(),
            balance: self.balance,
        }
    }
}

/// `c` with its balance replaced by `b` and every other field kept.
pub open spec fn with_balance(c: Customer, b: int) -> Customer {
    Customer {
        name: c.name,
        surname: c.surname,
        pesel: c.pesel,
        account_number: c.account_number,
        pin: c.pin,
        balance: b as i64,
    }
}

/// `i` is the first position in `s` whose account number is `acct`.
pub open spec fn is_first_holder(s: Seq<Customer>, acct: Seq<char>, i: int) -> bool {
    &&& 0 <= i < s.len()
    &&& s[i].account_number@ == acct
    &&& forall|j: int| 0 <= j < i ==> (#[trigger] s[j]).account_number@ != acct
}

/// The position of the first customer in `s` whose account number is
/// `acct`, if there is one.
pub open spec fn account_index(s: Seq<Customer>, acct: Seq<char>) -> Option<int> {
    if exists|i: int| is_first_holder(s, acct, i) {
        Some(choose|i: int| is_first_holder(s, acct, i))
    } else {
        None
    }
}

/// The sum of all balances in `s`.
pub open spec fn total(s: Seq<Customer>) -> int
    decreases s.len(),
{
    if s.len() == 0 {
        0
    } else {
        total(s.drop_last()) + s.last().balance
    }
}

proof fn lemma_first_holder_unique(s: Seq<Customer>, acct: Seq<char>, i: int, k: int)
    requires
        is_first_holder(s, acct, i),
        is_first_holder(s, acct, k),
    ensures
        i == k,
{
    if k < i {
        assert(s[k].account_number@ != acct);
    }
    if i < k {
        assert(s[i].account_number@ != acct);
    }
}

/// `account_index` names the first holder of an account number, if any.
pub proof fn lemma_account_index(s: Seq<Customer>, acct: Seq<char>, i: int)
    requires
        is_first_holder(s, acct, i),
    ensures
        account_index(s, acct) == Some(i),
{
    let k = choose|k: int| is_first_holder(s, acct, k);
    lemma_first_holder_unique(s, acct, i, k);
}

/// What `account_index` gives is the first holder of the account number,
/// and so a position of `s`.
pub proof fn lemma_account_index_holder(s: Seq<Customer>, acct: Seq<char>)
    ensures
        account_index(s, acct) matches Some(i) ==> is_first_holder(s, acct, i),
{
}

/// Looking up an account number gives the first customer holding it, and
/// nothing only when no customer holds it.
pub proof fn lemma_lookup(s: Seq<Customer>, acct: Seq<char>)
    ensures
        account_index(s, acct) matches Some(i) ==> {
            &&& 0 <= i < s.len()
            &&& s[i].account_number@ == acct
            &&& forall|j: int| 0 <= j < i ==> (#[trigger] s[j]).account_number@ != acct
        },
        account_index(s, acct) is None <==> forall|j: int|
            0 <= j < s.len() ==> (#[trigger] s[j]).account_number@ != acct,
{
    if account_index(s, acct) is None {
        assert forall|j: int| 0 <= j < s.len() implies (#[trigger] s[j]).account_number@ != acct by {
            if s[j].account_number@ == acct {
                lemma_first_holder_exists(s, acct, j);
            }
        }
    }
}

proof fn lemma_first_holder_exists(s: Seq<Customer>, acct: Seq<char>, j: int)
    requires
        0 <= j < s.len(),
        s[j].account_number@ == acct,
    ensures
        exists|i: int| is_first_holder(s, acct, i),
    decreases j,
{
    if forall|k: int| 0 <= k < j ==> (#[trigger] s[k]).account_number@ != acct {
        assert(is_first_holder(s, acct, j));
    } else {
        let k = choose|k: int| 0 <= k < j && (#[trigger] s[k]).account_number@ == acct;
        lemma_first_holder_exists(s, acct, k);
    }
}

/// Position of the first customer whose account number is `account_number`.
pub fn find_account(account_number: &str, customers: &[Customer]) -> (r: Option<usize>)
    ensures
        match r {
            Some(i) => account_index(customers@, account_number@) == Some(i as int),
            None => account_index(customers@, account_number@) is None,
        },
{
    let mut i: usize = 0;
    while i < customers.len()
        invariant
            i <= customers@.len(),
            forall|j: int| 0 <= j < i ==> (#[trigger] customers@[j]).account_number@ != account_number@,
        decreases customers@.len() - i,
    {
        if text_eq(customers[i].account_number.as_str(), account_number) {
            proof {
                lemma_account_index(customers@, account_number@, i as int);
            }
            return Some(i);
        }
        i = i + 1;
    }
    assert(!exists|k: int| is_first_holder(customers@, account_number@, k));
    None
}

/// Changing one balance changes the total by the difference.
pub proof fn lemma_total_update(s: Seq<Customer>, i: int, c: Customer)
    requires
        0 <= i < s.len(),
    ensures
        total(s.update(i, c)) == total(s) - s[i].balance + c.balance,
    decreases s.len(),
{
    let u = s.update(i, c);
    if i == s.len() - 1 {
        assert(u.drop_last() =~= s.drop_last());
    } else {
        assert(u.drop_last() =~= s.drop_last().update(i, c));
        lemma_total_update(s.drop_last(), i, c);
    }
}

/// `t` holds the same customers as `s`, in the same order, with at most
/// their balances changed.
pub open spec fn same_accounts(s: Seq<Customer>, t: Seq<Customer>) -> bool {
    &&& s.len() == t.len()
    &&& forall|k: int|
        0 <= k < s.len() ==> #[trigger] t[k] == with_balance(s[k], t[k].balance as int)
}

/// Ledgers that differ only in balances find every account number at the
/// same position.
pub proof fn lemma_same_accounts_lookup(s: Seq<Customer>, t: Seq<Customer>, acct: Seq<char>)
    requires
        same_accounts(s, t),
    ensures
        account_index(t, acct) == account_index(s, acct),
{
    assert forall|j: int| 0 <= j < s.len() implies (#[trigger] t[j]).account_number == s[j].account_number by {
        assert(t[j] == with_balance(s[j], t[j].balance as int));
    }
    if exists|k: int| is_first_holder(s, acct, k) {
        let k = choose|k: int| is_first_holder(s, acct, k);
        assert forall|j: int| 0 <= j < k implies (#[trigger] t[j]).account_number@ != acct by {
            assert(s[j].account_number@ != acct);
            assert(t[j].account_number == s[j].account_number);
        }
        assert(t[k].account_number == s[k].account_number);
        assert(is_first_holder(t, acct, k));
        lemma_account_index(t, acct, k);
        lemma_account_index(s, acct, k);
    } else {
        if exists|k: int| is_first_holder(t, acct, k) {
            let k = choose|k: int| is_first_holder(t, acct, k);
            assert forall|j: int| 0 <= j < k implies (#[trigger] s[j]).account_number@ != acct by {
                assert(t[j].account_number@ != acct);
                assert(t[j].account_number == s[j].account_number);
            }
            assert(t[k].account_number == s[k].account_number);
            assert(is_first_holder(s, acct, k));
        }
    }
}

} // verus!
