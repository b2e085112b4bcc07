//! The ledger operations behind the requests: withdrawing, depositing and
//! transferring money between accounts.

use vstd::prelude::*;
use crate::customer::{
    Customer, account_index, find_account, total, with_balance, same_accounts, lemma_total_update,
};
use crate::text::text_eq;

verus! {

/// How a withdrawal or a transfer ended.
#[derive(Debug, Clone, Copy, PartialEq, Eq, Structural)]
pub enum Outcome {
    /// Done; the paying account now holds `balance`.
    Done { balance: i64 },
    /// The PIN given is not the account's PIN.
    InvalidPin,
    /// The account holds less than the amount.
    InsufficientFunds,
    /// No account has the destination number.
    UnknownDestination,
}

/// The ledger after `amount` has left account `i`.
pub open spec fn debited(s: Seq<Customer>, i: int, amount: int) -> Seq<Customer> {
    s.update(i, with_balance(s[i], s[i].balance - amount))
}

/// The ledger after `amount` has come into account `i`.
pub open spec fn credited(s: Seq<Customer>, i: int, amount: int) -> Seq<Customer> {
    s.update(i, with_balance(s[i], s[i].balance + amount))
}

/// The ledger after `amount` has moved from account `i` to account `j`.
pub open spec fn moved(s: Seq<Customer>, i: int, j: int, amount: int) -> Seq<Customer> {
    credited(debited(s, i, amount), j, amount)
}

/// A withdrawal of `amount` from account `i` with `pin` succeeds.
pub open spec fn withdraw_allowed(s: Seq<Customer>, i: int, pin: Seq<char>, amount: int) -> bool {
    s[i].pin@ == pin && s[i].balance >= amount
}

/// What a withdrawal of `amount` from account `i` with `pin` answers.
pub open spec fn withdraw_outcome(s: Seq<Customer>, i: int, pin: Seq<char>, amount: int) -> Outcome {
    if s[i].pin@ != pin {
        Outcome::InvalidPin
    } else if s[i].balance >= amount {
        Outcome::Done { balance: (s[i].balance - amount) as i64 }
    } else {
        Outcome::InsufficientFunds
    }
}

/// The ledger after a withdrawal of `amount` from account `i` with `pin`.
pub open spec fn withdraw_ledger(s: Seq<Customer>, i: int, pin: Seq<char>, amount: int) -> Seq<
    Customer,
> {
    if withdraw_allowed(s, i, pin, amount) {
        debited(s, i, amount)
    } else {
        s
    }
}

/// The new balances of a withdrawal fit in an `i64`.
pub open spec fn withdraw_fits(s: Seq<Customer>, i: int, pin: Seq<char>, amount: int) -> bool {
    withdraw_allowed(s, i, pin, amount) ==> s[i].balance - amount <= i64::MAX
}

/// Takes `amount` out of account `idx` when `pin` is its PIN and it holds at
/// least `amount`; otherwise changes nothing.
pub fn withdraw(customers: &mut Vec<Customer>, idx: usize, pin: &str, amount: i64) -> (r: Outcome)
    requires
        idx < old(customers)@.len(),
        withdraw_fits(old(customers)@, idx as int, pin@, amount as int),
    ensures
        r == withdraw_outcome(old(customers)@, idx as int, pin@, amount as int),
        final(customers)@ == withdraw_ledger(old(customers)@, idx as int, pin@, amount as int),
        r is Done ==> final(customers)@[idx as int].balance >= 0,
{
    if !text_eq(customers[idx].pin.as_str(), pin) {
        Outcome::InvalidPin
    } else if customers[idx].balance >= amount {
        let b = customers[idx].balance - amount;
        customers[idx].balance = b;
        assert(customers@ =~= debited(old(customers)@, idx as int, amount as int));
        Outcome::Done { balance: b }
    } else {
        Outcome::InsufficientFunds
    }
}

/// The new balance of a deposit fits in an `i64`.
pub open spec fn deposit_fits(s: Seq<Customer>, i: int, amount: int) -> bool {
    i64::MIN <= s[i].balance + amount <= i64::MAX
}

/// Adds `amount` to account `idx` and returns its new balance.
pub fn deposit(customers: &mut Vec<Customer>, idx: usize, amount: i64) -> (r: i64)
    requires
        idx < old(customers)@.len(),
        deposit_fits(old(customers)@, idx as int, amount as int),
    ensures
        final(customers)@ == credited(old(customers)@, idx as int, amount as int),
        r == old(customers)@[idx as int].balance + amount,
{
    let b = customers[idx].balance + amount;
    customers[idx].balance = b;
    assert(customers@ =~= credited(old(customers)@, idx as int, amount as int));
    b
}

/// What a transfer of `amount` from account `i` to account number `dest`
/// with `pin` answers.
pub open spec fn transfer_outcome(
    s: Seq<Customer>,
    i: int,
    dest: Seq<char>,
    amount: int,
    pin: Seq<char>,
) -> Outcome {
    if s[i].pin@ != pin {
        Outcome::InvalidPin
    } else if s[i].balance >= amount {
        match account_index(s, dest) {
            Some(j) => Outcome::Done { balance: moved(s, i, j, amount)[i].balance },
            None => Outcome::UnknownDestination,
        }
    } else {
        Outcome::InsufficientFunds
    }
}

/// The ledger after a transfer of `amount` from account `i` to account
/// number `dest` with `pin`.
pub open spec fn transfer_ledger(
    s: Seq<Customer>,
    i: int,
    dest: Seq<char>,
    amount: int,
    pin: Seq<char>,
) -> Seq<Customer> {
    if s[i].pin@ == pin && s[i].balance >= amount && account_index(s, dest) is Some {
        moved(s, i, account_index(s, dest)->0, amount)
    } else {
        s
    }
}

/// The balances that a transfer computes fit in an `i64`.
pub open spec fn transfer_fits(
    s: Seq<Customer>,
    i: int,
    dest: Seq<char>,
    amount: int,
    pin: Seq<char>,
) -> bool {
    (s[i].pin@ == pin && s[i].balance >= amount && account_index(s, dest) is Some) ==> {
        let j = account_index(s, dest)->0;
        &&& s[i].balance - amount <= i64::MAX
        &&& i != j ==> i64::MIN <= s[j].balance + amount <= i64::MAX
    }
}

/// Moves `amount` from account `idx` to the account numbered `dest` when
/// `pin` is the PIN of account `idx`, it holds at least `amount` and the
/// destination exists; otherwise changes nothing.
pub fn transfer(
    customers: &mut Vec<Customer>,
    idx: usize,
    dest: &str,
    amount: i64,
    pin: &str,
) -> (r: Outcome)
    requires
        idx < old(customers)@.len(),
        transfer_fits(old(customers)@, idx as int, dest@, amount as int, pin@),
    ensures
        r == transfer_outcome(old(customers)@, idx as int, dest@, amount as int, pin@),
        final(customers)@ == transfer_ledger(old(customers)@, idx as int, dest@, amount as int, pin@),
{
    if !text_eq(customers[idx].pin.as_str(), pin) {
        Outcome::InvalidPin
    } else if customers[idx].balance >= amount {
        match find_account(dest, customers.as_slice()) {
            Some(j) => {
                let ghost s0 = customers@;
                let b = customers[idx].balance - amount;
                customers[idx].balance = b;
                assert(customers@ =~= debited(s0, idx as int, amount as int));
                let ghost s1 = customers@;
                let c = customers[j].balance + amount;
                customers[j].balance = c;
                assert(customers@ =~= credited(s1, j as int, amount as int));
                Outcome::Done { balance: customers[idx].balance }
            },
            None => Outcome::UnknownDestination,
        }
    } else {
        Outcome::InsufficientFunds
    }
}

/// A withdrawal takes exactly the amount out of the bank's total when it
/// succeeds, and changes nothing otherwise.
pub proof fn lemma_withdraw_total(s: Seq<Customer>, i: int, pin: Seq<char>, amount: int)
    requires
        0 <= i < s.len(),
        withdraw_fits(s, i, pin, amount),
    ensures
        total(withdraw_ledger(s, i, pin, amount)) == total(s) - if withdraw_allowed(
            s,
            i,
            pin,
            amount,
        ) {
            amount
        } else {
            0
        },
{
    if withdraw_allowed(s, i, pin, amount) {
        lemma_total_update(s, i, with_balance(s[i], s[i].balance - amount));
    }
}

/// A withdrawal never overdraws an account that was not overdrawn: it
/// either leaves the balance as it was or takes no more than is there.
pub proof fn lemma_withdraw_never_overdraws(s: Seq<Customer>, i: int, pin: Seq<char>, amount: int)
    requires
        0 <= i < s.len(),
        withdraw_fits(s, i, pin, amount),
        s[i].balance >= 0,
    ensures
        withdraw_ledger(s, i, pin, amount)[i].balance >= 0,
{
}

/// A deposit adds exactly the amount to the bank's total.
pub proof fn lemma_deposit_total(s: Seq<Customer>, i: int, amount: int)
    requires
        0 <= i < s.len(),
        deposit_fits(s, i, amount),
    ensures
        total(credited(s, i, amount)) == total(s) + amount,
{
    lemma_total_update(s, i, with_balance(s[i], s[i].balance + amount));
}

/// A transfer never changes the bank's total: money only moves.
pub proof fn lemma_transfer_total(
    s: Seq<Customer>,
    i: int,
    dest: Seq<char>,
    amount: int,
    pin: Seq<char>,
)
    requires
        0 <= i < s.len(),
        transfer_fits(s, i, dest, amount, pin),
    ensures
        total(transfer_ledger(s, i, dest, amount, pin)) == total(s),
{
    if s[i].pin@ == pin && s[i].balance >= amount && account_index(s, dest) is Some {
        let j = account_index(s, dest)->0;
        assert(0 <= j < s.len()) by {
            crate::customer::lemma_account_index_holder(s, dest);
        }
        let s1 = debited(s, i, amount);
        lemma_total_update(s, i, with_balance(s[i], s[i].balance - amount));
        lemma_total_update(s1, j, with_balance(s1[j], s1[j].balance + amount));
    }
}

/// A transfer to the paying account itself changes nothing.
pub proof fn lemma_transfer_to_self(
    s: Seq<Customer>,
    i: int,
    dest: Seq<char>,
    amount: int,
    pin: Seq<char>,
)
    requires
        0 <= i < s.len(),
        transfer_fits(s, i, dest, amount, pin),
        account_index(s, dest) == Some(i),
    ensures
        transfer_ledger(s, i, dest, amount, pin) == s,
{
    if s[i].pin@ == pin && s[i].balance >= amount {
        let t = moved(s, i, i, amount);
        assert(t =~= s);
    }
}

/// After a successful transfer to another account, the paying account
/// holds no less than nothing.
pub proof fn lemma_transfer_leaves_payer_solvent(
    s: Seq<Customer>,
    i: int,
    dest: Seq<char>,
    amount: int,
    pin: Seq<char>,
)
    requires
        0 <= i < s.len(),
        transfer_fits(s, i, dest, amount, pin),
        transfer_outcome(s, i, dest, amount, pin) is Done,
        account_index(s, dest) != Some(i),
    ensures
        transfer_ledger(s, i, dest, amount, pin)[i].balance >= 0,
{
}

/// A withdrawal changes nothing but the balance of the account it is made
/// from.
pub proof fn lemma_withdraw_keeps_accounts(s: Seq<Customer>, i: int, pin: Seq<char>, amount: int)
    requires
        0 <= i < s.len(),
        withdraw_fits(s, i, pin, amount),
    ensures
        same_accounts(s, withdraw_ledger(s, i, pin, amount)),
{
    let w = withdraw_ledger(s, i, pin, amount);
    assert forall|k: int| 0 <= k < s.len() implies #[trigger] w[k] == with_balance(s[k], w[k].balance as int) by {}
}

/// A deposit changes nothing but the balance of the account it goes into.
pub proof fn lemma_deposit_keeps_accounts(s: Seq<Customer>, i: int, amount: int)
    requires
        0 <= i < s.len(),
        deposit_fits(s, i, amount),
    ensures
        same_accounts(s, credited(s, i, amount)),
{
    let c = credited(s, i, amount);
    assert forall|k: int| 0 <= k < s.len() implies #[trigger] c[k] == with_balance(s[k], c[k].balance as int) by {}
}

/// A transfer changes nothing but balances.
pub proof fn lemma_transfer_keeps_accounts(
    s: Seq<Customer>,
    i: int,
    dest: Seq<char>,
    amount: int,
    pin: Seq<char>,
)
    requires
        0 <= i < s.len(),
        transfer_fits(s, i, dest, amount, pin),
    ensures
        same_accounts(s, transfer_ledger(s, i, dest, amount, pin)),
{
    let t = transfer_ledger(s, i, dest, amount, pin);
    if s[i].pin@ == pin && s[i].balance >= amount && account_index(s, dest) is Some {
        let j = account_index(s, dest)->0;
        assert(0 <= j < s.len()) by {
            crate::customer::lemma_account_index_holder(s, dest);
        }
    }
    assert forall|k: int| 0 <= k < s.len() implies #[trigger] t[k] == with_balance(s[k], t[k].balance as int) by {}
}

/// What a withdrawal does: with the account's PIN and an amount no larger
/// than its balance it succeeds, reports the new balance and takes exactly
/// the amount from that account alone; with another PIN, or an amount
/// larger than the balance, it refuses and changes nothing.
pub proof fn lemma_withdraw_effect(s: Seq<Customer>, i: int, pin: Seq<char>, amount: int)
    requires
        0 <= i < s.len(),
        s[i].pin@ == pin && s[i].balance >= amount ==> s[i].balance - amount <= i64::MAX,
    ensures
        withdraw_ledger(s, i, pin, amount).len() == s.len(),
        same_accounts(s, withdraw_ledger(s, i, pin, amount)),
        forall|k: int|
            0 <= k < s.len() && k != i ==> #[trigger] withdraw_ledger(s, i, pin, amount)[k] == s[k],
        s[i].pin@ == pin && s[i].balance >= amount ==> {
            &&& withdraw_outcome(s, i, pin, amount) == (Outcome::Done { balance: (s[i].balance - amount) as i64 })
            &&& withdraw_ledger(s, i, pin, amount)[i].balance == s[i].balance - amount
        },
        s[i].pin@ != pin ==> withdraw_outcome(s, i, pin, amount) == Outcome::InvalidPin
            && withdraw_ledger(s, i, pin, amount) == s,
        s[i].pin@ == pin && s[i].balance < amount ==> withdraw_outcome(s, i, pin, amount)
            == Outcome::InsufficientFunds && withdraw_ledger(s, i, pin, amount) == s,
{
    lemma_withdraw_keeps_accounts(s, i, pin, amount);
}

/// A transfer that is refused changes nothing: a wrong PIN, an amount
/// larger than the payer's balance, or a destination number that no
/// customer has.
pub proof fn lemma_transfer_refusals(
    s: Seq<Customer>,
    i: int,
    dest: Seq<char>,
    amount: int,
    pin: Seq<char>,
)
    requires
        0 <= i < s.len(),
    ensures
        s[i].pin@ != pin ==> transfer_outcome(s, i, dest, amount, pin) == Outcome::InvalidPin
            && transfer_ledger(s, i, dest, amount, pin) == s,
        s[i].pin@ == pin && s[i].balance < amount ==> transfer_outcome(s, i, dest, amount, pin)
            == Outcome::InsufficientFunds && transfer_ledger(s, i, dest, amount, pin) == s,
        s[i].pin@ == pin && s[i].balance >= amount && account_index(s, dest) is None
            ==> transfer_outcome(s, i, dest, amount, pin) == Outcome::UnknownDestination
            && transfer_ledger(s, i, dest, amount, pin) == s,
{
}

/// A transfer with the payer's PIN, an amount no larger than the payer's
/// balance and a destination `j` that exists succeeds: the payer loses the
/// amount, the destination gains it, nobody else changes, and the reply
/// carries the payer's new balance.
pub proof fn lemma_transfer_succeeds(
    s: Seq<Customer>,
    i: int,
    dest: Seq<char>,
    amount: int,
    pin: Seq<char>,
    j: int,
)
    requires
        0 <= i < s.len(),
        s[i].pin@ == pin,
        s[i].balance >= amount,
        account_index(s, dest) == Some(j),
        s[i].balance - amount <= i64::MAX,
        j != i ==> i64::MIN <= s[j].balance + amount <= i64::MAX,
    ensures
        0 <= j < s.len(),
        transfer_ledger(s, i, dest, amount, pin).len() == s.len(),
        same_accounts(s, transfer_ledger(s, i, dest, amount, pin)),
        forall|k: int|
            0 <= k < s.len() && k != i && k != j ==> #[trigger] transfer_ledger(
                s,
                i,
                dest,
                amount,
                pin,
            )[k] == s[k],
        j != i ==> {
            &&& transfer_ledger(s, i, dest, amount, pin)[i].balance == s[i].balance - amount
            &&& transfer_ledger(s, i, dest, amount, pin)[j].balance == s[j].balance + amount
            &&& transfer_outcome(s, i, dest, amount, pin) == (Outcome::Done { balance: (s[i].balance - amount) as i64 })
        },
        j == i ==> transfer_ledger(s, i, dest, amount, pin) == s && transfer_outcome(
            s,
            i,
            dest,
            amount,
            pin,
        ) == (Outcome::Done { balance: s[i].balance }),
        total(transfer_ledger(s, i, dest, amount, pin)) == total(s),
{
    crate::customer::lemma_account_index_holder(s, dest);
    lemma_transfer_keeps_accounts(s, i, dest, amount, pin);
    lemma_transfer_total(s, i, dest, amount, pin);
    if j == i {
        lemma_transfer_to_self(s, i, dest, amount, pin);
    }
}

} // verus!
