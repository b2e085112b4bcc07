//! The server's side of the protocol: validating a login, answering each
//! command of a logged-in client, and the per-connection session that
//! decides what to answer, whether to save the ledger and when to stop.

use vstd::prelude::*;
use vstd::string::*;
use crate::customer::{Customer, account_index, find_account, same_accounts, total, with_balance};
use crate::ledger::{
    Outcome, credited, deposit, lemma_deposit_keeps_accounts, lemma_deposit_total, lemma_transfer_keeps_accounts,
    lemma_withdraw_keeps_accounts, deposit_fits, transfer, transfer_fits, transfer_ledger,
    transfer_outcome, withdraw, withdraw_fits, withdraw_ledger, withdraw_outcome,
};
use crate::money::{fixed2_text, format_fixed2, format_plain, parse_amount, parsed_amount, plain_text};
use crate::text::{
    decode_lossy, lossy_utf8, split_whitespace, text_eq, trim, trim_end_nul, trimmed, words,
    words_of_buffer,
};

verus! {

/// The reply to a balance request for an account holding `b` hundredths.
pub open spec fn balance_reply(b: int) -> Seq<char> {
    "Balance: "@ + fixed2_text(b)
}

/// The reply to a withdrawal or transfer that ended in `o`; the new balance
/// is written with two decimals when `two_decimals`, in shortest form
/// otherwise.
pub open spec fn outcome_reply(o: Outcome, two_decimals: bool) -> Seq<char> {
    match o {
        Outcome::Done { balance } => "Success! New balance: "@ + if two_decimals {
            fixed2_text(balance as int)
        } else {
            plain_text(balance as int)
        },
        Outcome::InvalidPin => "Invalid PIN."@,
        Outcome::InsufficientFunds => "Insufficient funds."@,
        Outcome::UnknownDestination => "Unknown destination account number"@,
    }
}

/// The amount written in `t`; meaningful where `parsed_amount(t)` is `Some`.
pub open spec fn amount_in(t: Seq<char>) -> int {
    parsed_amount(t)->0
}

fn text_reply(s: &str) -> (r: String)
    ensures
        r@ == s@,
{
    String::from_str(s)
}

fn outcome_text(o: Outcome, two_decimals: bool) -> (r: String)
    ensures
        r@ == outcome_reply(o, two_decimals),
{
    match o {
        Outcome::Done { balance } => {
            let mut r = String::from_str("Success! New balance: ");
            let b = if two_decimals {
                format_fixed2(balance)
            } else {
                format_plain(balance)
            };
            r.append(b.as_str());
            r
        },
        Outcome::InvalidPin => text_reply("Invalid PIN."),
        Outcome::InsufficientFunds => text_reply("Insufficient funds."),
        Outcome::UnknownDestination => text_reply("Unknown destination account number"),
    }
}

/// Answers a balance request for account `idx`.
pub fn handle_balance(customers: &Vec<Customer>, idx: usize) -> (r: String)
    requires
        idx < customers@.len(),
    ensures
        r@ == balance_reply(customers@[idx as int].balance as int),
{
    let mut r = String::from_str("Balance: ");
    let b = format_fixed2(customers[idx].balance);
    r.append(b.as_str());
    r
}

/// Handles `withdraw <account> <pin> <amount>` for the logged-in account
/// `idx`.
pub fn handle_withdraw(parts: &Vec<String>, customers: &mut Vec<Customer>, idx: usize) -> (r: String)
    requires
        idx < old(customers)@.len(),
        parts@.len() >= 4,
        parsed_amount(parts@[3]@) is Some,
        withdraw_fits(old(customers)@, idx as int, parts@[2]@, amount_in(parts@[3]@)),
    ensures
        final(customers)@ == withdraw_ledger(
            old(customers)@,
            idx as int,
            parts@[2]@,
            amount_in(parts@[3]@),
        ),
        r@ == outcome_reply(
            withdraw_outcome(old(customers)@, idx as int, parts@[2]@, amount_in(parts@[3]@)),
            true,
        ),
{
    let amount = parse_amount(parts[3].as_str()).unwrap();
    let o = withdraw(customers, idx, parts[2].as_str(), amount);
    outcome_text(o, true)
}

/// Handles `deposit <account> <amount>` for the logged-in account `idx`.
pub fn handle_deposit(parts: &Vec<String>, customers: &mut Vec<Customer>, idx: usize) -> (r: String)
    requires
        idx < old(customers)@.len(),
        parts@.len() >= 3,
        parsed_amount(parts@[2]@) is Some,
        deposit_fits(old(customers)@, idx as int, amount_in(parts@[2]@)),
    ensures
        final(customers)@ == credited(old(customers)@, idx as int, amount_in(parts@[2]@)),
        r@ == "Success"@,
{
    let amount = parse_amount(parts[2].as_str()).unwrap();
    deposit(customers, idx, amount);
    text_reply("Success")
}

/// The reply to a transfer request whose amount is not positive.
pub open spec fn not_positive_reply() -> Seq<char> {
    "Incorrect ammount cannot be negative"@
}

/// Handles `transfer <account> <destination> <amount> <pin>` for the logged-in account
/// `idx`; an amount that is not positive is refused.
pub fn handle_transfer(parts: &Vec<String>, customers: &mut Vec<Customer>, idx: usize) -> (r: String)
    requires
        parts@.len() >= 5,
        parsed_amount(parts@[3]@) is Some,
        amount_in(parts@[3]@) > 0 ==> idx < old(customers)@.len(),
        amount_in(parts@[3]@) > 0 ==> transfer_fits(
            old(customers)@,
            idx as int,
            parts@[2]@,
            amount_in(parts@[3]@),
            parts@[4]@,
        ),
    ensures
        amount_in(parts@[3]@) <= 0 ==> final(customers)@ == old(customers)@ && r@
            == not_positive_reply(),
        amount_in(parts@[3]@) > 0 ==> final(customers)@ == transfer_ledger(
            old(customers)@,
            idx as int,
            parts@[2]@,
            amount_in(parts@[3]@),
            parts@[4]@,
        ) && r@ == outcome_reply(
            transfer_outcome(
                old(customers)@,
                idx as int,
                parts@[2]@,
                amount_in(parts@[3]@),
                parts@[4]@,
            ),
            false,
        ),
{
    let amount = parse_amount(parts[3].as_str()).unwrap();
    if amount <= 0 {
        text_reply("Incorrect ammount cannot be negative")
    } else {
        let o = transfer(customers, idx, parts[2].as_str(), amount, parts[4].as_str());
        outcome_text(o, false)
    }
}

/// The result of logging in to account `acct` with `pin`: the position of
/// the account when its PIN is `pin`.
pub open spec fn login_result(s: Seq<Customer>, acct: Seq<char>, pin: Seq<char>) -> Option<int> {
    match account_index(s, acct) {
        Some(i) => if s[i].pin@ == pin {
            Some(i)
        } else {
            None
        },
        None => None,
    }
}

/// A login succeeds exactly for the first account with the given number,
/// and only when that account's PIN is the one given.
pub proof fn lemma_login_names_account(s: Seq<Customer>, acct: Seq<char>, pin: Seq<char>)
    ensures
        login_result(s, acct, pin) matches Some(i) ==> {
            &&& crate::customer::is_first_holder(s, acct, i)
            &&& s[i].pin@ == pin
        },
        (exists|i: int| crate::customer::is_first_holder(s, acct, i) && s[i].pin@ == pin) ==> login_result(
            s,
            acct,
            pin,
        ) is Some,
{
    if exists|i: int| crate::customer::is_first_holder(s, acct, i) {
        let k = choose|i: int| crate::customer::is_first_holder(s, acct, i);
        crate::customer::lemma_account_index(s, acct, k);
        assert forall|i: int| crate::customer::is_first_holder(s, acct, i) implies i == k by {
            crate::customer::lemma_account_index(s, acct, i);
        }
    }
}

/// Checks a login: the position of the first account numbered
/// `account_number`, when its PIN is `pin`.
pub fn validate_customer(account_number: &str, pin: &str, customers: &Vec<Customer>) -> (r: Option<
    usize,
>)
    ensures
        match r {
            Some(i) => login_result(customers@, account_number@, pin@) == Some(i as int),
            None => login_result(customers@, account_number@, pin@) is None,
        },
{
    match find_account(account_number, customers.as_slice()) {
        Some(idx) => {
            if text_eq(customers[idx].pin.as_str(), pin) {
                Some(idx)
            } else {
                None
            }
        },
        None => None,
    }
}

/// The words of a message received from a client; an empty read means the
/// client has closed the connection.
pub fn convert_stream_to_parts(received: &[u8]) -> (r: Result<Vec<String>, ()>)
    ensures
        received@.len() == 0 <==> r is Err,
        r matches Ok(parts) ==> parts.deep_view() == words(lossy_utf8(received@)),
{
    if received.len() == 0 {
        return Err(());
    }
    let text = decode_lossy(received);
    Ok(split_whitespace(text.as_str()))
}

/// The command word of a request.
pub open spec fn command_of(p: Seq<Seq<char>>) -> Seq<char> {
    trimmed(p[0])
}

/// The request `p` can be carried out for account `i` without a missing
/// word, an amount that is not a number, or a balance that leaves the
/// range of an `i64`. `session` selects the commands of a logged-in
/// session (which refuse to transfer amounts that are not positive) over
/// those of a single request that names its account.
pub open spec fn command_defined(s: Seq<Customer>, i: int, p: Seq<Seq<char>>, session: bool) -> bool {
    &&& p.len() >= 1
    &&& command_of(p) == "withdraw"@ ==> {
        &&& p.len() >= 4
        &&& parsed_amount(p[3]) is Some
        &&& withdraw_fits(s, i, p[2], amount_in(p[3]))
    }
    &&& command_of(p) == "deposit"@ ==> {
        &&& p.len() >= 3
        &&& parsed_amount(p[2]) is Some
        &&& deposit_fits(s, i, amount_in(p[2]))
    }
    &&& command_of(p) == "transfer"@ ==> {
        &&& p.len() >= 5
        &&& parsed_amount(p[3]) is Some
        &&& (session ==> amount_in(p[3]) > 0) ==> transfer_fits(s, i, p[2], amount_in(p[3]), p[4])
    }
}

/// The reply to request `p` for account `i`.
pub open spec fn command_reply(s: Seq<Customer>, i: int, p: Seq<Seq<char>>, session: bool) -> Seq<
    char,
> {
    let c = command_of(p);
    if c == "balance"@ {
        balance_reply(s[i].balance as int)
    } else if c == "withdraw"@ {
        outcome_reply(withdraw_outcome(s, i, p[2], amount_in(p[3])), session)
    } else if c == "deposit"@ {
        "Success"@
    } else if c == "transfer"@ {
        if session && amount_in(p[3]) <= 0 {
            not_positive_reply()
        } else {
            outcome_reply(transfer_outcome(s, i, p[2], amount_in(p[3]), p[4]), false)
        }
    } else {
        "Invalid operation."@
    }
}

/// The ledger after request `p` for account `i`.
pub open spec fn command_ledger(s: Seq<Customer>, i: int, p: Seq<Seq<char>>, session: bool) -> Seq<
    Customer,
> {
    let c = command_of(p);
    if c == "withdraw"@ {
        withdraw_ledger(s, i, p[2], amount_in(p[3]))
    } else if c == "deposit"@ {
        credited(s, i, amount_in(p[2]))
    } else if c == "transfer"@ {
        if session && amount_in(p[3]) <= 0 {
            s
        } else {
            transfer_ledger(s, i, p[2], amount_in(p[3]), p[4])
        }
    } else {
        s
    }
}

proof fn lemma_command_words_differ()
    ensures
        "balance"@ != "withdraw"@,
        "balance"@ != "deposit"@,
        "balance"@ != "transfer"@,
        "withdraw"@ != "deposit"@,
        "withdraw"@ != "transfer"@,
        "deposit"@ != "transfer"@,
{
    reveal_strlit("balance");
    reveal_strlit("withdraw");
    reveal_strlit("deposit");
    reveal_strlit("transfer");
    assert("balance"@[0] == 'b');
    assert("withdraw"@[0] == 'w');
    assert("deposit"@[0] == 'd');
    assert("transfer"@[0] == 't');
}

fn fits_i64(v: i128) -> (r: bool)
    ensures
        r == (i64::MIN <= v <= i64::MAX),
{
    -9_223_372_036_854_775_808i128 <= v && v <= 9_223_372_036_854_775_807i128
}

/// Whether request `p` for account `idx` is one that `command_defined`
/// admits.
pub fn command_is_defined(parts: &Vec<String>, customers: &Vec<Customer>, idx: usize, session: bool) -> (r: bool)
    requires
        idx < customers@.len(),
    ensures
        r == command_defined(customers@, idx as int, parts.deep_view(), session),
{
    let ghost p = parts.deep_view();
    proof {
        lemma_command_words_differ();
    }
    if parts.len() < 1 {
        return false;
    }
    assert(parts@[0]@ == p[0]);
    let c = trim(parts[0].as_str());
    let balance = customers[idx].balance;
    if text_eq(c.as_str(), "withdraw") {
        if parts.len() < 4 {
            return false;
        }
        assert(parts@[2]@ == p[2] && parts@[3]@ == p[3]);
        match parse_amount(parts[3].as_str()) {
            None => false,
            Some(a) => {
                if text_eq(customers[idx].pin.as_str(), parts[2].as_str()) && balance >= a {
                    fits_i64(balance as i128 - a as i128)
                } else {
                    true
                }
            },
        }
    } else if text_eq(c.as_str(), "deposit") {
        if parts.len() < 3 {
            return false;
        }
        assert(parts@[2]@ == p[2]);
        match parse_amount(parts[2].as_str()) {
            None => false,
            Some(a) => fits_i64(balance as i128 + a as i128),
        }
    } else if text_eq(c.as_str(), "transfer") {
        if parts.len() < 5 {
            return false;
        }
        assert(parts@[2]@ == p[2] && parts@[3]@ == p[3] && parts@[4]@ == p[4]);
        match parse_amount(parts[3].as_str()) {
            None => false,
            Some(a) => {
                if session && a <= 0 {
                    return true;
                }
                if !(text_eq(customers[idx].pin.as_str(), parts[4].as_str()) && balance >= a) {
                    return true;
                }
                match find_account(parts[2].as_str(), customers.as_slice()) {
                    None => true,
                    Some(j) => {
                        fits_i64(balance as i128 - a as i128) && (j == idx || fits_i64(
                            customers[j].balance as i128 + a as i128,
                        ))
                    },
                }
            },
        }
    } else {
        true
    }
}

fn respond_in(parts: &Vec<String>, customers: &mut Vec<Customer>, idx: usize, session: bool) -> (r: String)
    requires
        idx < old(customers)@.len(),
        command_defined(old(customers)@, idx as int, parts.deep_view(), session),
    ensures
        r@ == command_reply(old(customers)@, idx as int, parts.deep_view(), session),
        final(customers)@ == command_ledger(old(customers)@, idx as int, parts.deep_view(), session),
{
    let ghost p = parts.deep_view();
    proof {
        lemma_command_words_differ();
    }
    assert(parts@[0]@ == p[0]);
    let c = trim(parts[0].as_str());
    if text_eq(c.as_str(), "balance") {
        handle_balance(customers, idx)
    } else if text_eq(c.as_str(), "withdraw") {
        assert(parts@[2]@ == p[2] && parts@[3]@ == p[3]);
        if session {
            handle_withdraw(parts, customers, idx)
        } else {
            let amount = parse_amount(parts[3].as_str()).unwrap();
            let o = withdraw(customers, idx, parts[2].as_str(), amount);
            outcome_text(o, false)
        }
    } else if text_eq(c.as_str(), "deposit") {
        assert(parts@[2]@ == p[2]);
        handle_deposit(parts, customers, idx)
    } else if text_eq(c.as_str(), "transfer") {
        assert(parts@[2]@ == p[2] && parts@[3]@ == p[3] && parts@[4]@ == p[4]);
        if session {
            handle_transfer(parts, customers, idx)
        } else {
            let amount = parse_amount(parts[3].as_str()).unwrap();
            let o = transfer(customers, idx, parts[2].as_str(), amount, parts[4].as_str());
            outcome_text(o, false)
        }
    } else {
        text_reply("Invalid operation.")
    }
}

/// Answers one command of a logged-in session for account `idx`:
/// `balance`, `withdraw`, `deposit` or `transfer`; anything else is an
/// invalid operation.
pub fn respond(parts: &Vec<String>, customers: &mut Vec<Customer>, idx: usize) -> (r: String)
    requires
        idx < old(customers)@.len(),
        command_defined(old(customers)@, idx as int, parts.deep_view(), true),
    ensures
        r@ == command_reply(old(customers)@, idx as int, parts.deep_view(), true),
        final(customers)@ == command_ledger(old(customers)@, idx as int, parts.deep_view(), true),
{
    respond_in(parts, customers, idx, true)
}

/// A command changes nothing but balances: every customer keeps their
/// place, name, account number and PIN.
pub proof fn lemma_command_keeps_accounts(s: Seq<Customer>, i: int, p: Seq<Seq<char>>, session: bool)
    requires
        0 <= i < s.len(),
        command_defined(s, i, p, session),
    ensures
        same_accounts(s, command_ledger(s, i, p, session)),
{
    let c = command_of(p);
    if c == "withdraw"@ {
        lemma_withdraw_keeps_accounts(s, i, p[2], amount_in(p[3]));
    } else if c == "deposit"@ {
        lemma_deposit_keeps_accounts(s, i, amount_in(p[2]));
    } else if c == "transfer"@ && !(session && amount_in(p[3]) <= 0) {
        lemma_transfer_keeps_accounts(s, i, p[2], amount_in(p[3]), p[4]);
    } else {
        assert forall|k: int| 0 <= k < s.len() implies #[trigger] s[k] == with_balance(s[k], s[k].balance as int) by {}
    }
}

/// The balance command answers the balance with two decimals and changes
/// nothing; a command word that is none of the four is an invalid operation
/// and changes nothing.
pub proof fn lemma_balance_and_other_commands(s: Seq<Customer>, i: int, p: Seq<Seq<char>>, session: bool)
    requires
        0 <= i < s.len(),
        p.len() >= 1,
    ensures
        command_of(p) == "balance"@ ==> command_ledger(s, i, p, session) == s
            && command_reply(s, i, p, session) == "Balance: "@ + fixed2_text(s[i].balance as int),
        command_of(p) != "balance"@ && command_of(p) != "withdraw"@ && command_of(p) != "deposit"@
            && command_of(p) != "transfer"@ ==> command_ledger(s, i, p, session) == s
            && command_reply(s, i, p, session) == "Invalid operation."@,
{
    lemma_command_words_differ();
}

/// A deposit, in a session or as a single request, answers "Success" and
/// adds the amount to the account and to nothing else, so the bank's total
/// rises by exactly the amount.
pub proof fn lemma_deposit_command(s: Seq<Customer>, i: int, p: Seq<Seq<char>>, session: bool)
    requires
        0 <= i < s.len(),
        command_defined(s, i, p, session),
        command_of(p) == "deposit"@,
    ensures
        command_reply(s, i, p, session) == "Success"@,
        command_ledger(s, i, p, session).len() == s.len(),
        command_ledger(s, i, p, session)[i].balance == s[i].balance + amount_in(p[2]),
        forall|k: int|
            0 <= k < s.len() && k != i ==> #[trigger] command_ledger(s, i, p, session)[k] == s[k],
        same_accounts(s, command_ledger(s, i, p, session)),
        total(command_ledger(s, i, p, session)) == total(s) + amount_in(p[2]),
{
    lemma_command_words_differ();
    lemma_deposit_keeps_accounts(s, i, amount_in(p[2]));
    lemma_deposit_total(s, i, amount_in(p[2]));
}

/// A withdrawal, in a session or as a single request: a wrong PIN or an
/// amount larger than the balance is refused and changes nothing; otherwise
/// exactly the amount leaves the account and the reply carries the new
/// balance. No withdrawal overdraws an account that was not overdrawn.
pub proof fn lemma_withdraw_command(s: Seq<Customer>, i: int, p: Seq<Seq<char>>, session: bool)
    requires
        0 <= i < s.len(),
        command_defined(s, i, p, session),
        command_of(p) == "withdraw"@,
    ensures
        command_ledger(s, i, p, session).len() == s.len(),
        forall|k: int|
            0 <= k < s.len() && k != i ==> #[trigger] command_ledger(s, i, p, session)[k] == s[k],
        same_accounts(s, command_ledger(s, i, p, session)),
        s[i].pin@ != p[2] ==> command_ledger(s, i, p, session) == s && command_reply(s, i, p, session)
            == "Invalid PIN."@,
        s[i].pin@ == p[2] && s[i].balance < amount_in(p[3]) ==> command_ledger(s, i, p, session) == s
            && command_reply(s, i, p, session) == "Insufficient funds."@,
        s[i].pin@ == p[2] && s[i].balance >= amount_in(p[3]) ==> {
            &&& command_ledger(s, i, p, session)[i].balance == s[i].balance - amount_in(p[3])
            &&& command_reply(s, i, p, session) == "Success! New balance: "@ + if session {
                fixed2_text(s[i].balance - amount_in(p[3]))
            } else {
                plain_text(s[i].balance - amount_in(p[3]))
            }
        },
        s[i].balance >= 0 ==> command_ledger(s, i, p, session)[i].balance >= 0,
{
    lemma_command_words_differ();
    crate::ledger::lemma_withdraw_effect(s, i, p[2], amount_in(p[3]));
}

/// A transfer, in a session or as a single request, never changes the
/// bank's total nor anything but balances. A session refuses an amount that
/// is not positive; otherwise a wrong PIN, an amount larger than the
/// payer's balance or an unknown destination number is refused and changes
/// nothing.
pub proof fn lemma_transfer_command(s: Seq<Customer>, i: int, p: Seq<Seq<char>>, session: bool)
    requires
        0 <= i < s.len(),
        command_defined(s, i, p, session),
        command_of(p) == "transfer"@,
    ensures
        total(command_ledger(s, i, p, session)) == total(s),
        same_accounts(s, command_ledger(s, i, p, session)),
        session && amount_in(p[3]) <= 0 ==> command_ledger(s, i, p, session) == s
            && command_reply(s, i, p, session) == "Incorrect ammount cannot be negative"@,
        (!session || amount_in(p[3]) > 0) && s[i].pin@ != p[4] ==> command_ledger(s, i, p, session)
            == s && command_reply(s, i, p, session) == "Invalid PIN."@,
        (!session || amount_in(p[3]) > 0) && s[i].pin@ == p[4] && s[i].balance < amount_in(p[3])
            ==> command_ledger(s, i, p, session) == s && command_reply(s, i, p, session)
            == "Insufficient funds."@,
        (!session || amount_in(p[3]) > 0) && s[i].pin@ == p[4] && s[i].balance >= amount_in(p[3])
            && account_index(s, p[2]) is None ==> command_ledger(s, i, p, session) == s
            && command_reply(s, i, p, session) == "Unknown destination account number"@,
{
    lemma_command_words_differ();
    let a = amount_in(p[3]);
    if session && a <= 0 {
        assert(same_accounts(s, s)) by {
            assert forall|k: int| 0 <= k < s.len() implies #[trigger] s[k] == with_balance(s[k], s[k].balance as int) by {}
        }
    } else {
        crate::ledger::lemma_transfer_refusals(s, i, p[2], a, p[4]);
        crate::ledger::lemma_transfer_keeps_accounts(s, i, p[2], a, p[4]);
        crate::ledger::lemma_transfer_total(s, i, p[2], a, p[4]);
    }
}

/// A transfer, in a session or as a single request, with the payer's PIN,
/// an amount no larger than the payer's balance (and positive in a session)
/// and a destination `j` other than the payer succeeds: the payer loses the
/// amount, the destination gains it, nobody else changes, and the reply
/// carries the payer's new balance.
pub proof fn lemma_transfer_command_succeeds(
    s: Seq<Customer>,
    i: int,
    p: Seq<Seq<char>>,
    session: bool,
    j: int,
)
    requires
        0 <= i < s.len(),
        command_defined(s, i, p, session),
        command_of(p) == "transfer"@,
        !session || amount_in(p[3]) > 0,
        s[i].pin@ == p[4],
        s[i].balance >= amount_in(p[3]),
        account_index(s, p[2]) == Some(j),
        j != i,
    ensures
        0 <= j < s.len(),
        command_ledger(s, i, p, session)[i].balance == s[i].balance - amount_in(p[3]),
        command_ledger(s, i, p, session)[j].balance == s[j].balance + amount_in(p[3]),
        forall|k: int|
            0 <= k < s.len() && k != i && k != j ==> #[trigger] command_ledger(s, i, p, session)[k]
                == s[k],
        command_reply(s, i, p, session) == "Success! New balance: "@ + plain_text(
            s[i].balance - amount_in(p[3]),
        ),
{
    lemma_command_words_differ();
    crate::ledger::lemma_transfer_succeeds(s, i, p[2], amount_in(p[3]), p[4], j);
}

/// Which requests can be carried out: a balance request or an unknown
/// command always; a withdrawal, deposit or transfer whose words are all
/// there, whose amount is a number, and whose new balances fit in an `i64`.
pub proof fn lemma_command_defined(s: Seq<Customer>, i: int, p: Seq<Seq<char>>, session: bool)
    requires
        0 <= i < s.len(),
        p.len() >= 1,
    ensures
        command_of(p) == "balance"@ ==> command_defined(s, i, p, session),
        command_of(p) != "withdraw"@ && command_of(p) != "deposit"@ && command_of(p) != "transfer"@
            ==> command_defined(s, i, p, session),
        command_of(p) == "withdraw"@ ==> (command_defined(s, i, p, session) <==> {
            &&& p.len() >= 4
            &&& parsed_amount(p[3]) is Some
            &&& s[i].pin@ == p[2] && s[i].balance >= amount_in(p[3]) ==> s[i].balance - amount_in(p[3])
                <= i64::MAX
        }),
        command_of(p) == "deposit"@ ==> (command_defined(s, i, p, session) <==> {
            &&& p.len() >= 3
            &&& parsed_amount(p[2]) is Some
            &&& i64::MIN <= s[i].balance + amount_in(p[2]) <= i64::MAX
        }),
        command_of(p) == "transfer"@ ==> (command_defined(s, i, p, session) <==> {
            &&& p.len() >= 5
            &&& parsed_amount(p[3]) is Some
            &&& ((!session || amount_in(p[3]) > 0) && s[i].pin@ == p[4] && s[i].balance >= amount_in(p[3])
                && account_index(s, p[2]) is Some) ==> {
                &&& s[i].balance - amount_in(p[3]) <= i64::MAX
                &&& account_index(s, p[2])->0 != i ==> i64::MIN <= s[account_index(s, p[2])->0].balance
                    + amount_in(p[3]) <= i64::MAX
            }
        }),
{
    lemma_command_words_differ();
}

/// What the connection handler does after a message: send `reply` if
/// there is one, save the ledger first when `persist`, and stop serving the
/// connection when `close`.
#[derive(Debug)]
pub struct Action {
    pub reply: Option<String>,
    pub persist: bool,
    pub close: bool,
}

/// The reply that `a` sends is `t`.
pub open spec fn replies(a: Action, t: Seq<char>) -> bool {
    a.reply matches Some(r) && r@ == t
}

/// The words of a request read into the zero-filled `buffer`, of which
/// `bytes_read` bytes came in; `None` when nothing came, as the client has
/// closed the connection.
pub fn request_parts(buffer: &[u8], bytes_read: usize) -> (r: Option<Vec<String>>)
    ensures
        bytes_read == 0 <==> r is None,
        r matches Some(parts) ==> parts.deep_view() == words(trim_end_nul(lossy_utf8(buffer@))),
{
    if bytes_read == 0 {
        None
    } else {
        Some(words_of_buffer(buffer))
    }
}

/// The single request `p`, which names its account in its second word, can
/// be carried out.
pub open spec fn request_defined(s: Seq<Customer>, p: Seq<Seq<char>>) -> bool {
    &&& p.len() >= 2
    &&& account_index(s, p[1]) matches Some(i) ==> command_defined(s, i, p, false)
}

/// Whether the single request `parts` is one that `request_defined` admits.
pub fn request_is_defined(parts: &Vec<String>, customers: &Vec<Customer>) -> (r: bool)
    ensures
        r == request_defined(customers@, parts.deep_view()),
{
    if parts.len() < 2 {
        return false;
    }
    assert(parts@[1]@ == parts.deep_view()[1]);
    match find_account(parts[1].as_str(), customers.as_slice()) {
        Some(i) => {
            proof {
                crate::customer::lemma_account_index_holder(customers@, parts@[1]@);
            }
            command_is_defined(parts, customers, i, false)
        },
        None => true,
    }
}

/// Answers a single request `<command> <account> ...` that names the
/// account it is about: an unknown account number is refused; otherwise the
/// command is carried out and the ledger is to be saved.
pub fn handle_account_request(parts: &Vec<String>, customers: &mut Vec<Customer>) -> (r: Action)
    requires
        request_defined(old(customers)@, parts.deep_view()),
    ensures
        !r.close,
        match account_index(old(customers)@, parts.deep_view()[1]) {
            Some(i) => {
                &&& replies(r, command_reply(old(customers)@, i, parts.deep_view(), false))
                &&& r.persist
                &&& final(customers)@ == command_ledger(old(customers)@, i, parts.deep_view(), false)
            },
            None => {
                &&& replies(r, "Unknown account number"@)
                &&& !r.persist
                &&& final(customers)@ == old(customers)@
            },
        },
{
    assert(parts@[1]@ == parts.deep_view()[1]);
    match find_account(parts[1].as_str(), customers.as_slice()) {
        Some(i) => {
            proof {
                crate::customer::lemma_account_index_holder(customers@, parts@[1]@);
            }
            let reply = respond_in(parts, customers, i, false);
            Action { reply: Some(reply), persist: true, close: false }
        },
        None => Action {
            reply: Some(text_reply("Unknown account number")),
            persist: false,
            close: false,
        },
    }
}

/// Where a client's connection stands.
#[derive(Debug, Clone, Copy, PartialEq, Eq, Structural)]
pub enum Phase {
    /// The first message, the login, has not come yet.
    AwaitingLogin,
    /// Logged in to the account at position `index`.
    LoggedIn { index: usize },
    /// The connection is no longer served.
    Closed,
}

/// The state of one client connection.
#[derive(Debug)]
pub struct Session {
    pub phase: Phase,
}

/// The session's account, if logged in, is a position of the ledger `s`.
pub open spec fn phase_fits(phase: Phase, s: Seq<Customer>) -> bool {
    phase matches Phase::LoggedIn { index } ==> index < s.len()
}

/// The message `m` can be handled in `phase`: a login names an account and
/// a PIN, and a command is one that `command_defined` admits.
pub open spec fn message_defined(phase: Phase, s: Seq<Customer>, m: Result<Vec<String>, ()>) -> bool {
    match (phase, m) {
        (Phase::AwaitingLogin, Ok(parts)) => parts@.len() >= 3,
        (Phase::LoggedIn { index }, Ok(parts)) => command_defined(s, index as int, parts.deep_view(), true),
        _ => true,
    }
}

impl Session {
    /// A session waiting for its login.
    pub fn new() -> (r: Session)
        ensures
            r.phase == Phase::AwaitingLogin,
    {
        Session { phase: Phase::AwaitingLogin }
    }

    /// Whether `message` is one that `message_defined` admits now.
    pub fn accepts(&self, customers: &Vec<Customer>, message: &Result<Vec<String>, ()>) -> (r: bool)
        requires
            phase_fits(self.phase, customers@),
        ensures
            r == message_defined(self.phase, customers@, *message),
    {
        match (self.phase, message) {
            (Phase::AwaitingLogin, Ok(parts)) => parts.len() >= 3,
            (Phase::LoggedIn { index }, Ok(parts)) => command_is_defined(parts, customers, index, true),
            _ => true,
        }
    }

    /// Handles the next message from the client: `Err` for a read of
    /// nothing, `Ok` with its words otherwise.
    ///
    /// The first message logs in with its second and third words, account
    /// number and PIN; an empty first read or a failed login ends the
    /// connection. Once logged in, each message is a command for the
    /// account; its reply is sent after the ledger is saved, and an empty
    /// read is ignored.
    pub fn on_message(
        &mut self,
        customers: &mut Vec<Customer>,
        message: Result<Vec<String>, ()>,
    ) -> (r: Action)
        requires
            phase_fits(old(self).phase, old(customers)@),
            message_defined(old(self).phase, old(customers)@, message),
        ensures
            phase_fits(final(self).phase, final(customers)@),
            match (old(self).phase, message) {
                (Phase::AwaitingLogin, Err(_)) => {
                    &&& replies(r, "inbalid request"@)
                    &&& r.close && !r.persist
                    &&& final(self).phase == Phase::Closed
                    &&& final(customers)@ == old(customers)@
                },
                (Phase::AwaitingLogin, Ok(parts)) => {
                    &&& !r.persist
                    &&& final(customers)@ == old(customers)@
                    &&& match login_result(old(customers)@, parts@[1]@, parts@[2]@) {
                        Some(i) => {
                            &&& replies(r, "logged in!"@)
                            &&& !r.close
                            &&& final(self).phase == Phase::LoggedIn { index: i as usize }
                        },
                        None => {
                            &&& replies(r, "not valid"@)
                            &&& r.close
                            &&& final(self).phase == Phase::Closed
                        },
                    }
                },
                (Phase::LoggedIn { index }, Err(_)) => {
                    &&& r.reply is None && !r.persist && !r.close
                    &&& final(self).phase == old(self).phase
                    &&& final(customers)@ == old(customers)@
                },
                (Phase::LoggedIn { index }, Ok(parts)) => {
                    &&& replies(r, command_reply(old(customers)@, index as int, parts.deep_view(), true))
                    &&& r.persist && !r.close
                    &&& final(self).phase == old(self).phase
                    &&& final(customers)@ == command_ledger(old(customers)@, index as int, parts.deep_view(), true)
                },
                (Phase::Closed, _) => {
                    &&& r.reply is None && !r.persist && r.close
                    &&& final(self).phase == Phase::Closed
                    &&& final(customers)@ == old(customers)@
                },
            },
    {
        match (self.phase, message) {
            (Phase::AwaitingLogin, Err(_)) => {
                self.phase = Phase::Closed;
                Action { reply: Some(text_reply("inbalid request")), persist: false, close: true }
            },
            (Phase::AwaitingLogin, Ok(parts)) => {
                match validate_customer(parts[1].as_str(), parts[2].as_str(), customers) {
                    Some(i) => {
                        proof {
                            crate::customer::lemma_account_index_holder(customers@, parts@[1]@);
                        }
                        self.phase = Phase::LoggedIn { index: i };
                        Action { reply: Some(text_reply("logged in!")), persist: false, close: false }
                    },
                    None => {
                        self.phase = Phase::Closed;
                        Action { reply: Some(text_reply("not valid")), persist: false, close: true }
                    },
                }
            },
            (Phase::LoggedIn { index }, Err(_)) => Action { reply: None, persist: false, close: false },
            (Phase::LoggedIn { index }, Ok(parts)) => {
                let reply = respond(&parts, customers, index);
                proof {
                    lemma_command_keeps_accounts(old(customers)@, index as int, parts.deep_view(), true);
                }
                Action { reply: Some(reply), persist: true, close: false }
            },
            (Phase::Closed, _) => Action { reply: None, persist: false, close: true },
        }
    }
}

} // verus!
