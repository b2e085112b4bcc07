//! The client's side of the protocol: its credentials, the requests it
//! sends and the operations a user can choose.

use vstd::prelude::*;
use vstd::string::*;
use crate::text::{is_word, join_words, all_white_space, lemma_words_of_joined, text_eq, words};

verus! {

/// A client's credentials for one account.
#[derive(Debug)]
pub struct Client {
    pub account_number: String,
    pub pin: String,
}

/// The text of a balance request for account `acct` with `pin`.
pub open spec fn balance_request_text(acct: Seq<char>, pin: Seq<char>) -> Seq<char> {
    "balance "@ + acct + " "@ + pin + "\n"@
}

/// An operation that the user can choose.
#[derive(Debug, Clone, Copy, PartialEq, Eq, Structural)]
pub enum Operation {
    Balance,
    Exit,
    Unknown,
}

/// The operation that the text `op` names.
pub open spec fn operation_of(op: Seq<char>) -> Operation {
    if op == "balance"@ {
        Operation::Balance
    } else if op == "exit"@ {
        Operation::Exit
    } else {
        Operation::Unknown
    }
}

/// The operation that the user's input `op` names.
pub fn parse_operation(op: &str) -> (r: Operation)
    ensures
        r == operation_of(op@),
{
    if text_eq(op, "balance") {
        Operation::Balance
    } else if text_eq(op, "exit") {
        Operation::Exit
    } else {
        Operation::Unknown
    }
}

impl Client {
    /// A client for account `account_number` with `pin`.
    pub fn new(account_number: String, pin: String) -> (r: Client)
        ensures
            r.account_number == account_number,
            r.pin == pin,
    {
        Client { account_number, pin }
    }

    /// An account number is ten bytes long.
    pub fn is_valid_account_number(&self) -> (r: bool)
        ensures
            r == (vstd::utf8::encode_utf8(self.account_number@).len() as usize == 10),
    {
        let s = self.account_number.as_str();
        let n = s.len();
        assert(n == vstd::utf8::encode_utf8(self.account_number@).len() as usize);
        n == 10
    }

    /// The request that asks for the balance.
    pub fn balance_request(&self) -> (r: String)
        ensures
            r@ == balance_request_text(self.account_number@, self.pin@),
    {
        let mut r = String::from_str("balance ");
        r.append(self.account_number.as_str());
        r.append(" ");
        r.append(self.pin.as_str());
        r.append("\n");
        r
    }
}

/// A balance request, read by the server, gives back the words `balance`,
/// the account number and the PIN, when these two are single words.
pub proof fn lemma_balance_request_words(acct: Seq<char>, pin: Seq<char>)
    requires
        is_word(acct),
        is_word(pin),
    ensures
        words(balance_request_text(acct, pin)) == seq!["balance"@, acct, pin],
{
    reveal_strlit("balance ");
    reveal_strlit("balance");
    reveal_strlit(" ");
    reveal_strlit("\n");
    let ws = seq!["balance"@, acct, pin];
    let b = "balance"@;
    assert(b.len() == 7);
    assert forall|j: int| 0 <= j < b.len() implies !crate::text::is_white_space(#[trigger] b[j]) by {}
    assert forall|i: int| 0 <= i < ws.len() implies is_word(#[trigger] ws[i]) by {
        if i == 0 {
            assert(ws[i] == b);
        }
    }
    let tail = "\n"@;
    assert(all_white_space(tail));
    assert(ws.drop_first() =~= seq![acct, pin]);
    assert(seq![acct, pin].drop_first() =~= seq![pin]);
    assert(join_words(seq![pin]) == pin);
    assert(join_words(seq![acct, pin]) == acct + seq![' '] + join_words(seq![pin]));
    assert(join_words(ws) == b + seq![' '] + join_words(ws.drop_first()));
    assert(join_words(ws) =~= b + seq![' '] + acct + seq![' '] + pin);
    assert(balance_request_text(acct, pin) =~= join_words(ws) + tail);
    lemma_words_of_joined(ws, tail);
}

} // verus!
