//! The row that stores a customer in the database.

use vstd::prelude::*;
use crate::customer::Customer;
use crate::money::{format_plain, plain_text};

verus! {

/// The values stored for customer `c`: name, surname, PESEL, account
/// number, PIN and balance, the balance written in shortest decimal form.
pub open spec fn row_of(c: Customer) -> Seq<Seq<char>> {
    seq![c.name@, c.surname@, c.pesel@, c.account_number@, c.pin@, plain_text(c.balance as int)]
}

/// The parameters of the statement that stores customer `c`.
pub fn customer_row(c: &Customer) -> (r: Vec<String>)
    ensures
        r.deep_view() == row_of(*c),
{
    let mut r: Vec<String> = Vec::new();
    r.push(c.name.clone());
    r.push(c.surname.clone());
    r.push(c.pesel.clone());
    r.push(c.account_number.clone());
    r.push(c.pin.clone());
    r.push(format_plain(c.balance));
    assert(r.deep_view() =~= row_of(*c));
    r
}

} // verus!
