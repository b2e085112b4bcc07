//! The verified core of a small banking service: customer records and
//! account lookup, the ledger operations behind each request, the text
//! protocol spoken between client and server, and money amounts held as
//! whole hundredths of the currency unit.

pub mod client;
pub mod customer;
pub mod database;
pub mod ledger;
pub mod money;
pub mod server;
pub mod text;
