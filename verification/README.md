# bank_server

A small banking service: a TCP server that keeps customer accounts in an
SQLite database, and an interactive client.

- `src/` is the verified library. `customer` holds the customer records and
  account lookup; `ledger` the withdrawals, deposits and transfers with their
  laws (what each does to the bank's total, what it leaves unchanged);
  `server` the answer to each request and the per-connection session;
  `client` the client's requests and operations; `money` amounts in whole
  hundredths and their decimal text; `text` splitting requests into words;
  `database` the stored row of a customer.
- `app/` is the program around it: sockets, threads, the SQLite calls and
  the terminal.
- `tests/` runs the library on concrete values.
