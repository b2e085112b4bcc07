use bank_server::customer::{find_account, Customer};
use bank_server::ledger::{deposit, transfer, withdraw, Outcome};
use bank_server::server::{
    command_is_defined, handle_account_request, handle_balance, handle_deposit, handle_transfer,
    handle_withdraw, request_is_defined, request_parts, respond, validate_customer, Phase, Session,
};

fn customer(name: &str, account: &str, pin: &str, balance: i64) -> Customer {
    Customer {
        name: name.to_string(),
        surname: format!("{}son", name),
        pesel: "90010112345".to_string(),
        account_number: account.to_string(),
        pin: pin.to_string(),
        balance,
    }
}

fn bank() -> Vec<Customer> {
    vec![
        customer("Anna", "1111111111", "1234", 10_000),
        customer("Bart", "2222222222", "0000", 550),
        customer("Cleo", "3333333333", "9999", 0),
    ]
}

fn words(s: &str) -> Vec<String> {
    s.split_whitespace().map(|w| w.to_string()).collect()
}

fn total(c: &[Customer]) -> i64 {
    c.iter().map(|x| x.balance).sum()
}

#[test]
fn find_account_gives_first_holder() {
    let mut c = bank();
    c.push(customer("Dup", "2222222222", "1", 1));
    assert_eq!(find_account("2222222222", &c), Some(1));
    assert_eq!(find_account("3333333333", &c), Some(2));
    assert_eq!(find_account("4444444444", &c), None);
    assert_eq!(find_account("", &c), None);
}

#[test]
fn validate_customer_checks_pin_of_first_holder() {
    let c = bank();
    assert_eq!(validate_customer("1111111111", "1234", &c), Some(0));
    assert_eq!(validate_customer("1111111111", "4321", &c), None);
    assert_eq!(validate_customer("9999999999", "1234", &c), None);
}

#[test]
fn withdraw_outcomes() {
    let mut c = bank();
    assert_eq!(withdraw(&mut c, 0, "1234", 2_500), Outcome::Done { balance: 7_500 });
    assert_eq!(c[0].balance, 7_500);
    assert_eq!(withdraw(&mut c, 0, "1111", 100), Outcome::InvalidPin);
    assert_eq!(withdraw(&mut c, 0, "1234", 7_501), Outcome::InsufficientFunds);
    assert_eq!(c[0].balance, 7_500);
    assert_eq!(withdraw(&mut c, 0, "1234", 7_500), Outcome::Done { balance: 0 });
}

#[test]
fn withdraw_changes_total_by_amount() {
    let mut c = bank();
    let before = total(&c);
    withdraw(&mut c, 1, "0000", 50);
    assert_eq!(total(&c), before - 50);
}

#[test]
fn deposit_adds_amount() {
    let mut c = bank();
    let before = total(&c);
    assert_eq!(deposit(&mut c, 2, 1_999), 1_999);
    assert_eq!(c[2].balance, 1_999);
    assert_eq!(total(&c), before + 1_999);
}

#[test]
fn transfer_moves_money_and_keeps_total() {
    let mut c = bank();
    let before = total(&c);
    assert_eq!(transfer(&mut c, 0, "3333333333", 4_000, "1234"), Outcome::Done { balance: 6_000 });
    assert_eq!(c[0].balance, 6_000);
    assert_eq!(c[2].balance, 4_000);
    assert_eq!(total(&c), before);
}

#[test]
fn transfer_refusals_change_nothing() {
    let mut c = bank();
    assert_eq!(transfer(&mut c, 1, "1111111111", 10, "9"), Outcome::InvalidPin);
    assert_eq!(transfer(&mut c, 1, "1111111111", 551, "0000"), Outcome::InsufficientFunds);
    assert_eq!(transfer(&mut c, 1, "5555555555", 10, "0000"), Outcome::UnknownDestination);
    assert_eq!(c[0].balance, 10_000);
    assert_eq!(c[1].balance, 550);
}

#[test]
fn transfer_to_self_changes_nothing() {
    let mut c = bank();
    assert_eq!(transfer(&mut c, 1, "2222222222", 500, "0000"), Outcome::Done { balance: 550 });
    assert_eq!(c[1].balance, 550);
}

#[test]
fn operations_keep_accounts() {
    let mut c = bank();
    withdraw(&mut c, 0, "1234", 1);
    deposit(&mut c, 1, 1);
    transfer(&mut c, 2, "1111111111", 0, "9999");
    let fresh = bank();
    for (a, b) in c.iter().zip(fresh.iter()) {
        assert_eq!(a.account_number, b.account_number);
        assert_eq!(a.pin, b.pin);
        assert_eq!(a.name, b.name);
    }
    assert_eq!(find_account("3333333333", &c), Some(2));
}

#[test]
fn balance_reply_has_two_decimals() {
    let c = bank();
    assert_eq!(handle_balance(&c, 0), "Balance: 100.00");
    assert_eq!(handle_balance(&c, 1), "Balance: 5.50");
    assert_eq!(handle_balance(&c, 2), "Balance: 0.00");
}

#[test]
fn withdraw_replies() {
    let mut c = bank();
    assert_eq!(handle_withdraw(&words("withdraw x 1234 12.5"), &mut c, 0), "Success! New balance: 87.50");
    assert_eq!(handle_withdraw(&words("withdraw x 12 1"), &mut c, 0), "Invalid PIN.");
    assert_eq!(handle_withdraw(&words("withdraw x 1234 1000"), &mut c, 0), "Insufficient funds.");
    assert_eq!(c[0].balance, 8_750);
}

#[test]
fn deposit_reply() {
    let mut c = bank();
    assert_eq!(handle_deposit(&words("deposit x 0.99"), &mut c, 2), "Success");
    assert_eq!(c[2].balance, 99);
}

#[test]
fn transfer_replies() {
    let mut c = bank();
    assert_eq!(
        handle_transfer(&words("transfer x 2222222222 0 1234"), &mut c, 0),
        "Incorrect ammount cannot be negative"
    );
    assert_eq!(
        handle_transfer(&words("transfer x 2222222222 -5 1234"), &mut c, 0),
        "Incorrect ammount cannot be negative"
    );
    assert_eq!(handle_transfer(&words("transfer x 2222222222 10 1"), &mut c, 0), "Invalid PIN.");
    assert_eq!(
        handle_transfer(&words("transfer x 7777777777 10 1234"), &mut c, 0),
        "Unknown destination account number"
    );
    assert_eq!(handle_transfer(&words("transfer x 2222222222 200 1234"), &mut c, 0), "Insufficient funds.");
    assert_eq!(
        handle_transfer(&words("transfer x 2222222222 25.5 1234"), &mut c, 0),
        "Success! New balance: 74.5"
    );
    assert_eq!(c[1].balance, 3_100);
}

#[test]
fn transfer_refuses_non_positive_amount_before_looking_at_account() {
    let mut c = bank();
    assert_eq!(
        handle_transfer(&words("transfer x 2222222222 0 1234"), &mut c, 99),
        "Incorrect ammount cannot be negative"
    );
    assert_eq!(c[0].balance, 10_000);
}

#[test]
fn exponent_amounts_in_a_session() {
    let mut c = bank();
    let mut s = Session::new();
    s.on_message(&mut c, Ok(words("login 1111111111 1234")));
    let msg = Ok(words("withdraw 1111111111 1234 1e1"));
    assert!(s.accepts(&c, &msg));
    let a = s.on_message(&mut c, msg);
    assert_eq!(a.reply.as_deref(), Some("Success! New balance: 90.00"));
    let msg = Ok(words("transfer 1111111111 2222222222 2.5E1 1234"));
    assert!(s.accepts(&c, &msg));
    let a = s.on_message(&mut c, msg);
    assert_eq!(a.reply.as_deref(), Some("Success! New balance: 65"));
    assert_eq!(c[1].balance, 3_050);
}

#[test]
fn respond_dispatches_on_trimmed_command() {
    let mut c = bank();
    assert_eq!(respond(&words("balance"), &mut c, 1), "Balance: 5.50");
    let padded = vec![" balance\t".to_string()];
    assert_eq!(respond(&padded, &mut c, 1), "Balance: 5.50");
    assert_eq!(respond(&words("steal everything"), &mut c, 1), "Invalid operation.");
    assert_eq!(respond(&words("deposit 1 1"), &mut c, 1), "Success");
    assert_eq!(c[1].balance, 650);
}

#[test]
fn command_definedness() {
    let c = bank();
    assert!(command_is_defined(&words("balance"), &c, 0, true));
    assert!(!command_is_defined(&words(""), &c, 0, true));
    assert!(!command_is_defined(&words("withdraw x 1234"), &c, 0, true));
    assert!(!command_is_defined(&words("withdraw x 1234 ten"), &c, 0, true));
    assert!(command_is_defined(&words("withdraw x 1234 10"), &c, 0, true));
    assert!(!command_is_defined(&words("deposit x"), &c, 0, true));
    assert!(!command_is_defined(&words("transfer 2222222222 1 1234"), &c, 0, true));
    assert!(command_is_defined(&words("transfer 2222222222 1 1234 extra"), &c, 0, true));
    assert!(command_is_defined(&words("unknown"), &c, 0, true));
}

#[test]
fn deposit_that_overflows_is_not_defined() {
    let mut c = bank();
    c[0].balance = i64::MAX - 10;
    assert!(!command_is_defined(&words("deposit x 1"), &c, 0, true));
    assert!(command_is_defined(&words("deposit x 0.10"), &c, 0, true));
}

#[test]
fn single_request_names_its_account() {
    let mut c = bank();
    let a = handle_account_request(&words("balance 2222222222"), &mut c);
    assert_eq!(a.reply.as_deref(), Some("Balance: 5.50"));
    assert!(a.persist);
    let a = handle_account_request(&words("balance 9999999999"), &mut c);
    assert_eq!(a.reply.as_deref(), Some("Unknown account number"));
    assert!(!a.persist);
    let a = handle_account_request(&words("withdraw 1111111111 1234 0.5"), &mut c);
    assert_eq!(a.reply.as_deref(), Some("Success! New balance: 99.5"));
    let a = handle_account_request(&words("transfer 2222222222 1111111111 -1 0000"), &mut c);
    assert_eq!(a.reply.as_deref(), Some("Success! New balance: 6.5"));
    assert_eq!(c[0].balance, 9_850);
    assert!(!request_is_defined(&words("balance"), &c));
    assert!(request_is_defined(&words("balance 1111111111"), &c));
}

#[test]
fn session_login_and_commands() {
    let mut c = bank();
    let mut s = Session::new();
    let login = Ok(words("balance 1111111111 1234"));
    assert!(s.accepts(&c, &login));
    let a = s.on_message(&mut c, login);
    assert_eq!(a.reply.as_deref(), Some("logged in!"));
    assert!(!a.close && !a.persist);
    assert_eq!(s.phase, Phase::LoggedIn { index: 0 });

    let a = s.on_message(&mut c, Ok(words("withdraw 1111111111 1234 1")));
    assert_eq!(a.reply.as_deref(), Some("Success! New balance: 99.00"));
    assert!(a.persist && !a.close);

    let a = s.on_message(&mut c, Err(()));
    assert!(a.reply.is_none() && !a.persist && !a.close);
    assert_eq!(s.phase, Phase::LoggedIn { index: 0 });

    let a = s.on_message(&mut c, Ok(words("balance")));
    assert_eq!(a.reply.as_deref(), Some("Balance: 99.00"));
}

#[test]
fn session_refuses_bad_login() {
    let mut c = bank();
    let mut s = Session::new();
    let a = s.on_message(&mut c, Ok(words("login 1111111111 0000")));
    assert_eq!(a.reply.as_deref(), Some("not valid"));
    assert!(a.close);
    assert_eq!(s.phase, Phase::Closed);
    let a = s.on_message(&mut c, Ok(words("balance")));
    assert!(a.reply.is_none() && a.close);

    let mut s = Session::new();
    let a = s.on_message(&mut c, Err(()));
    assert_eq!(a.reply.as_deref(), Some("inbalid request"));
    assert!(a.close);
    assert_eq!(s.phase, Phase::Closed);
}

#[test]
fn session_needs_three_login_words() {
    let c = bank();
    let s = Session::new();
    assert!(!s.accepts(&c, &Ok(words("login 1111111111"))));
    assert!(s.accepts(&c, &Err(())));
}

#[test]
fn request_parts_of_buffer() {
    let mut buf = [0u8; 16];
    buf[..9].copy_from_slice(b"balance 7");
    assert_eq!(request_parts(&buf, 0), None);
    assert_eq!(request_parts(&buf, 9), Some(vec!["balance".to_string(), "7".to_string()]));
}
