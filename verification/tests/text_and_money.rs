use bank_server::client::{parse_operation, Client, Operation};
use bank_server::customer::Customer;
use bank_server::database::customer_row;
use bank_server::money::{format_fixed2, format_plain, parse_amount};
use bank_server::server::convert_stream_to_parts;
use bank_server::text::{decode_lossy, split_whitespace, text_eq, trim, words_of_buffer};

#[test]
fn splits_on_unicode_white_space() {
    assert_eq!(split_whitespace("  deposit\t12  x\n"), vec!["deposit", "12", "x"]);
    assert_eq!(split_whitespace("a\u{3000}b\u{a0}c\u{85}d"), vec!["a", "b", "c", "d"]);
    assert!(split_whitespace("").is_empty());
    assert!(split_whitespace(" \t\r\n").is_empty());
    assert_eq!(split_whitespace("x\u{200b}y"), vec!["x\u{200b}y"]);
}

#[test]
fn split_agrees_with_std() {
    for s in ["", "a", " a  b ", "\u{2028}q\u{2029}", "tab\tsep\u{0b}v\u{0c}f", "ünï cödé"] {
        let ours = split_whitespace(s);
        let std: Vec<String> = s.split_whitespace().map(|w| w.to_string()).collect();
        assert_eq!(ours, std);
    }
}

#[test]
fn trims_like_std() {
    for s in ["", "  x ", "\u{3000}mid dle\n", "none"] {
        assert_eq!(trim(s), s.trim());
    }
}

#[test]
fn compares_text() {
    assert!(text_eq("abc", "abc"));
    assert!(!text_eq("abc", "abd"));
    assert!(!text_eq("abc", "ab"));
    assert!(text_eq("", ""));
}

#[test]
fn decodes_received_bytes() {
    assert_eq!(decode_lossy(b"hello"), "hello");
    assert_eq!(decode_lossy(&[0x61, 0xff, 0x62]), "a\u{fffd}b");
}

#[test]
fn message_parts() {
    assert_eq!(convert_stream_to_parts(b""), Err(()));
    assert_eq!(convert_stream_to_parts(b"balance 1 2\n"), Ok(vec!["balance".to_string(), "1".to_string(), "2".to_string()]));
    assert_eq!(convert_stream_to_parts(&[0xff, b' ', b'x']), Ok(vec!["\u{fffd}".to_string(), "x".to_string()]));
}

#[test]
fn buffer_words_drop_trailing_nul() {
    let mut buf = [0u8; 32];
    buf[..13].copy_from_slice(b"balance 12 34");
    assert_eq!(words_of_buffer(&buf), vec!["balance", "12", "34"]);
    assert_eq!(words_of_buffer(b"a\0b\0\0"), vec!["a\0b"]);
}

#[test]
fn parses_amounts() {
    assert_eq!(parse_amount("12.5"), Some(1250));
    assert_eq!(parse_amount("12.50"), Some(1250));
    assert_eq!(parse_amount("12"), Some(1200));
    assert_eq!(parse_amount("-3"), Some(-300));
    assert_eq!(parse_amount("+.5"), Some(50));
    assert_eq!(parse_amount("5."), Some(500));
    assert_eq!(parse_amount("0.005"), Some(1));
    assert_eq!(parse_amount("0.0049"), Some(0));
    assert_eq!(parse_amount("-0.125"), Some(-13));
    assert_eq!(parse_amount("92233720368547758.07"), Some(i64::MAX));
    assert_eq!(parse_amount("-92233720368547758.07"), Some(-i64::MAX));
}

#[test]
fn refuses_what_is_not_an_amount() {
    for s in [
        "", "-", ".", "+.", "abc", "1.2.3", "1,5", " 1", "92233720368547758.08", "99999999999999999999999",
        "1e", "1e+", "e5", ".e5", "1e5.0", "1e2e3", "inf", "NaN", "infinity", "1e400", "1e17",
    ] {
        assert_eq!(parse_amount(s), None, "{:?}", s);
    }
}

#[test]
fn parses_exponent_amounts() {
    assert_eq!(parse_amount("1e3"), Some(100_000));
    assert_eq!(parse_amount("2.5E1"), Some(2_500));
    assert_eq!(parse_amount("1.5e+2"), Some(15_000));
    assert_eq!(parse_amount("1.e2"), Some(10_000));
    assert_eq!(parse_amount("1e-2"), Some(1));
    assert_eq!(parse_amount("1e-3"), Some(0));
    assert_eq!(parse_amount("5e-3"), Some(1));
    assert_eq!(parse_amount("-5e-3"), Some(-1));
    assert_eq!(parse_amount("1e-400"), Some(0));
    assert_eq!(parse_amount("0e999999999999999999999999999999999"), Some(0));
    assert_eq!(parse_amount("1e-999999999999999999999999999999999"), Some(0));
    assert_eq!(parse_amount("1e16"), Some(1_000_000_000_000_000_000));
    assert_eq!(parse_amount("123456e-4"), Some(1_235));
}

#[test]
fn writes_two_decimals() {
    assert_eq!(format_fixed2(1250), "12.50");
    assert_eq!(format_fixed2(-5), "-0.05");
    assert_eq!(format_fixed2(0), "0.00");
    assert_eq!(format_fixed2(100_007), "1000.07");
    assert_eq!(format_fixed2(i64::MIN), "-92233720368547758.08");
}

#[test]
fn writes_shortest_form() {
    assert_eq!(format_plain(1250), "12.5");
    assert_eq!(format_plain(1205), "12.05");
    assert_eq!(format_plain(1200), "12");
    assert_eq!(format_plain(-50), "-0.5");
    assert_eq!(format_plain(0), "0");
}

#[test]
fn written_amounts_read_back() {
    for c in [0i64, 1, -1, 10, 99, 100, 1250, -98765, i64::MAX, -i64::MAX] {
        assert_eq!(parse_amount(&format_fixed2(c)), Some(c));
        assert_eq!(parse_amount(&format_plain(c)), Some(c));
    }
}

#[test]
fn stored_row_of_customer() {
    let c = Customer {
        name: "Jan".into(),
        surname: "Kowalski".into(),
        pesel: "44051401359".into(),
        account_number: "0123456789".into(),
        pin: "1111".into(),
        balance: 123_450,
    };
    assert_eq!(customer_row(&c), vec!["Jan", "Kowalski", "44051401359", "0123456789", "1111", "1234.5"]);
}

#[test]
fn client_requests() {
    let c = Client::new("0123456789".to_string(), "4321".to_string());
    assert!(c.is_valid_account_number());
    assert_eq!(c.balance_request(), "balance 0123456789 4321\n");
    assert_eq!(split_whitespace(&c.balance_request()), vec!["balance", "0123456789", "4321"]);
    assert!(!Client::new("12345".to_string(), "1".to_string()).is_valid_account_number());
    assert!(Client::new("ąąąąą".to_string(), "1".to_string()).is_valid_account_number());
}

#[test]
fn user_operations() {
    assert_eq!(parse_operation("balance"), Operation::Balance);
    assert_eq!(parse_operation("exit"), Operation::Exit);
    assert_eq!(parse_operation("Balance"), Operation::Unknown);
    assert_eq!(parse_operation(""), Operation::Unknown);
}
