use my_boss::amount::Amount;
use my_boss::import::{
    amount_from_parts, parse_amount, parse_decimal, statement_body, ImportError, StatementError,
};

#[test]
fn decimal_digits() {
    assert_eq!(parse_decimal("0"), Some(0));
    assert_eq!(parse_decimal("007"), Some(7));
    assert_eq!(parse_decimal("9223372036854775807"), Some(i64::MAX));
    assert_eq!(parse_decimal("9223372036854775808"), None);
    assert_eq!(parse_decimal(""), None);
    assert_eq!(parse_decimal("1a"), None);
    assert_eq!(parse_decimal("-1"), None);
}

#[test]
fn parts_make_signed_amounts() {
    assert_eq!(amount_from_parts("12", "34", "H").unwrap(), Amount::from(12_34));
    assert_eq!(amount_from_parts("12", "34", "S").unwrap(), Amount::from(-12_34));
    assert!(matches!(
        amount_from_parts("12", "34", "X"),
        Err(ImportError::InvalidCreditDebit(m)) if m == "X"
    ));
    assert!(matches!(
        amount_from_parts("92233720368547758", "08", "H"),
        Err(ImportError::AmountOutOfRange)
    ));
    assert_eq!(
        amount_from_parts("92233720368547758", "07", "H").unwrap(),
        Amount::from(i64::MAX)
    );
}

#[test]
fn amount_is_found_inside_the_field() {
    assert_eq!(parse_amount("EUR 7,05 x", "H").unwrap(), Amount::from(7_05));
    assert_eq!(parse_amount("1.234,56", "S").unwrap(), Amount::from(-234_56));
    assert!(matches!(parse_amount("12.34", "H"), Err(ImportError::MissingAmount)));
    assert!(matches!(parse_amount("", "H"), Err(ImportError::MissingAmount)));
}


#[test]
fn statement_body_skips_metadata_and_trailer() {
    let input = b"meta\n\"Buchungstag\";a;b\nrow1\nrow2\nfoot1\nfoot2\n";
    let body = statement_body(input, b"\n\"Buchungstag\"").unwrap();
    assert_eq!(body, b";a;b\nrow1\nrow2".to_vec());
}

#[test]
fn statement_body_reports_what_is_missing() {
    assert_eq!(
        statement_body(b"no header here\n", b"\n\"Buchungstag\""),
        Err(StatementError::MissingHeader)
    );
    assert_eq!(
        statement_body(b"x\n\"Buchungstag\"", b"\n\"Buchungstag\""),
        Err(StatementError::MissingTrailer(1))
    );
    assert_eq!(
        statement_body(b"x\n\"Buchungstag\"\n", b"\n\"Buchungstag\""),
        Err(StatementError::MissingTrailer(2))
    );
    assert_eq!(
        statement_body(b"x\n\"Buchungstag\"\n\n", b"\n\"Buchungstag\""),
        Err(StatementError::MissingTrailer(3))
    );
    assert_eq!(
        statement_body(b"\n\"Buchungstag\"\n\n\n", b"\n\"Buchungstag\""),
        Ok(Vec::new())
    );
}
