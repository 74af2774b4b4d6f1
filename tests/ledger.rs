use my_boss::accounts::Accounts;
use my_boss::amount::Amount;
use my_boss::transactions::{Date, Transaction, Transactions};

#[test]
fn amount_from_units_and_cents() {
    assert_eq!(Amount::from_int_and_frac(12, 34), Amount::from(1234));
    assert_eq!(Amount::from_int_and_frac(-12, -34).cents(), -1234);
    assert_eq!(Amount::zero().cents(), 0);
}

#[test]
fn amount_sign() {
    assert!(Amount::from(-1).is_negative());
    assert!(!Amount::zero().is_negative());
    assert!(!Amount::from(1).is_negative());
}

#[test]
fn amount_arithmetic_is_exact_and_checked() {
    assert_eq!(Amount::from(150).checked_add(Amount::from(-200)), Some(Amount::from(-50)));
    assert_eq!(Amount::from(i64::MAX).checked_add(Amount::from(1)), None);
    assert_eq!(Amount::from(5).checked_sub(Amount::from(7)), Some(Amount::from(-2)));
    assert_eq!(Amount::from(i64::MIN).checked_sub(Amount::from(1)), None);
    assert_eq!(Amount::from(5).checked_neg(), Some(Amount::from(-5)));
    assert_eq!(Amount::from(i64::MIN).checked_neg(), None);
    assert_eq!(Amount::from(5).min(Amount::from(-5)), Amount::from(-5));
}

#[test]
fn scaling_rounds_half_away_from_zero() {
    assert_eq!(Amount::from(5).scaled(1, 2), Some(Amount::from(3)));
    assert_eq!(Amount::from(-5).scaled(1, 2), Some(Amount::from(-3)));
    assert_eq!(Amount::from(5).scaled(1, -2), Some(Amount::from(-3)));
    assert_eq!(Amount::from(7).scaled(1, 3), Some(Amount::from(2)));
    assert_eq!(Amount::from(8).scaled(1, 3), Some(Amount::from(3)));
    assert_eq!(Amount::from(100_00).scaled(3, 2), Some(Amount::from(150_00)));
    assert_eq!(Amount::from(i64::MAX).scaled(2, 1), None);
    assert_eq!(Amount::from(i64::MIN).scaled(1, 1), Some(Amount::from(i64::MIN)));
    assert_eq!(Amount::from(i64::MIN).scaled(-1, 1), None);
}

#[test]
fn insert_overwrites_in_place() {
    let accounts = Accounts::new()
        .insert("a", Amount::from(1))
        .insert("b", Amount::from(2))
        .insert("a", Amount::from(3));
    assert_eq!(accounts.names(), vec!["a".to_string(), "b".to_string()]);
    assert_eq!(accounts.amount_for("a"), Some(Amount::from(3)));
    assert_eq!(accounts.amount_for("c"), None);
    assert_eq!(accounts.len(), 2);
}

#[test]
fn transfer_creates_destination_and_keeps_sum() {
    let mut accounts = Accounts::new()
        .insert("from", Amount::from(10_00))
        .insert("x", Amount::from(1));
    accounts.transfer(Amount::from(4_00), "from", "to");
    assert_eq!(accounts.amount_for("from"), Some(Amount::from(6_00)));
    assert_eq!(accounts.amount_for("to"), Some(Amount::from(4_00)));
    assert_eq!(accounts.names(), vec!["from".to_string(), "x".to_string(), "to".to_string()]);
    assert_eq!(accounts.total(), Amount::from(10_01));

    accounts.transfer(Amount::from(1_00), "from", "x");
    assert_eq!(accounts.amount_for("x"), Some(Amount::from(1_01)));
    assert_eq!(accounts.total(), Amount::from(10_01));
}

#[test]
fn calendar_dates_are_checked() {
    assert!(Date::from_calendar_date(2024, 2, 29).is_some());
    assert!(Date::from_calendar_date(2023, 2, 29).is_none());
    assert!(Date::from_calendar_date(1900, 2, 29).is_none());
    assert!(Date::from_calendar_date(2000, 2, 29).is_some());
    assert!(Date::from_calendar_date(2021, 4, 31).is_none());
    assert!(Date::from_calendar_date(2021, 13, 1).is_none());
    assert!(Date::from_calendar_date(2021, 1, 0).is_none());
    let a = Date::from_calendar_date(2021, 7, 18).unwrap();
    let b = Date::from_calendar_date(2021, 12, 1).unwrap();
    assert!(a.is_before_or_at(&b));
    assert!(!b.is_before_or_at(&a));
    assert!(a.is_before_or_at(&a));
}

fn dated(year: i32, month: u8, day: u8, cents: i64, budget: &str) -> Transaction {
    Transaction {
        date: Date::from_calendar_date(year, month, day).unwrap(),
        description: String::new(),
        amount: Amount::from(cents),
        budgets: Accounts::new().insert(budget, Amount::from(cents)),
    }
}

#[test]
fn totals_over_transactions() {
    let transactions = Transactions::new(vec![
        dated(2021, 1, 1, 10_00, "A"),
        dated(2021, 1, 2, -3_00, "B"),
        dated(2021, 1, 3, 2_50, "A"),
    ]);
    assert_eq!(transactions.total(), Amount::from(9_50));
    assert_eq!(transactions.account_total("A"), Amount::from(12_50));
    assert_eq!(transactions.account_total("B"), Amount::from(-3_00));
    assert_eq!(transactions.account_total("C"), Amount::zero());
    assert_eq!(transactions.len(), 3);
    assert_eq!(transactions.into_vec().len(), 3);
}
