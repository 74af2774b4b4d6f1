use my_boss::accounts::Accounts;
use my_boss::amount::Amount;
use my_boss::config::{Budget, Budgets};
use my_boss::income::{allocate, AllocationError};
use my_boss::transactions::{Date, Transaction, Transactions};

fn transaction() -> Transaction {
    Transaction {
        date: Date::from_calendar_date(2021, 7, 18).unwrap(),
        description: "A transaction".into(),
        amount: Amount::zero(),
        budgets: Accounts::new(),
    }
}

fn budgets(targets: &[(&str, i64)]) -> Budgets {
    Budgets {
        unallocated: "Unallocated".into(),
        targets: targets
            .iter()
            .map(|(name, monthly)| Budget {
                name: (*name).into(),
                monthly: *monthly,
            })
            .collect(),
    }
}

fn unallocated_only(amount: Amount) -> Transaction {
    Transaction {
        amount,
        budgets: Accounts::new().insert("Unallocated", amount),
        ..transaction()
    }
}

#[test]
fn allocate_should_allocate_budgets_according_to_priority() {
    let config = Budgets {
        unallocated: "Unallocated".into(),
        targets: vec![
            Budget {
                name: "A".into(),
                monthly: 100_00,
            },
            Budget {
                name: "B".into(),
                monthly: 50_00,
            },
        ],
    };

    let amount = Amount::from(100_00);
    let mut transactions = Transactions::from(vec![
        Transaction {
            amount,
            budgets: Accounts::new().insert(&config.unallocated, amount),
            ..transaction()
        },
        Transaction {
            amount,
            budgets: Accounts::new().insert(&config.unallocated, amount),
            ..transaction()
        },
    ]);

    allocate(&mut transactions, config).unwrap();

    assert_eq!(transactions.account_total("A"), Amount::from(150_00));
    assert_eq!(transactions.account_total("B"), Amount::from(50_00));
}

#[test]
fn allocate_should_take_existing_budgets_into_account() {
    let config = Budgets {
        unallocated: "Unallocated".into(),
        targets: vec![
            Budget {
                name: "A".into(),
                monthly: 100_00,
            },
            Budget {
                name: "B".into(),
                monthly: 50_00,
            },
        ],
    };

    let amount = Amount::from(100_00);
    let half = amount.scaled(1, 2).unwrap();
    let double = amount.scaled(2, 1).unwrap();
    let mut transactions = Transactions::from(vec![
        Transaction {
            amount,
            budgets: Accounts::new()
                .insert(&config.unallocated, half)
                .insert("A", half),
            ..transaction()
        },
        Transaction {
            amount: double,
            budgets: Accounts::new()
                .insert(&config.unallocated, amount)
                .insert("B", amount),
            ..transaction()
        },
    ]);

    allocate(&mut transactions, config).unwrap();

    assert_eq!(transactions.account_total("A"), Amount::from(200_00));
    assert_eq!(transactions.account_total("B"), Amount::from(100_00));
}

#[test]
fn allocate_should_fill_highest_priority_budget_to_next_month() {
    let config = Budgets {
        unallocated: "Unallocated".into(),
        targets: vec![
            Budget {
                name: "A".into(),
                monthly: 100_00,
            },
            Budget {
                name: "B".into(),
                monthly: 100_00,
            },
        ],
    };

    let amount = Amount::from(50_00);
    let mut transactions = Transactions::from(vec![
        Transaction {
            amount,
            budgets: Accounts::new().insert(&config.unallocated, amount),
            ..transaction()
        },
        Transaction {
            amount,
            budgets: Accounts::new().insert(&config.unallocated, amount),
            ..transaction()
        },
    ]);

    allocate(&mut transactions, config).unwrap();

    assert_eq!(transactions.account_total("A"), Amount::from(100_00));
    assert_eq!(transactions.account_total("B"), Amount::from(0_00));
}

#[test]
fn allocate_should_not_panic_if_no_targets_are_configured() {
    let config = Budgets {
        unallocated: "Unallocated".into(),
        targets: Vec::new(),
    };

    let amount = Amount::from(100_00);
    let mut transactions = Transactions::from(vec![
        Transaction {
            amount,
            budgets: Accounts::new().insert(&config.unallocated, amount),
            ..transaction()
        },
        Transaction {
            amount,
            budgets: Accounts::new().insert(&config.unallocated, amount),
            ..transaction()
        },
    ]);

    allocate(&mut transactions, config).unwrap();
}

#[test]
fn existing_half_month_is_completed_before_the_next_target() {
    let config = budgets(&[("A", 100_00), ("B", 100_00)]);
    let mut transactions = Transactions::from(vec![
        Transaction {
            amount: Amount::from(50_00),
            budgets: Accounts::new().insert("A", Amount::from(50_00)),
            ..transaction()
        },
        Transaction {
            amount: Amount::from(300_00),
            budgets: Accounts::new()
                .insert("Unallocated", Amount::from(200_00))
                .insert("B", Amount::from(100_00)),
            ..transaction()
        },
    ]);

    allocate(&mut transactions, config).unwrap();

    assert_eq!(transactions.account_total("A"), Amount::from(200_00));
    assert_eq!(transactions.account_total("B"), Amount::from(150_00));
    let second = transactions.get(1);
    assert_eq!(second.budgets.amount_for("A"), Some(Amount::from(150_00)));
    assert_eq!(second.budgets.amount_for("B"), Some(Amount::from(150_00)));
    assert_eq!(second.budgets.amount_for("Unallocated"), Some(Amount::zero()));
}

#[test]
fn equal_targets_are_filled_in_listed_order() {
    let config = budgets(&[("B", 30_00), ("A", 30_00)]);
    let mut transactions = Transactions::from(vec![unallocated_only(Amount::from(10_00))]);

    allocate(&mut transactions, config).unwrap();

    assert_eq!(transactions.account_total("B"), Amount::from(10_00));
    assert_eq!(transactions.account_total("A"), Amount::zero());
    assert_eq!(transactions.get(0).budgets.names(), vec!["Unallocated".to_string(), "B".to_string()]);
}

#[test]
fn breakdown_sums_are_kept() {
    let config = budgets(&[("A", 70_00), ("B", 20_00), ("C", 5_00)]);
    let mut transactions = Transactions::from(vec![
        unallocated_only(Amount::from(123_45)),
        Transaction {
            amount: Amount::from(-40_00),
            budgets: Accounts::new()
                .insert("Unallocated", Amount::from(10_00))
                .insert("C", Amount::from(-50_00)),
            ..transaction()
        },
        unallocated_only(Amount::from(99_99)),
    ]);

    allocate(&mut transactions, config).unwrap();

    for i in 0..transactions.len() {
        let t = transactions.get(i);
        assert_eq!(t.budgets.total(), t.amount);
    }
    assert_eq!(transactions.total(), Amount::from(183_44));
}

#[test]
fn positive_unallocated_is_drained_to_zero() {
    let config = budgets(&[("A", 1), ("B", 7_00)]);
    let mut transactions = Transactions::from(vec![
        unallocated_only(Amount::from(1_000_00)),
        unallocated_only(Amount::from(-5_00)),
        Transaction {
            amount: Amount::from(3_00),
            budgets: Accounts::new().insert("Other", Amount::from(3_00)),
            ..transaction()
        },
    ]);

    allocate(&mut transactions, config).unwrap();

    assert_eq!(transactions.get(0).budgets.amount_for("Unallocated"), Some(Amount::zero()));
    assert_eq!(transactions.get(1).budgets.amount_for("Unallocated"), Some(Amount::from(-5_00)));
    assert_eq!(transactions.get(1).budgets.len(), 1);
    assert_eq!(transactions.get(2).budgets.amount_for("Unallocated"), None);
    assert_eq!(transactions.get(2).budgets.len(), 1);
}

#[test]
fn second_run_moves_nothing() {
    let config = budgets(&[("A", 100_00), ("B", 50_00)]);
    let mut transactions = Transactions::from(vec![
        unallocated_only(Amount::from(100_00)),
        unallocated_only(Amount::from(75_50)),
    ]);

    allocate(&mut transactions, config.clone()).unwrap();
    let once: Vec<(Vec<String>, Option<Amount>, Option<Amount>)> = (0..transactions.len())
        .map(|i| {
            let b = &transactions.get(i).budgets;
            (b.names(), b.amount_for("A"), b.amount_for("B"))
        })
        .collect();

    allocate(&mut transactions, config).unwrap();
    let twice: Vec<(Vec<String>, Option<Amount>, Option<Amount>)> = (0..transactions.len())
        .map(|i| {
            let b = &transactions.get(i).budgets;
            (b.names(), b.amount_for("A"), b.amount_for("B"))
        })
        .collect();

    assert_eq!(once, twice);
}

#[test]
fn no_targets_leave_everything_unchanged() {
    let config = budgets(&[]);
    let mut transactions = Transactions::from(vec![unallocated_only(Amount::from(12_34))]);
    let before = format!("{:?}", transactions);

    allocate(&mut transactions, config).unwrap();

    assert_eq!(format!("{:?}", transactions), before);
}

#[test]
fn zero_rate_is_rejected_before_anything_moves() {
    let config = budgets(&[("A", 10_00), ("B", 0)]);
    let mut transactions = Transactions::from(vec![unallocated_only(Amount::from(12_34))]);
    let before = format!("{:?}", transactions);

    match allocate(&mut transactions, config) {
        Err(AllocationError::NonPositiveRate(name)) => assert_eq!(name, "B"),
        other => panic!("unexpected result: {:?}", other),
    }
    assert_eq!(format!("{:?}", transactions), before);
}

#[test]
fn negative_rate_is_rejected() {
    let config = budgets(&[("A", -1)]);
    let mut transactions = Transactions::from(vec![unallocated_only(Amount::from(1))]);
    assert!(matches!(
        allocate(&mut transactions, config),
        Err(AllocationError::NonPositiveRate(name)) if name == "A"
    ));
}

#[test]
fn unallocated_entry_as_target_is_rejected() {
    let config = budgets(&[("A", 10_00), ("Unallocated", 10_00)]);
    let mut transactions = Transactions::from(vec![unallocated_only(Amount::from(1))]);
    assert!(matches!(
        allocate(&mut transactions, config),
        Err(AllocationError::UnallocatedTarget(name)) if name == "Unallocated"
    ));
}

#[test]
fn duplicate_target_is_rejected() {
    let config = budgets(&[("A", 10_00), ("B", 10_00), ("A", 5_00)]);
    let mut transactions = Transactions::from(vec![unallocated_only(Amount::from(1))]);
    assert!(matches!(
        allocate(&mut transactions, config),
        Err(AllocationError::DuplicateTarget(name)) if name == "A"
    ));
}

#[test]
fn first_defect_in_list_order_is_reported() {
    let config = budgets(&[("A", 10_00), ("A", 0)]);
    let mut transactions = Transactions::from(vec![]);
    assert!(matches!(
        allocate(&mut transactions, config),
        Err(AllocationError::NonPositiveRate(name)) if name == "A"
    ));
}

#[test]
fn entry_leaving_the_amount_range_is_reported() {
    let config = budgets(&[("A", 10)]);
    let mut transactions = Transactions::from(vec![Transaction {
        amount: Amount::from(i64::MAX),
        budgets: Accounts::new()
            .insert("Unallocated", Amount::from(5))
            .insert("A", Amount::from(i64::MAX - 2))
            .insert("C", Amount::from(-3)),
        ..transaction()
    }]);
    assert!(matches!(
        allocate(&mut transactions, config),
        Err(AllocationError::Overflow)
    ));
}

#[test]
fn months_round_down_for_negative_totals() {
    // A is 1.50 in debt: rounded down that covers -2 months, so A is the
    // furthest behind until it catches up with B; the tie then goes to A.
    let config = budgets(&[("A", 1_00), ("B", 1_00)]);
    let mut transactions = Transactions::from(vec![
        Transaction {
            amount: Amount::from(-1_50),
            budgets: Accounts::new().insert("A", Amount::from(-1_50)),
            ..transaction()
        },
        unallocated_only(Amount::from(2_00)),
    ]);

    allocate(&mut transactions, config).unwrap();

    assert_eq!(transactions.account_total("A"), Amount::from(50));
    assert_eq!(transactions.account_total("B"), Amount::zero());
}
