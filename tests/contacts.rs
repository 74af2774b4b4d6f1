use my_boss::contacts::{Communication, PlannedCommunication};
use my_boss::transactions::Date;

fn day(year: i32, month: u8, day: u8) -> Date {
    Date::from_calendar_date(year, month, day).unwrap()
}

fn planned(date: Date) -> PlannedCommunication {
    PlannedCommunication {
        date,
        notes: Vec::new(),
    }
}

#[test]
fn next_planned_is_the_earliest_date() {
    let communication = Communication {
        latest: None,
        planned: vec![
            planned(day(2021, 9, 1)),
            planned(day(2021, 8, 15)),
            planned(day(2022, 1, 1)),
        ],
    };
    assert_eq!(communication.next_planned(), Some(day(2021, 8, 15)));
    assert!(communication.is_due(&day(2021, 8, 15)));
    assert!(!communication.is_due(&day(2021, 8, 14)));

    let nothing = Communication {
        latest: None,
        planned: Vec::new(),
    };
    assert_eq!(nothing.next_planned(), None);
    assert!(!nothing.is_due(&day(2030, 1, 1)));
}
