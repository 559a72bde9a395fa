use chrono::{Datelike, NaiveDate};
use toy_shell::{Event, EventDate, InMemoryStorage, InMemoryStorageError};

fn day(y: i32, m: u32, d: u32) -> EventDate {
    EventDate { inner: NaiveDate::from_ymd_opt(y, m, d).unwrap().num_days_from_ce() }
}

fn ev(user_id: usize, date: EventDate) -> Event {
    Event { user_id, date }
}

fn users(found: Option<Vec<Event>>) -> Vec<usize> {
    let mut ids: Vec<usize> = found.map(|v| v.iter().map(|e| e.user_id).collect()).unwrap_or_default();
    ids.sort();
    ids
}

#[test]
fn create_update_delete() {
    let mut s = InMemoryStorage::new();
    assert_eq!(s.create_event(ev(1, day(2024, 3, 15))), Ok(ev(1, day(2024, 3, 15))));
    assert_eq!(
        s.create_event(ev(1, day(2024, 3, 16))),
        Err(InMemoryStorageError::AlreadyExists)
    );
    assert_eq!(users(s.events_for_day(day(2024, 3, 16), None)), vec![1]);
    assert_eq!(s.update_event(ev(1, day(2024, 4, 1))), Ok(ev(1, day(2024, 4, 1))));
    assert_eq!(
        s.update_event(ev(2, day(2024, 4, 1))),
        Err(InMemoryStorageError::CannotGetEvent)
    );
    assert_eq!(s.delete_event(1), Ok(()));
    assert_eq!(s.delete_event(1), Err(InMemoryStorageError::NothingToDelete));
    assert!(s.events_for_day(day(2024, 4, 1), None).is_none());
}

#[test]
fn events_by_day_week_and_month() {
    let mut s = InMemoryStorage::new();
    // 2024-03-11 is a Monday, 2024-03-17 a Sunday
    let _ = s.create_event(ev(1, day(2024, 3, 11)));
    let _ = s.create_event(ev(2, day(2024, 3, 17)));
    let _ = s.create_event(ev(3, day(2024, 3, 18)));
    let _ = s.create_event(ev(4, day(2024, 2, 29)));
    let _ = s.create_event(ev(5, day(2024, 3, 31)));

    assert_eq!(users(s.events_for_day(day(2024, 3, 17), None)), vec![2]);
    assert_eq!(users(s.events_for_week(day(2024, 3, 13), None)), vec![1, 2]);
    assert_eq!(users(s.events_for_week(day(2024, 3, 18), None)), vec![3]);
    assert_eq!(users(s.events_for_month(day(2024, 3, 1), None)), vec![1, 2, 3, 5]);
    assert_eq!(users(s.events_for_month(day(2024, 2, 10), None)), vec![4]);
    assert_eq!(users(s.events_for_month(day(2024, 3, 20), Some(3))), vec![3]);
    assert!(s.events_for_month(day(2024, 3, 20), Some(4)).is_none());
    assert!(s.events_for_week(day(2023, 1, 4), None).is_none());
}
