use vstd::prelude::*;
use chrono::Datelike;
use std::collections::HashMap;
use vstd::std_specs::iter::IteratorSpec;

verus! {

broadcast use vstd::std_specs::hash::group_hash_axioms;

/// A calendar date, as its day number counted from 1 January of year 1
/// (day 1) in the proleptic Gregorian calendar.
#[derive(Clone, Copy, PartialEq, Eq, Structural, Debug)]
pub struct EventDate {
    pub inner: i32,
}

/// One user's event: each user has at most one.
#[derive(Clone, Copy, PartialEq, Eq, Structural, Debug)]
pub struct Event {
    pub user_id: usize,
    pub date: EventDate,
}

/// Why a change to the store was refused.
#[derive(Clone, Copy, PartialEq, Eq, Structural, Debug)]
pub enum InMemoryStorageError {
    /// The user already had an event; it has been replaced.
    AlreadyExists,
    /// The user has no event to update.
    CannotGetEvent,
    /// The user has no event to delete.
    NothingToDelete,
}

/// Whether a day number lies well inside the calendar's range (about
/// 262,000 years either side of the common era).
pub open spec fn in_calendar(days: int) -> bool {
    -95_000_000 <= days <= 95_000_000
}

/// The Monday of a day's week: day 1 of the common era is a Monday.
pub open spec fn monday_of(days: int) -> int {
    days - (days - 1) % 7
}

/// The first day of a day's month and the first day of the month after
/// it, where the calendar reaches them.
pub uninterp spec fn month_span(days: i32) -> Option<(i32, i32)>;

/// Relies on chrono's `NaiveDate::week(Weekday::Mon)` with
/// `NaiveWeek::checked_first_day` and `checked_last_day`, dates converted to
/// and from day numbers: the week runs Monday to Sunday, and a day well
/// inside the calendar has one.
#[verifier::external_body]
fn week_bounds(days: i32) -> (r: Option<(i32, i32)>)
    ensures
        r matches Some((first, last)) ==> first == monday_of(days as int) && last == first + 6,
        in_calendar(days as int) ==> r is Some,
{
    let week = chrono::NaiveDate::from_num_days_from_ce_opt(days)?.week(chrono::Weekday::Mon);
    let first = week.checked_first_day()?.num_days_from_ce();
    let last = week.checked_last_day()?.num_days_from_ce();
    Some((first, last))
}

/// Relies on chrono's `Datelike::with_day0(0)` and
/// `NaiveDate::checked_add_months(Months::new(1))`, dates converted to and
/// from day numbers.
#[verifier::external_body]
fn month_bounds(days: i32) -> (r: Option<(i32, i32)>)
    ensures
        r == month_span(days),
{
    let start = chrono::NaiveDate::from_num_days_from_ce_opt(days)?.with_day0(0)?;
    let end = start.checked_add_months(chrono::Months::new(1))?;
    Some((start.num_days_from_ce(), end.num_days_from_ce()))
}

/// Whether `e` belongs to the user asked for, if one is.
pub open spec fn of_user(e: Event, user_id: Option<usize>) -> bool {
    match user_id {
        Some(u) => e.user_id == u,
        None => true,
    }
}

/// Whether `e` falls on `date`.
pub open spec fn on_day(e: Event, date: EventDate) -> bool {
    e.date == date
}

/// Whether `e` falls in the Monday-to-Sunday week of `date`, a day well
/// inside the calendar.
pub open spec fn in_week(e: Event, date: EventDate) -> bool {
    let first = monday_of(date.inner as int);
    in_calendar(date.inner as int) && first <= e.date.inner <= first + 6
}

/// Whether `e` falls in the month of `date`.
pub open spec fn in_month(e: Event, date: EventDate) -> bool {
    month_span(date.inner) matches Some((start, end)) && start <= e.date.inner < end
}

/// The events of `s` that `keep` holds of, in order.
pub open spec fn select(s: Seq<Event>, keep: spec_fn(Event) -> bool) -> Seq<Event>
    decreases s.len(),
{
    if s.len() == 0 {
        Seq::empty()
    } else {
        let rest = select(s.drop_last(), keep);
        if keep(s.last()) {
            rest.push(s.last())
        } else {
            rest
        }
    }
}

/// `None` for no events, else the events.
pub open spec fn found(s: Seq<Event>) -> Option<Seq<Event>> {
    if s.len() == 0 {
        None
    } else {
        Some(s)
    }
}

pub open spec fn found_vec(r: Option<Vec<Event>>) -> Option<Seq<Event>> {
    match r {
        Some(v) => Some(v@),
        None => None,
    }
}

/// Events kept in memory, at most one per user, keyed by user id.
pub struct InMemoryStorage {
    inner: HashMap<usize, Event>,
}

impl View for InMemoryStorage {
    type V = Map<usize, Event>;

    closed spec fn view(&self) -> Map<usize, Event> {
        self.inner@
    }
}

/// Whether `order` lists the events of `m`, each once, in some order.
pub open spec fn listing(m: Map<usize, Event>, order: Seq<Event>) -> bool {
    order.to_set() == m.values() && order.len() == m.dom().len()
}

impl InMemoryStorage {
    /// Each event is kept under its own user's id.
    pub open spec fn wf(&self) -> bool {
        forall|k: usize| #[trigger] self@.contains_key(k) ==> self@[k].user_id == k
    }

    /// An empty store.
    pub fn new() -> (r: InMemoryStorage)
        ensures
            r.wf(),
            r@ == Map::<usize, Event>::empty(),
    {
        InMemoryStorage { inner: HashMap::new() }
    }

    /// Stores `event` as its user's event. Where the user had one already,
    /// it is replaced and `AlreadyExists` is returned.
    pub fn create_event(&mut self, event: Event) -> (r: Result<Event, InMemoryStorageError>)
        requires
            old(self).wf(),
        ensures
            final(self).wf(),
            final(self)@ == old(self)@.insert(event.user_id, event),
            old(self)@.contains_key(event.user_id) ==> r == Err::<Event, InMemoryStorageError>(
                InMemoryStorageError::AlreadyExists,
            ),
            !old(self)@.contains_key(event.user_id) ==> r == Ok::<Event, InMemoryStorageError>(
                event,
            ),
    {
        let had = self.inner.insert(event.user_id, event);
        proof {
            assert forall|k: usize| #[trigger] self@.contains_key(k) implies self@[k].user_id == k by {
                if k != event.user_id {
                    assert(old(self)@.contains_key(k));
                }
            }
        }
        match had {
            Some(_) => Err(InMemoryStorageError::AlreadyExists),
            None => Ok(event),
        }
    }

    /// Moves the user's event to the date of `event`.
    pub fn update_event(&mut self, event: Event) -> (r: Result<Event, InMemoryStorageError>)
        requires
            old(self).wf(),
        ensures
            final(self).wf(),
            old(self)@.contains_key(event.user_id) ==> final(self)@ == old(self)@.insert(
                event.user_id,
                event,
            ) && r == Ok::<Event, InMemoryStorageError>(event),
            !old(self)@.contains_key(event.user_id) ==> final(self)@ == old(self)@ && r == Err::<
                Event,
                InMemoryStorageError,
            >(InMemoryStorageError::CannotGetEvent),
    {
        let found = match self.inner.get(&event.user_id) {
            Some(e) => Some(*e),
            None => None,
        };
        match found {
            Some(e) => {
                let updated = Event { user_id: e.user_id, date: event.date };
                self.inner.insert(event.user_id, updated);
                proof {
                    assert(old(self)@.contains_key(event.user_id));
                    assert(e == old(self)@[event.user_id]);
                    assert(e.user_id == event.user_id);
                    assert(updated == event);
                    assert forall|k: usize| #[trigger] self@.contains_key(k) implies self@[k].user_id
                        == k by {
                        if k != event.user_id {
                            assert(old(self)@.contains_key(k));
                        }
                    }
                }
                Ok(updated)
            },
            None => Err(InMemoryStorageError::CannotGetEvent),
        }
    }

    /// Removes the user's event.
    pub fn delete_event(&mut self, user_id: usize) -> (r: Result<(), InMemoryStorageError>)
        requires
            old(self).wf(),
        ensures
            final(self).wf(),
            final(self)@ == old(self)@.remove(user_id),
            old(self)@.contains_key(user_id) ==> r is Ok,
            !old(self)@.contains_key(user_id) ==> r == Err::<(), InMemoryStorageError>(
                InMemoryStorageError::NothingToDelete,
            ),
    {
        let had = self.inner.remove(&user_id);
        proof {
            assert forall|k: usize| #[trigger] self@.contains_key(k) implies self@[k].user_id == k by {
                assert(old(self)@.contains_key(k));
            }
        }
        match had {
            Some(_) => Ok(()),
            None => Err(InMemoryStorageError::NothingToDelete),
        }
    }

    /// The events from day `lo` to day `hi`, both included, of the user
    /// asked for, in the order the map lists them.
    fn events_between(&self, lo: i32, hi: i32, user_id: Option<usize>) -> (r: Vec<Event>)
        ensures
            exists|order: Seq<Event>|
                listing(self@, order) && r@ == select(
                    order,
                    |e: Event| lo <= e.date.inner <= hi && of_user(e, user_id),
                ),
    {
        let ghost keep = |e: Event| lo <= e.date.inner <= hi && of_user(e, user_id);
        let ghost order = vstd::std_specs::hash::spec_values_iter(&self.inner).remaining().unref();
        proof {
            vstd::std_specs::hash::axiom_spec_values_iter(&self.inner);
        }
        let mut r: Vec<Event> = Vec::new();
        for ev in it: self.inner.values()
            invariant
                it.seq().unref() == order,
                listing(self@, order),
                forall|e: Event| #[trigger] keep(e) == (lo <= e.date.inner <= hi && of_user(e, user_id)),
                r@ == select(order.take(it.index() as int), keep),
        {
            let e = *ev;
            proof {
                assert(order.take(it.index() + 1).drop_last() =~= order.take(it.index() as int));
                assert(order.take(it.index() + 1).last() == e);
            }
            let mine = match user_id {
                Some(u) => e.user_id == u,
                None => true,
            };
            if lo <= e.date.inner && e.date.inner <= hi && mine {
                r.push(e);
            }
        }
        proof {
            assert(order.take(order.len() as int) =~= order);
        }
        r
    }

    /// The events on `date`, of the user asked for if one is, in the order
    /// the map lists them; `None` where there are none.
    pub fn events_for_day(&self, date: EventDate, user_id: Option<usize>) -> (r: Option<Vec<Event>>)
        ensures
            exists|order: Seq<Event>|
                listing(self@, order) && found_vec(r) == found(
                    select(order, |e: Event| on_day(e, date) && of_user(e, user_id)),
                ),
    {
        let v = self.events_between(date.inner, date.inner, user_id);
        let ghost order = choose|o: Seq<Event>|
            listing(self@, o) && v@ == select(
                o,
                |e: Event| date.inner <= e.date.inner <= date.inner && of_user(e, user_id),
            );
        proof {
            lemma_select_same(
                order,
                |e: Event| date.inner <= e.date.inner <= date.inner && of_user(e, user_id),
                |e: Event| on_day(e, date) && of_user(e, user_id),
            );
        }
        let r = if v.len() == 0 {
            None
        } else {
            Some(v)
        };
        proof {
            assert(listing(self@, order));
        }
        r
    }

    /// The events in the Monday-to-Sunday week of `date`, of the user asked
    /// for if one is, in the order the map lists them; `None` where there are
    /// none.
    pub fn events_for_week(&self, date: EventDate, user_id: Option<usize>) -> (r: Option<Vec<Event>>)
        ensures
            exists|order: Seq<Event>|
                listing(self@, order) && found_vec(r) == found(
                    select(order, |e: Event| in_week(e, date) && of_user(e, user_id)),
                ),
    {
        let ghost want = |e: Event| in_week(e, date) && of_user(e, user_id);
        let (first, last) = if date.inner < -95_000_000 || date.inner > 95_000_000 {
            (1, 0)
        } else {
            match week_bounds(date.inner) {
                Some(b) => b,
                None => (1, 0),
            }
        };
        let v = self.events_between(first, last, user_id);
        let ghost order = choose|o: Seq<Event>|
            listing(self@, o) && v@ == select(
                o,
                |e: Event| first <= e.date.inner <= last && of_user(e, user_id),
            );
        proof {
            lemma_select_same(
                order,
                |e: Event| first <= e.date.inner <= last && of_user(e, user_id),
                want,
            );
        }
        let r = if v.len() == 0 {
            None
        } else {
            Some(v)
        };
        proof {
            assert(listing(self@, order));
        }
        r
    }

    /// The events in the calendar month of `date`, of the user asked for if
    /// one is, in the order the map lists them; `None` where there are none.
    pub fn events_for_month(&self, date: EventDate, user_id: Option<usize>) -> (r: Option<Vec<Event>>)
        ensures
            exists|order: Seq<Event>|
                listing(self@, order) && found_vec(r) == found(
                    select(order, |e: Event| in_month(e, date) && of_user(e, user_id)),
                ),
    {
        let ghost want = |e: Event| in_month(e, date) && of_user(e, user_id);
        let (first, last) = match month_bounds(date.inner) {
            Some((start, end)) => if start < end {
                (start, end - 1)
            } else {
                (1, 0)
            },
            None => (1, 0),
        };
        let v = self.events_between(first, last, user_id);
        let ghost order = choose|o: Seq<Event>|
            listing(self@, o) && v@ == select(
                o,
                |e: Event| first <= e.date.inner <= last && of_user(e, user_id),
            );
        proof {
            lemma_select_same(
                order,
                |e: Event| first <= e.date.inner <= last && of_user(e, user_id),
                want,
            );
        }
        let r = if v.len() == 0 {
            None
        } else {
            Some(v)
        };
        proof {
            assert(listing(self@, order));
        }
        r
    }
}

proof fn lemma_select_same(s: Seq<Event>, p: spec_fn(Event) -> bool, q: spec_fn(Event) -> bool)
    requires
        forall|e: Event| #[trigger] p(e) == q(e),
    ensures
        select(s, p) == select(s, q),
    decreases s.len(),
{
    if s.len() > 0 {
        lemma_select_same(s.drop_last(), p, q);
    }
}

} // verus!
