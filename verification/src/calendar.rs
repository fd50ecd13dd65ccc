//! Dates of booked events, and the list of those still to come.
//!
//! The weekday in a label is computed from the date rather than written down: a
//! hand-typed "Friday" that disagrees with the date is the one error nobody
//! proofreads for.

use vstd::prelude::*;
use crate::content::{Event, Site};
use crate::text::{decimal, decimal_chars, push_chars};

verus! {

/// A calendar date as the `time` crate reads one: year, month (1–12), day of the
/// month, and the weekday counted from Monday (0–6).
pub struct Day {
    pub year: i32,
    pub month: u8,
    pub day: u8,
    pub weekday: u8,
}

impl Day {
    pub open spec fn valid(self) -> bool {
        1 <= self.month <= 12 && 1 <= self.day <= 31 && self.weekday < 7
    }
}

/// `a` is an earlier calendar date than `b`.
pub open spec fn before(a: Day, b: Day) -> bool {
    a.year < b.year || (a.year == b.year && (a.month < b.month || (a.month == b.month && a.day
        < b.day)))
}

/// `a` and `b` are the same calendar date.
pub open spec fn same_date(a: Day, b: Day) -> bool {
    a.year == b.year && a.month == b.month && a.day == b.day
}

/// Whether `a` is an earlier calendar date than `b`.
pub fn is_before(a: &Day, b: &Day) -> (r: bool)
    ensures
        r == before(*a, *b),
{
    a.year < b.year || (a.year == b.year && (a.month < b.month || (a.month == b.month && a.day
        < b.day)))
}

/// What `time::Date::parse` reads from a string with the format description
/// `[year]-[month]-[day]`: year, month number, day and weekday from Monday.
pub uninterp spec fn parsed_date(s: Seq<char>) -> Option<(i32, u8, u8, u8)>;

pub open spec fn day_of(t: (i32, u8, u8, u8)) -> Day {
    Day { year: t.0, month: t.1, day: t.2, weekday: t.3 }
}

/// `time::Date::parse` with the version-1 description `[year]-[month]-[day]`
/// (what `format_description!` builds), read back as year, `u8::from(month)`,
/// day and `weekday().number_days_from_monday()`.
///
/// The contract claims that the result is the named parse of the input, and
/// that a parsed date has a month in 1–12, a day in 1–31 and a weekday in 0–6,
/// as `time::Date` guarantees. Which strings parse is not stated.
#[verifier::external_body]
fn parse_date(s: &str) -> (r: Option<Day>)
    ensures
        match parsed_date(s@) {
            Some(t) => r == Some(day_of(t)),
            None => r is None,
        },
        r matches Some(d) ==> d.valid(),
{
    let format = time::format_description::parse_borrowed::<1>("[year]-[month]-[day]").ok()?;
    let date = time::Date::parse(s, &format).ok()?;
    Some(
        Day {
            year: date.year(),
            month: u8::from(date.month()),
            day: date.day(),
            weekday: date.weekday().number_days_from_monday(),
        },
    )
}

pub open spec fn spec_short_weekday(n: u8) -> Seq<char> {
    if n == 0 {
        "Mon"@
    } else if n == 1 {
        "Tue"@
    } else if n == 2 {
        "Wed"@
    } else if n == 3 {
        "Thu"@
    } else if n == 4 {
        "Fri"@
    } else if n == 5 {
        "Sat"@
    } else {
        "Sun"@
    }
}

/// The three-letter name of a weekday counted from Monday.
pub fn short_weekday(n: u8) -> (r: &'static str)
    requires
        n < 7,
    ensures
        r@ == spec_short_weekday(n),
{
    if n == 0 {
        "Mon"
    } else if n == 1 {
        "Tue"
    } else if n == 2 {
        "Wed"
    } else if n == 3 {
        "Thu"
    } else if n == 4 {
        "Fri"
    } else if n == 5 {
        "Sat"
    } else {
        "Sun"
    }
}

pub open spec fn spec_short_month(m: u8) -> Seq<char> {
    if m == 1 {
        "Jan"@
    } else if m == 2 {
        "Feb"@
    } else if m == 3 {
        "Mar"@
    } else if m == 4 {
        "Apr"@
    } else if m == 5 {
        "May"@
    } else if m == 6 {
        "Jun"@
    } else if m == 7 {
        "Jul"@
    } else if m == 8 {
        "Aug"@
    } else if m == 9 {
        "Sep"@
    } else if m == 10 {
        "Oct"@
    } else if m == 11 {
        "Nov"@
    } else {
        "Dec"@
    }
}

/// The three-letter name of a month numbered from 1.
pub fn short_month(m: u8) -> (r: &'static str)
    requires
        1 <= m <= 12,
    ensures
        r@ == spec_short_month(m),
{
    if m == 1 {
        "Jan"
    } else if m == 2 {
        "Feb"
    } else if m == 3 {
        "Mar"
    } else if m == 4 {
        "Apr"
    } else if m == 5 {
        "May"
    } else if m == 6 {
        "Jun"
    } else if m == 7 {
        "Jul"
    } else if m == 8 {
        "Aug"
    } else if m == 9 {
        "Sep"
    } else if m == 10 {
        "Oct"
    } else if m == 11 {
        "Nov"
    } else {
        "Dec"
    }
}

/// `Sat 12 Sep`.
pub open spec fn spec_label(d: Day) -> Seq<char> {
    spec_short_weekday(d.weekday) + " "@ + decimal(d.day as nat) + " "@ + spec_short_month(d.month)
}

pub fn label(d: &Day) -> (r: String)
    requires
        d.valid(),
    ensures
        r@ == spec_label(*d),
{
    let mut out = String::from_str(short_weekday(d.weekday));
    out.append(" ");
    push_chars(&mut out, &decimal_chars(d.day));
    out.append(" ");
    out.append(short_month(d.month));
    out
}


/// The indices of the dates that are not before `today`, in order.
pub open spec fn kept(dates: Seq<Day>, today: Day) -> Seq<usize>
    decreases dates.len(),
{
    if dates.len() == 0 {
        Seq::empty()
    } else {
        let r = kept(dates.drop_last(), today);
        if before(dates.last(), today) {
            r
        } else {
            r.push((dates.len() - 1) as usize)
        }
    }
}

/// Where a stable insertion places `x` in `s`: before the first entry whose date
/// is later than that of `x`.
pub open spec fn insert_pos(s: Seq<usize>, x: usize, dates: Seq<Day>) -> int
    decreases s.len(),
{
    if s.len() == 0 {
        0
    } else if before(dates[x as int], dates[s[0] as int]) {
        0
    } else {
        1 + insert_pos(s.drop_first(), x, dates)
    }
}

/// `s` ordered by date, entries with equal dates keeping their order: a stable
/// insertion sort, which is what `sort_by_key` amounts to.
pub open spec fn sort_by_date(s: Seq<usize>, dates: Seq<Day>) -> Seq<usize>
    decreases s.len(),
{
    if s.len() == 0 {
        s
    } else {
        let r = sort_by_date(s.drop_last(), dates);
        r.insert(insert_pos(r, s.last(), dates), s.last())
    }
}

/// The indices of the events still to come, soonest first.
pub open spec fn upcoming_order(dates: Seq<Day>, today: Day) -> Seq<usize> {
    sort_by_date(kept(dates, today), dates)
}

/// An event that has not happened yet, with its date already spelled out.
pub struct Upcoming<'a> {
    pub event: &'a Event,
    /// `Sat 12 Sep`
    pub label: String,
    /// `2026-09-12`: the `datetime` attribute and the JSON-LD `startDate`.
    pub iso: String,
}

/// `r` lists the events whose dates are not before `today`, soonest first, ties
/// in the order of the file, each with its label and ISO date.
pub open spec fn is_schedule<'a>(
    r: Seq<Upcoming<'a>>,
    events: Seq<Event>,
    dates: Seq<Day>,
    today: Day,
) -> bool {
    let order = upcoming_order(dates, today);
    &&& r.len() == order.len()
    &&& forall|k: int|
        #![trigger r[k]]
        0 <= k < r.len() ==> {
            &&& *r[k].event == events[order[k] as int]
            &&& r[k].label@ == spec_label(dates[order[k] as int])
            &&& r[k].iso@ == events[order[k] as int].date@
        }
}

/// The position at which the stable insertion puts `x` into `order`.
fn find_insert_pos(order: &Vec<usize>, x: usize, dates: &[Day]) -> (p: usize)
    requires
        x < dates@.len(),
        forall|k: int| 0 <= k < order@.len() ==> order@[k] < dates@.len(),
    ensures
        p == insert_pos(order@, x, dates@),
        p <= order@.len(),
{
    let mut p: usize = 0;
    assert(order@.skip(0) =~= order@);
    while p < order.len()
        invariant
            x < dates@.len(),
            forall|k: int| 0 <= k < order@.len() ==> order@[k] < dates@.len(),
            p <= order@.len(),
            insert_pos(order@, x, dates@) == p + insert_pos(order@.skip(p as int), x, dates@),
        decreases order@.len() - p,
    {
        assert(order@.skip(p as int).drop_first() =~= order@.skip(p + 1));
        assert(order@.skip(p as int)[0] == order@[p as int]);
        if is_before(&dates[x], &dates[order[p]]) {
            return p;
        }
        p = p + 1;
    }
    p
}

/// The events of `events` (dated by `dates`) that are not before `today`, soonest
/// first, ties kept in file order, each labelled `Sat 12 Sep`.
pub fn schedule<'a>(events: &'a [Event], dates: &[Day], today: &Day) -> (r: Vec<Upcoming<'a>>)
    requires
        events@.len() == dates@.len(),
        forall|i: int| 0 <= i < dates@.len() ==> (#[trigger] dates@[i]).valid(),
    ensures
        is_schedule(r@, events@, dates@, *today),
{
    let n = dates.len();
    let mut order: Vec<usize> = Vec::new();
    let mut i: usize = 0;
    assert(dates@.take(0) =~= Seq::<Day>::empty());
    while i < n
        invariant
            n == dates@.len(),
            i <= n,
            order@ == sort_by_date(kept(dates@.take(i as int), *today), dates@),
            forall|k: int| 0 <= k < order@.len() ==> order@[k] < i,
        decreases n - i,
    {
        let ghost prev = kept(dates@.take(i as int), *today);
        assert(dates@.take(i + 1).drop_last() =~= dates@.take(i as int));
        assert(dates@.take(i + 1).last() == dates@[i as int]);
        if !is_before(&dates[i], today) {
            let p = find_insert_pos(&order, i, dates);
            proof {
                lemma_insert_pos_props(order@, i, dates@);
                assert(prev.push(i).drop_last() =~= prev);
            }
            order.insert(p, i);
        }
        i = i + 1;
    }
    assert(dates@.take(n as int) =~= dates@);
    let mut out: Vec<Upcoming<'a>> = Vec::new();
    let mut k: usize = 0;
    while k < order.len()
        invariant
            n == dates@.len(),
            n == events@.len(),
            forall|j: int| 0 <= j < dates@.len() ==> (#[trigger] dates@[j]).valid(),
            order@ == upcoming_order(dates@, *today),
            forall|j: int| 0 <= j < order@.len() ==> order@[j] < n,
            k <= order@.len(),
            out@.len() == k,
            forall|j: int|
                #![trigger out@[j]]
                0 <= j < k ==> {
                    &&& *out@[j].event == events@[order@[j] as int]
                    &&& out@[j].label@ == spec_label(dates@[order@[j] as int])
                    &&& out@[j].iso@ == events@[order@[j] as int].date@
                },
        decreases order@.len() - k,
    {
        let idx = order[k];
        let event = &events[idx];
        out.push(Upcoming { event, label: label(&dates[idx]), iso: event.date.clone() });
        k = k + 1;
    }
    out
}

/// A booked event whose date does not parse.
pub struct UnparseableDate {
    /// The event's name.
    pub event: String,
}

/// The dates of the events, each as parsed.
pub open spec fn event_days(events: Seq<Event>) -> Seq<Day> {
    events.map_values(|e: Event| day_of(parsed_date(e.date@)->0))
}

impl Site {
    /// Events from `today` onwards, soonest first. An event whose date does not
    /// parse is an error, the first such in the file.
    ///
    /// Filtering at build time keeps the page honest without anyone pruning the
    /// file: a build that has not run for a month shows a short list rather than
    /// a list of things that already happened.
    pub fn upcoming(&self, today: &Day) -> (r: Result<Vec<Upcoming<'_>>, UnparseableDate>)
        ensures
            r is Err <==> exists|i: int|
                0 <= i < self.events@.len() && parsed_date(
                    (#[trigger] self.events@[i]).date@,
                ) is None,
            r matches Err(e) ==> exists|i: int|
                0 <= i < self.events@.len() && parsed_date((#[trigger] self.events@[i]).date@)
                    is None && e.event@ == self.events@[i].name@ && forall|j: int|
                    0 <= j < i ==> parsed_date((#[trigger] self.events@[j]).date@) is Some,
            r matches Ok(v) ==> is_schedule(
                v@,
                self.events@,
                event_days(self.events@),
                *today,
            ),
    {
        let n = self.events.len();
        let mut dates: Vec<Day> = Vec::new();
        let mut i: usize = 0;
        while i < n
            invariant
                n == self.events@.len(),
                i <= n,
                dates@.len() == i,
                forall|j: int| 0 <= j < i ==> parsed_date((#[trigger] self.events@[j]).date@) is Some,
                forall|j: int|
                    0 <= j < i ==> #[trigger] dates@[j] == day_of(
                        parsed_date(self.events@[j].date@)->0,
                    ) && dates@[j].valid(),
            decreases n - i,
        {
            match parse_date(self.events[i].date.as_str()) {
                None => {
                    return Err(UnparseableDate { event: self.events[i].name.clone() });
                },
                Some(d) => {
                    dates.push(d);
                },
            }
            i = i + 1;
        }
        assert(dates@ =~= event_days(self.events@));
        Ok(schedule(self.events.as_slice(), dates.as_slice(), today))
    }
}


proof fn lemma_insert_pos_props(r: Seq<usize>, x: usize, dates: Seq<Day>)
    ensures
        0 <= insert_pos(r, x, dates) <= r.len(),
        forall|p: int|
            0 <= p < insert_pos(r, x, dates) ==> !before(dates[x as int], dates[#[trigger] r[p] as int]),
        insert_pos(r, x, dates) < r.len() ==> before(
            dates[x as int],
            dates[r[insert_pos(r, x, dates)] as int],
        ),
    decreases r.len(),
{
    if r.len() > 0 && !before(dates[x as int], dates[r[0] as int]) {
        let t = r.drop_first();
        lemma_insert_pos_props(t, x, dates);
        assert forall|p: int|
            0 <= p < insert_pos(r, x, dates) implies !before(dates[x as int], dates[#[trigger] r[p] as int]) by {
            if p > 0 {
                assert(r[p] == t[p - 1]);
            }
        }
    }
}

/// Ordered by date: no entry's date is earlier than that of an entry before it.
pub open spec fn date_sorted(s: Seq<usize>, dates: Seq<Day>) -> bool {
    forall|k: int, l: int|
        0 <= k < l < s.len() ==> !before(dates[#[trigger] s[l] as int], dates[#[trigger] s[k] as int])
}

/// Entries with the same date keep the order of their indices.
pub open spec fn ties_in_order(s: Seq<usize>, dates: Seq<Day>) -> bool {
    forall|k: int, l: int|
        0 <= k < l < s.len() && same_date(dates[#[trigger] s[k] as int], dates[#[trigger] s[l] as int])
            ==> s[k] < s[l]
}

pub open spec fn increasing(s: Seq<usize>) -> bool {
    forall|k: int, l: int| 0 <= k < l < s.len() ==> #[trigger] s[k] < #[trigger] s[l]
}

proof fn lemma_sort_by_date(s: Seq<usize>, dates: Seq<Day>)
    ensures
        sort_by_date(s, dates).to_multiset() == s.to_multiset(),
        sort_by_date(s, dates).len() == s.len(),
        date_sorted(sort_by_date(s, dates), dates),
        increasing(s) ==> ties_in_order(sort_by_date(s, dates), dates),
    decreases s.len(),
{
    broadcast use vstd::seq_lib::to_multiset_insert, vstd::seq_lib::to_multiset_contains;

    if s.len() > 0 {
        let init = s.drop_last();
        let x = s.last();
        let r = sort_by_date(init, dates);
        lemma_sort_by_date(init, dates);
        lemma_insert_pos_props(r, x, dates);
        let pos = insert_pos(r, x, dates);
        let t = r.insert(pos, x);
        r.insert_ensures(pos, x);
        assert(s =~= init.push(x));
        vstd::seq_lib::to_multiset_build(init, x);
        assert forall|k: int, l: int| 0 <= k < l < t.len() implies !before(
            dates[#[trigger] t[l] as int],
            dates[#[trigger] t[k] as int],
        ) by {
            if l < pos {
            } else if l == pos {
            } else if k < pos {
                assert(t[l] == r[l - 1]);
                assert(!before(dates[r[l - 1] as int], dates[r[pos] as int]));
            } else if k == pos {
                assert(t[l] == r[l - 1]);
                assert(!before(dates[r[l - 1] as int], dates[r[pos] as int]));
            } else {
                assert(t[l] == r[l - 1]);
                assert(t[k] == r[k - 1]);
            }
        }
        if increasing(s) {
            assert(increasing(init));
            assert forall|j: int| 0 <= j < r.len() implies #[trigger] r[j] < x by {
                assert(r.to_multiset().count(r[j]) > 0);
                assert(init.contains(r[j]));
                let m = choose|m: int| 0 <= m < init.len() && init[m] == r[j];
                assert(s[m] == init[m]);
                assert(s[s.len() - 1] == x);
            }
            assert forall|k: int, l: int|
                0 <= k < l < t.len() && same_date(
                    dates[#[trigger] t[k] as int],
                    dates[#[trigger] t[l] as int],
                ) implies t[k] < t[l] by {
                if l < pos {
                } else if l == pos {
                    assert(t[k] == r[k]);
                } else if k < pos {
                    assert(t[l] == r[l - 1]);
                    assert(t[k] == r[k]);
                } else if k == pos {
                    assert(t[l] == r[l - 1]);
                    assert(!before(dates[r[l - 1] as int], dates[r[pos] as int]));
                } else {
                    assert(t[l] == r[l - 1]);
                    assert(t[k] == r[k - 1]);
                }
            }
        }
    }
}

proof fn lemma_kept(dates: Seq<Day>, today: Day)
    requires
        dates.len() <= usize::MAX,
    ensures
        increasing(kept(dates, today)),
        forall|k: int|
            0 <= k < kept(dates, today).len() ==> #[trigger] kept(dates, today)[k] < dates.len()
                && !before(dates[kept(dates, today)[k] as int], today),
        forall|i: int|
            0 <= i < dates.len() && !before(#[trigger] dates[i], today) ==> kept(dates, today).contains(
                i as usize,
            ),
    decreases dates.len(),
{
    if dates.len() > 0 {
        let init = dates.drop_last();
        lemma_kept(init, today);
        let r = kept(init, today);
        let last = (dates.len() - 1) as usize;
        assert(last as int == dates.len() - 1);
        if !before(dates.last(), today) {
            let t = r.push(last);
            assert forall|k: int| 0 <= k < t.len() implies #[trigger] t[k] < dates.len() && !before(
                dates[t[k] as int],
                today,
            ) by {
                if k < r.len() {
                    assert(t[k] == r[k]);
                    assert(init[r[k] as int] == dates[r[k] as int]);
                }
            }
            assert forall|k: int, l: int| 0 <= k < l < t.len() implies #[trigger] t[k] < #[trigger] t[l] by {
                if l < r.len() {
                    assert(t[k] == r[k] && t[l] == r[l]);
                } else {
                    assert(t[k] == r[k]);
                }
            }
        } else {
            assert forall|k: int| 0 <= k < r.len() implies #[trigger] r[k] < dates.len() && !before(
                dates[r[k] as int],
                today,
            ) by {
                assert(init[r[k] as int] == dates[r[k] as int]);
            }
        }
        assert forall|i: int|
            0 <= i < dates.len() && !before(#[trigger] dates[i], today) implies kept(
                dates,
                today,
            ).contains(i as usize) by {
            if i < dates.len() - 1 {
                assert(init[i] == dates[i]);
                let m = choose|m: int| 0 <= m < r.len() && r[m] == i as usize;
                if !before(dates.last(), today) {
                    assert(r.push((dates.len() - 1) as usize)[m] == i as usize);
                }
            } else {
                assert(r.push((dates.len() - 1) as usize)[r.len() as int] == i as usize);
            }
        }
    }
}

/// Every event on the list is still to come: none is dated before `today`.
pub proof fn law_upcoming_not_past(dates: Seq<Day>, today: Day)
    requires
        dates.len() <= usize::MAX,
    ensures
        forall|k: int|
            0 <= k < upcoming_order(dates, today).len() ==> #[trigger] upcoming_order(dates, today)[k]
                < dates.len() && !before(dates[upcoming_order(dates, today)[k] as int], today),
{
    broadcast use vstd::seq_lib::to_multiset_contains;

    let s = kept(dates, today);
    let r = upcoming_order(dates, today);
    lemma_kept(dates, today);
    lemma_sort_by_date(s, dates);
    assert forall|k: int| 0 <= k < r.len() implies #[trigger] r[k] < dates.len() && !before(
        dates[r[k] as int],
        today,
    ) by {
        assert(r.to_multiset().count(r[k]) > 0);
        let m = choose|m: int| 0 <= m < s.len() && s[m] == r[k];
    }
}

/// Nothing still to come is left off, and nothing is listed twice.
pub proof fn law_upcoming_complete(dates: Seq<Day>, today: Day)
    requires
        dates.len() <= usize::MAX,
    ensures
        forall|i: int|
            0 <= i < dates.len() && !before(#[trigger] dates[i], today) ==> upcoming_order(
                dates,
                today,
            ).contains(i as usize),
        upcoming_order(dates, today).no_duplicates(),
{
    broadcast use vstd::seq_lib::to_multiset_contains;

    let s = kept(dates, today);
    let r = upcoming_order(dates, today);
    lemma_kept(dates, today);
    lemma_sort_by_date(s, dates);
    assert forall|i: int| 0 <= i < dates.len() && !before(#[trigger] dates[i], today) implies r.contains(
        i as usize,
    ) by {
        assert(s.contains(i as usize));
        assert(s.to_multiset().count(i as usize) > 0);
    }
    assert(s.no_duplicates()) by {
        assert forall|k: int, l: int| 0 <= k < s.len() && 0 <= l < s.len() && k != l implies s[k]
            != s[l] by {
            if k < l {
                assert(s[k] < s[l]);
            } else {
                assert(s[l] < s[k]);
            }
        }
    }
    s.lemma_multiset_has_no_duplicates();
    r.lemma_multiset_has_no_duplicates_conv();
}

/// Soonest first, and events on the same day keep the order of the file.
pub proof fn law_upcoming_soonest_first(dates: Seq<Day>, today: Day)
    requires
        dates.len() <= usize::MAX,
    ensures
        date_sorted(upcoming_order(dates, today), dates),
        ties_in_order(upcoming_order(dates, today), dates),
{
    lemma_kept(dates, today);
    lemma_sort_by_date(kept(dates, today), dates);
}


/// Two lists of distinct indices that hold the same indices, both ordered by
/// date with ties in index order, are the same list.
proof fn lemma_order_unique(a: Seq<usize>, b: Seq<usize>, dates: Seq<Day>)
    requires
        a.no_duplicates(),
        b.no_duplicates(),
        date_sorted(a, dates),
        ties_in_order(a, dates),
        date_sorted(b, dates),
        ties_in_order(b, dates),
        forall|x: usize| a.contains(x) <==> b.contains(x),
    ensures
        a == b,
    decreases a.len(),
{
    if a.len() == 0 {
        if b.len() > 0 {
            assert(b.contains(b[0]));
        }
        assert(a =~= b);
    } else {
        assert(a.contains(a[0]));
        assert(b.contains(a[0]));
        assert(b.len() > 0);
        assert(b.contains(b[0]));
        let i = choose|i: int| 0 <= i < a.len() && a[i] == b[0];
        let j = choose|j: int| 0 <= j < b.len() && b[j] == a[0];
        if i > 0 && j > 0 {
            assert(!before(dates[a[i] as int], dates[a[0] as int]));
            assert(!before(dates[b[j] as int], dates[b[0] as int]));
            assert(same_date(dates[a[0] as int], dates[a[i] as int]));
            assert(a[0] < a[i]);
            assert(same_date(dates[b[0] as int], dates[b[j] as int]));
            assert(b[0] < b[j]);
        }
        assert(a[0] == b[0]);
        let ra = a.drop_first();
        let rb = b.drop_first();
        assert forall|x: usize| ra.contains(x) <==> rb.contains(x) by {
            if ra.contains(x) {
                let k = choose|k: int| 0 <= k < ra.len() && ra[k] == x;
                assert(a[k + 1] == x);
                assert(a[k + 1] != a[0]);
                assert(a.contains(x));
                let m = choose|m: int| 0 <= m < b.len() && b[m] == x;
                assert(m != 0);
                assert(rb[m - 1] == x);
            }
            if rb.contains(x) {
                let k = choose|k: int| 0 <= k < rb.len() && rb[k] == x;
                assert(b[k + 1] == x);
                assert(b[k + 1] != b[0]);
                assert(b.contains(x));
                let m = choose|m: int| 0 <= m < a.len() && a[m] == x;
                assert(m != 0);
                assert(ra[m - 1] == x);
            }
        }
        assert forall|k: int, l: int| 0 <= k < l < ra.len() implies !before(
            dates[#[trigger] ra[l] as int],
            dates[#[trigger] ra[k] as int],
        ) by {
            assert(ra[l] == a[l + 1] && ra[k] == a[k + 1]);
        }
        assert forall|k: int, l: int|
            0 <= k < l < ra.len() && same_date(
                dates[#[trigger] ra[k] as int],
                dates[#[trigger] ra[l] as int],
            ) implies ra[k] < ra[l] by {
            assert(ra[l] == a[l + 1] && ra[k] == a[k + 1]);
        }
        assert forall|k: int, l: int| 0 <= k < l < rb.len() implies !before(
            dates[#[trigger] rb[l] as int],
            dates[#[trigger] rb[k] as int],
        ) by {
            assert(rb[l] == b[l + 1] && rb[k] == b[k + 1]);
        }
        assert forall|k: int, l: int|
            0 <= k < l < rb.len() && same_date(
                dates[#[trigger] rb[k] as int],
                dates[#[trigger] rb[l] as int],
            ) implies rb[k] < rb[l] by {
            assert(rb[l] == b[l + 1] && rb[k] == b[k + 1]);
        }
        assert(ra.no_duplicates()) by {
            assert forall|k: int, l: int| 0 <= k < ra.len() && 0 <= l < ra.len() && k != l implies ra[k]
                != ra[l] by {
                assert(ra[k] == a[k + 1] && ra[l] == a[l + 1]);
            }
        }
        assert(rb.no_duplicates()) by {
            assert forall|k: int, l: int| 0 <= k < rb.len() && 0 <= l < rb.len() && k != l implies rb[k]
                != rb[l] by {
                assert(rb[k] == b[k + 1] && rb[l] == b[l + 1]);
            }
        }
        lemma_order_unique(ra, rb, dates);
        assert(a =~= seq![a[0]] + ra);
        assert(b =~= seq![b[0]] + rb);
    }
}

/// The first position at or after `k` whose date is not before `t`.
proof fn lemma_first_not_before(r: Seq<usize>, dates: Seq<Day>, t: Day, k: int) -> (n: int)
    requires
        0 <= k <= r.len(),
        forall|j: int| 0 <= j < k ==> before(dates[#[trigger] r[j] as int], t),
    ensures
        k <= n <= r.len(),
        forall|j: int| 0 <= j < n ==> before(dates[#[trigger] r[j] as int], t),
        n < r.len() ==> !before(dates[r[n] as int], t),
    decreases r.len() - k,
{
    if k == r.len() || !before(dates[r[k] as int], t) {
        k
    } else {
        lemma_first_not_before(r, dates, t, k + 1)
    }
}

/// A later day gives the earlier list with its first entries dropped, and those
/// are exactly the ones now past: the rest keeps its order (and so its labels and
/// ISO dates).
pub proof fn law_later_day_drops_past_prefix(dates: Seq<Day>, t1: Day, t2: Day)
    requires
        dates.len() <= usize::MAX,
        !before(t2, t1),
    ensures
        exists|n: int|
            0 <= n <= upcoming_order(dates, t1).len() && upcoming_order(dates, t2)
                == upcoming_order(dates, t1).skip(n) && forall|k: int|
                0 <= k < n ==> before(dates[#[trigger] upcoming_order(dates, t1)[k] as int], t2),
{
    let r1 = upcoming_order(dates, t1);
    let r2 = upcoming_order(dates, t2);
    law_upcoming_not_past(dates, t1);
    law_upcoming_complete(dates, t1);
    law_upcoming_soonest_first(dates, t1);
    law_upcoming_not_past(dates, t2);
    law_upcoming_complete(dates, t2);
    law_upcoming_soonest_first(dates, t2);
    let n = lemma_first_not_before(r1, dates, t2, 0);
    let s = r1.skip(n);
    assert forall|m: int| 0 <= m < s.len() implies !before(dates[#[trigger] s[m] as int], t2) by {
        assert(s[m] == r1[n + m]);
        if m > 0 {
            assert(!before(dates[r1[n + m] as int], dates[r1[n] as int]));
        }
    }
    assert forall|k: int, l: int| 0 <= k < l < s.len() implies !before(
        dates[#[trigger] s[l] as int],
        dates[#[trigger] s[k] as int],
    ) by {
        assert(s[l] == r1[n + l] && s[k] == r1[n + k]);
    }
    assert forall|k: int, l: int|
        0 <= k < l < s.len() && same_date(dates[#[trigger] s[k] as int], dates[#[trigger] s[l] as int])
            implies s[k] < s[l] by {
        assert(s[l] == r1[n + l] && s[k] == r1[n + k]);
    }
    assert(s.no_duplicates()) by {
        assert forall|k: int, l: int| 0 <= k < s.len() && 0 <= l < s.len() && k != l implies s[k]
            != s[l] by {
            assert(s[k] == r1[n + k] && s[l] == r1[n + l]);
        }
    }
    assert forall|x: usize| r2.contains(x) <==> s.contains(x) by {
        if r2.contains(x) {
            let k = choose|k: int| 0 <= k < r2.len() && r2[k] == x;
            assert(x < dates.len() && !before(dates[x as int], t2));
            assert(!before(dates[x as int], t1));
            assert(r1.contains((x as int) as usize));
            let m = choose|m: int| 0 <= m < r1.len() && r1[m] == x;
            if m < n {
                assert(before(dates[r1[m] as int], t2));
            }
            assert(s[m - n] == x);
        }
        if s.contains(x) {
            let k = choose|k: int| 0 <= k < s.len() && s[k] == x;
            assert(r1[n + k] == x);
            assert(x < dates.len());
            assert(!before(dates[x as int], t2));
            assert(r2.contains((x as int) as usize));
        }
    }
    lemma_order_unique(r2, s, dates);
}

} // verus!
