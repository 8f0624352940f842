//! One tracked contact, its derived remaining time, and how it is shown.

use crate::date::{date_text, days_between, decimal, Date, DateView};
use vstd::prelude::*;

verus! {

/// What an entry stands for.
pub struct EntryView {
    pub name: Seq<char>,
    pub interval: nat,
    pub last_contact: DateView,
    pub remaining_time: int,
}

/// The days left before a contact is due again: the interval less the days
/// since the last contact, negative when overdue.
pub open spec fn remaining_days(interval: nat, last_contact: DateView, now: DateView) -> int {
    interval - days_between(now, last_contact)
}

impl EntryView {
    /// The entry with its remaining time brought up to `now`.
    pub open spec fn recomputed(self, now: DateView) -> EntryView {
        EntryView {
            remaining_time: remaining_days(self.interval, self.last_contact, now),
            ..self
        }
    }
}

/// A contact: whom to talk to, how often, and when the last talk was.
#[derive(Debug)]
pub struct Entry {
    name: String,
    interval: usize,
    last_contact: Date,
    remaining_time: i128,
}

impl View for Entry {
    type V = EntryView;

    closed spec fn view(&self) -> EntryView {
        EntryView {
            name: self.name@,
            interval: self.interval as nat,
            last_contact: self.last_contact@,
            remaining_time: self.remaining_time as int,
        }
    }
}

pub open spec fn entry_views(s: Seq<Entry>) -> Seq<EntryView> {
    s.map_values(|e: Entry| e@)
}

impl Entry {
    /// A new entry whose remaining time is computed against `now`.
    pub fn new_at(name: String, interval: usize, last_contact: Date, now: Date) -> (r: Entry)
        ensures
            r@ == (EntryView {
                name: name@,
                interval: interval as nat,
                last_contact: last_contact@,
                remaining_time: remaining_days(interval as nat, last_contact@, now@),
            }),
    {
        let days = now.days_since(&last_contact);
        Entry { name, interval, last_contact, remaining_time: interval as i128 - days as i128 }
    }

    /// A new entry whose remaining time is computed against today's date.
    pub fn new(name: String, interval: usize, last_contact: Date) -> (r: Entry)
        ensures
            r@.name == name@,
            r@.interval == interval,
            r@.last_contact == last_contact@,
            exists|now: DateView|
                now.valid() && r@.remaining_time == #[trigger] remaining_days(
                    interval as nat,
                    last_contact@,
                    now,
                ),
    {
        let now = Date::today();
        Entry::new_at(name, interval, last_contact, now)
    }

    /// An entry as it was stored, remaining time included.
    pub fn restore(name: String, interval: usize, last_contact: Date, remaining_time: i128) -> (r: Entry)
        ensures
            r@ == (EntryView {
                name: name@,
                interval: interval as nat,
                last_contact: last_contact@,
                remaining_time: remaining_time as int,
            }),
    {
        Entry { name, interval, last_contact, remaining_time }
    }

    /// Brings the remaining time up to `now`.
    pub fn update_remaining_time_at(&mut self, now: Date)
        ensures
            final(self)@ == old(self)@.recomputed(now@),
    {
        let days = now.days_since(&self.last_contact);
        self.remaining_time = self.interval as i128 - days as i128;
    }

    /// Brings the remaining time up to today's date.
    pub fn update_remaining_time(&mut self)
        ensures
            exists|now: DateView|
                now.valid() && final(self)@ == #[trigger] old(self)@.recomputed(now),
    {
        let now = Date::today();
        self.update_remaining_time_at(now);
    }

    /// Sets a new interval and brings the remaining time up to `now`.
    pub fn set_interval_at(&mut self, interval: usize, now: Date)
        ensures
            final(self)@ == (EntryView { interval: interval as nat, ..old(self)@ }).recomputed(now@),
    {
        self.interval = interval;
        self.update_remaining_time_at(now);
    }

    /// Sets a new date of last contact and brings the remaining time up to `now`.
    pub fn set_last_contact_at(&mut self, last_contact: Date, now: Date)
        ensures
            final(self)@ == (EntryView { last_contact: last_contact@, ..old(self)@ }).recomputed(
                now@,
            ),
    {
        self.last_contact = last_contact;
        self.update_remaining_time_at(now);
    }

    pub fn name(&self) -> (r: &String)
        ensures
            r@ == self@.name,
    {
        &self.name
    }

    pub fn interval(&self) -> (r: usize)
        ensures
            r == self@.interval,
    {
        self.interval
    }

    pub fn last_contact(&self) -> (r: Date)
        ensures
            r@ == self@.last_contact,
    {
        self.last_contact
    }

    pub fn remaining_time(&self) -> (r: i128)
        ensures
            r == self@.remaining_time,
    {
        self.remaining_time
    }

    /// A copy of this entry.
    pub fn duplicate(&self) -> (r: Entry)
        ensures
            r@ == self@,
    {
        Entry {
            name: self.name.clone(),
            interval: self.interval,
            last_contact: self.last_contact,
            remaining_time: self.remaining_time,
        }
    }

    /// The entry as one table row: name, remaining days, last contact and
    /// interval, each in a column of fixed width.
    pub fn row_text(&self) -> (r: String)
        ensures
            r@ == entry_row(self@),
    {
        let remaining = integer_text(self.remaining_time);
        let last = self.last_contact.to_text();
        let interval = integer_text(self.interval as i128);
        table_row(self.name.as_str(), remaining.as_str(), last.as_str(), interval.as_str())
    }
}

/// An integer in decimal, with a `-` in front when negative.
pub open spec fn int_text(n: int) -> Seq<char> {
    if n < 0 {
        seq!['-'] + decimal((-n) as nat)
    } else {
        decimal(n as nat)
    }
}

/// Relies on `i128`'s `Display` (through `ToString`): a `-` for a negative
/// value, then the decimal digits without leading zeros.
#[verifier::external_body]
fn integer_text(n: i128) -> (r: String)
    ensures
        r@ == int_text(n as int),
{
    n.to_string()
}

/// The width of each column of the table.
pub const COLUMN_WIDTH: usize = 15;

/// `s` followed by spaces up to `width` characters.
pub open spec fn padded(s: Seq<char>, width: nat) -> Seq<char> {
    if s.len() >= width {
        s
    } else {
        s + Seq::new((width - s.len()) as nat, |i: int| ' ')
    }
}

/// Four columns of fixed width, two spaces apart.
pub open spec fn row(a: Seq<char>, b: Seq<char>, c: Seq<char>, d: Seq<char>) -> Seq<char> {
    let gap = seq![' ', ' '];
    let w = COLUMN_WIDTH as nat;
    padded(a, w) + gap + padded(b, w) + gap + padded(c, w) + gap + padded(d, w)
}

fn pad_right(s: &str, width: usize) -> (r: String)
    ensures
        r@ == padded(s@, width as nat),
{
    let mut out = s.to_owned();
    let len = s.unicode_len();
    let mut n: usize = len;
    while n < width
        invariant
            len == s@.len(),
            len <= n <= width || (len > width && n == len),
            out@ == s@ + Seq::new((n - len) as nat, |i: int| ' '),
        decreases width - n,
    {
        out.append(" ");
        proof {
            reveal_strlit(" ");
        }
        assert(out@ =~= s@ + Seq::new((n + 1 - len) as nat, |i: int| ' '));
        n = n + 1;
    }
    assert(len >= width ==> out@ =~= s@);
    out
}

fn table_row(a: &str, b: &str, c: &str, d: &str) -> (r: String)
    ensures
        r@ == row(a@, b@, c@, d@),
{
    let mut out = pad_right(a, COLUMN_WIDTH);
    proof {
        reveal_strlit("  ");
    }
    out.append("  ");
    let col = pad_right(b, COLUMN_WIDTH);
    out.append(col.as_str());
    out.append("  ");
    let col = pad_right(c, COLUMN_WIDTH);
    out.append(col.as_str());
    out.append("  ");
    let col = pad_right(d, COLUMN_WIDTH);
    out.append(col.as_str());
    assert(out@ =~= row(a@, b@, c@, d@));
    out
}

/// The row that shows `e`.
pub open spec fn entry_row(e: EntryView) -> Seq<char> {
    row(
        e.name,
        int_text(e.remaining_time),
        date_text(e.last_contact.year, e.last_contact.month, e.last_contact.day),
        int_text(e.interval as int),
    )
}

/// The header row: the titles of the four columns.
pub open spec fn header_row() -> Seq<char> {
    row(
        seq!['N', 'a', 'm', 'e'],
        seq!['R', 'e', 'm', 'a', 'i', 'n', 'i', 'n', 'g'],
        seq!['L', 'a', 's', 't'],
        seq!['I', 'n', 't', 'e', 'r', 'v', 'a', 'l'],
    )
}

/// The header line above the rows.
pub fn header_text() -> (r: String)
    ensures
        r@ == header_row(),
{
    proof {
        reveal_strlit("Name");
        reveal_strlit("Remaining");
        reveal_strlit("Last");
        reveal_strlit("Interval");
    }
    assert("Name"@ =~= seq!['N', 'a', 'm', 'e']);
    assert("Remaining"@ =~= seq!['R', 'e', 'm', 'a', 'i', 'n', 'i', 'n', 'g']);
    assert("Last"@ =~= seq!['L', 'a', 's', 't']);
    assert("Interval"@ =~= seq!['I', 'n', 't', 'e', 'r', 'v', 'a', 'l']);
    table_row("Name", "Remaining", "Last", "Interval")
}

/// How a line is to be shown.
#[derive(Clone, Copy, Debug, PartialEq, Eq, Structural)]
pub enum Style {
    /// The header line.
    Header,
    /// Remaining time below the first threshold.
    Overdue,
    /// Remaining time from the first threshold up to below the second.
    DueSoon,
    /// Remaining time from the second threshold up to the third.
    Neutral,
    /// Remaining time above the third threshold.
    Relaxed,
    /// A suspended entry, shown without urgency highlighting.
    Suspended,
}

/// The urgency tier of a remaining time against thresholds `t1 < t2 < t3`,
/// checked in this order: below `t1`, below `t2`, above `t3`, else neutral.
pub open spec fn urgency_of(remaining: int, t1: int, t2: int, t3: int) -> Style {
    if remaining < t1 {
        Style::Overdue
    } else if remaining < t2 {
        Style::DueSoon
    } else if remaining > t3 {
        Style::Relaxed
    } else {
        Style::Neutral
    }
}

pub fn urgency(remaining: i128, t1: i64, t2: i64, t3: i64) -> (r: Style)
    ensures
        r == urgency_of(remaining as int, t1 as int, t2 as int, t3 as int),
{
    if remaining < t1 as i128 {
        Style::Overdue
    } else if remaining < t2 as i128 {
        Style::DueSoon
    } else if remaining > t3 as i128 {
        Style::Relaxed
    } else {
        Style::Neutral
    }
}

} // verus!
