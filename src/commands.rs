//! The commands a user gives, each one operation on the table. Values come
//! in as typed, and are parsed before the table is touched.

use crate::date::Date;
use crate::entry::{remaining_days, Entry, EntryView};
use crate::error::KitError;
use crate::order::sorted_by_key;
use crate::parse::{parse_date_at, parse_interval, parsed_date, parsed_interval, same_text};
use crate::table::{line_views, updated_where, Filter, Line, Table, TableError, TableView};
use vstd::prelude::*;

verus! {

pub open spec fn field_name() -> Seq<char> {
    seq!['n', 'a', 'm', 'e']
}

pub open spec fn field_interval() -> Seq<char> {
    seq!['i', 'n', 't', 'e', 'r', 'v', 'a', 'l']
}

pub open spec fn field_last() -> Seq<char> {
    seq!['l', 'a', 's', 't']
}

/// Adds an entry named `name` with the interval and the date of last contact
/// as typed; `now` stands for `today`.
pub fn add(table: &mut Table, name: String, raw_interval: &str, raw_date: &str, today: Date) -> (r: Result<(), KitError>)
    requires
        old(table)@.wf(),
    ensures
        final(table)@.wf(),
        (r matches Err(KitError::InvalidInterval)) <==> parsed_interval(raw_interval@) is None,
        (r matches Err(KitError::InvalidDateFormat)) <==> parsed_interval(raw_interval@) is Some
            && parsed_date(raw_date@, today@) is None,
        (r matches Err(KitError::DuplicateName(n)) && n@ == name@) <==> parsed_interval(
            raw_interval@,
        ) is Some && parsed_date(raw_date@, today@) is Some && old(table)@.has(name@),
        r is Ok <==> parsed_interval(raw_interval@) is Some && parsed_date(raw_date@, today@) is Some
            && !old(table)@.has(name@),
        r is Err ==> final(table)@ == old(table)@,
        r is Ok ==> final(table)@ == (TableView {
            entries: old(table)@.entries.push(
                EntryView {
                    name: name@,
                    interval: parsed_interval(raw_interval@)->0,
                    last_contact: parsed_date(raw_date@, today@)->0,
                    remaining_time: remaining_days(
                        parsed_interval(raw_interval@)->0,
                        parsed_date(raw_date@, today@)->0,
                        today@,
                    ),
                },
            ),
            ..old(table)@
        }),
{
    let interval = match parse_interval(raw_interval) {
        Ok(v) => v,
        Err(_) => {
            return Err(KitError::InvalidInterval);
        },
    };
    let last_contact = match parse_date_at(raw_date, today) {
        Ok(d) => d,
        Err(_) => {
            return Err(KitError::InvalidDateFormat);
        },
    };
    match table.add_entry(Entry::new_at(name, interval, last_contact, today)) {
        Ok(()) => Ok(()),
        Err(e) => Err(KitError::DuplicateName(e.name)),
    }
}

/// Removes the entry named `name`.
pub fn remove(table: &mut Table, name: String) -> (r: Result<(), KitError>)
    requires
        old(table)@.wf(),
    ensures
        final(table)@.wf(),
        (r matches Err(KitError::NameNotFound(n)) && n@ == name@) <==> !old(table)@.has(name@),
        r is Ok <==> old(table)@.has(name@),
        r is Err ==> final(table)@ == old(table)@,
        r is Ok ==> final(table)@ == old(table)@.without(name@),
{
    match table.remove_entry(name) {
        Ok(()) => Ok(()),
        Err(e) => Err(KitError::NameNotFound(e.name)),
    }
}

/// Changes one field of the entry named `name`: `name`, `interval` or `last`,
/// to the value as typed, and brings its remaining time up to `today`.
pub fn modify(table: &mut Table, name: String, field: &str, raw_value: &str, today: Date) -> (r: Result<(), KitError>)
    requires
        old(table)@.wf(),
    ensures
        final(table)@.wf(),
        r is Err ==> final(table)@ == old(table)@,
        (r matches Err(KitError::NameNotFound(n)) && n@ == name@) <==> !old(table)@.has(name@),
        (r matches Err(KitError::InvalidField(f)) && f@ == field@) <==> old(table)@.has(name@)
            && field@ != field_name() && field@ != field_interval() && field@ != field_last(),
        old(table)@.has(name@) && field@ == field_name() ==> {
            &&& (r matches Err(KitError::DuplicateName(n)) && n@ == raw_value@) <==> old(
                table,
            )@.has(raw_value@)
            &&& r is Ok <==> !old(table)@.has(raw_value@)
            &&& r is Ok ==> final(table)@ == old(table)@.renamed(name@, raw_value@, today@)
        },
        old(table)@.has(name@) && field@ == field_interval() ==> {
            &&& (r matches Err(KitError::InvalidInterval)) <==> parsed_interval(raw_value@) is None
            &&& r is Ok <==> parsed_interval(raw_value@) is Some
            &&& r is Ok ==> final(table)@ == (TableView {
                entries: updated_where(
                    old(table)@.entries,
                    name@,
                    |e: EntryView|
                        (EntryView {
                            interval: parsed_interval(raw_value@)->0,
                            ..e
                        }).recomputed(today@),
                ),
                ..old(table)@
            })
        },
        old(table)@.has(name@) && field@ == field_last() ==> {
            &&& (r matches Err(KitError::InvalidDateFormat)) <==> parsed_date(raw_value@, today@) is None
            &&& r is Ok <==> parsed_date(raw_value@, today@) is Some
            &&& r is Ok ==> final(table)@ == (TableView {
                entries: updated_where(
                    old(table)@.entries,
                    name@,
                    |e: EntryView|
                        (EntryView {
                            last_contact: parsed_date(raw_value@, today@)->0,
                            ..e
                        }).recomputed(today@),
                ),
                ..old(table)@
            })
        },
{
    if !table.contains(&name) {
        return Err(KitError::NameNotFound(name));
    }
    proof {
        reveal_strlit("name");
        reveal_strlit("interval");
        reveal_strlit("last");
    }
    assert("name"@ =~= field_name());
    assert("interval"@ =~= field_interval());
    assert("last"@ =~= field_last());
    if same_text(field, "name") {
        let new_name = raw_value.to_owned();
        match table.rename_entry(&name, new_name, today) {
            Ok(()) => Ok(()),
            Err(TableError::Existing(e)) => Err(KitError::DuplicateName(e.name)),
            Err(TableError::Missing(e)) => Err(KitError::NameNotFound(e.name)),
            Err(TableError::Unsuspended(e)) => Err(KitError::NotSuspended(e.name)),
        }
    } else if same_text(field, "interval") {
        let interval = match parse_interval(raw_value) {
            Ok(v) => v,
            Err(_) => {
                return Err(KitError::InvalidInterval);
            },
        };
        match table.set_interval(&name, interval, today) {
            Ok(()) => Ok(()),
            Err(e) => Err(KitError::NameNotFound(e.name)),
        }
    } else if same_text(field, "last") {
        let last_contact = match parse_date_at(raw_value, today) {
            Ok(d) => d,
            Err(_) => {
                return Err(KitError::InvalidDateFormat);
            },
        };
        match table.set_last_contact(&name, last_contact, today) {
            Ok(()) => Ok(()),
            Err(e) => Err(KitError::NameNotFound(e.name)),
        }
    } else {
        Err(KitError::InvalidField(field.to_owned()))
    }
}

/// Records a conversation with `name` today.
pub fn just_talked_to(table: &mut Table, name: String, today: Date) -> (r: Result<(), KitError>)
    requires
        old(table)@.wf(),
    ensures
        final(table)@.wf(),
        (r matches Err(KitError::NameNotFound(n)) && n@ == name@) <==> !old(table)@.has(name@),
        r is Ok <==> old(table)@.has(name@),
        r is Err ==> final(table)@ == old(table)@,
        r is Ok ==> final(table)@ == (TableView {
            entries: updated_where(
                old(table)@.entries,
                name@,
                |e: EntryView| (EntryView { last_contact: today@, ..e }).recomputed(today@),
            ),
            ..old(table)@
        }),
{
    match table.set_last_contact(&name, today, today) {
        Ok(()) => Ok(()),
        Err(e) => Err(KitError::NameNotFound(e.name)),
    }
}

/// Suspends the entry named `name`.
pub fn suspend(table: &mut Table, name: String) -> (r: Result<(), KitError>)
    requires
        old(table)@.wf(),
    ensures
        final(table)@.wf(),
        (r matches Err(KitError::NameNotFound(n)) && n@ == name@) <==> !old(table)@.has(name@),
        r is Ok <==> old(table)@.has(name@),
        r is Err ==> final(table)@ == old(table)@,
        r is Ok ==> final(table)@.is_suspended(name@),
        r is Ok ==> final(table)@ == old(table)@.with_suspended(name@),
{
    match table.suspend_entry(name) {
        Ok(()) => Ok(()),
        Err(e) => Err(KitError::NameNotFound(e.name)),
    }
}

/// Makes the suspended entry named `name` active again.
pub fn resume(table: &mut Table, name: String) -> (r: Result<(), KitError>)
    requires
        old(table)@.wf(),
    ensures
        final(table)@.wf(),
        (r matches Err(KitError::NameNotFound(n)) && n@ == name@) <==> !old(table)@.has(name@),
        (r matches Err(KitError::NotSuspended(n)) && n@ == name@) <==> old(table)@.has(name@)
            && !old(table)@.is_suspended(name@),
        r is Ok <==> old(table)@.is_suspended(name@),
        r is Err ==> final(table)@ == old(table)@,
        r is Ok ==> final(table)@ == old(table)@.resumed(name@),
{
    match table.resume_entry(name) {
        Ok(()) => Ok(()),
        Err(TableError::Missing(e)) => Err(KitError::NameNotFound(e.name)),
        Err(TableError::Unsuspended(e)) => Err(KitError::NotSuspended(e.name)),
        Err(TableError::Existing(e)) => Err(KitError::DuplicateName(e.name)),
    }
}

/// Brings every entry up to `today`, then renders those that `filter` shows,
/// least remaining time first, ties by name.
pub fn view_filtered(table: &mut Table, filter: Filter, today: Date) -> (r: Vec<Line>)
    requires
        old(table)@.wf(),
    ensures
        final(table)@.wf(),
        final(table)@ == old(table)@.recomputed(today@),
        exists|s: Seq<EntryView>|
            sorted_by_key(s, true) && s.to_multiset() == final(table)@.listed(filter).to_multiset()
                && line_views(r@) == #[trigger] final(table)@.rendered(s),
{
    let entries = table.list_sorted_at(filter, today);
    table.render_table(&entries)
}

/// The listing of all entries.
pub fn view(table: &mut Table, today: Date) -> (r: Vec<Line>)
    requires
        old(table)@.wf(),
    ensures
        final(table)@.wf(),
        final(table)@ == old(table)@.recomputed(today@),
        exists|s: Seq<EntryView>|
            sorted_by_key(s, true) && s.to_multiset() == final(table)@.listed(Filter::All).to_multiset()
                && line_views(r@) == #[trigger] final(table)@.rendered(s),
{
    view_filtered(table, Filter::All, today)
}

/// The listing of the active entries.
pub fn view_active(table: &mut Table, today: Date) -> (r: Vec<Line>)
    requires
        old(table)@.wf(),
    ensures
        final(table)@.wf(),
        final(table)@ == old(table)@.recomputed(today@),
        exists|s: Seq<EntryView>|
            sorted_by_key(s, true) && s.to_multiset() == final(table)@.listed(
                Filter::ActiveOnly,
            ).to_multiset() && line_views(r@) == #[trigger] final(table)@.rendered(s),
{
    view_filtered(table, Filter::ActiveOnly, today)
}

/// The listing of the suspended entries.
pub fn view_inactive(table: &mut Table, today: Date) -> (r: Vec<Line>)
    requires
        old(table)@.wf(),
    ensures
        final(table)@.wf(),
        final(table)@ == old(table)@.recomputed(today@),
        exists|s: Seq<EntryView>|
            sorted_by_key(s, true) && s.to_multiset() == final(table)@.listed(
                Filter::SuspendedOnly,
            ).to_multiset() && line_views(r@) == #[trigger] final(table)@.rendered(s),
{
    view_filtered(table, Filter::SuspendedOnly, today)
}

} // verus!
