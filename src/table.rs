//! The table of contacts: entries keyed by name, the set of suspended names,
//! and the thresholds that decide how urgent an entry looks.

use crate::date::{Date, DateView};
use crate::entry::{
    entry_row, entry_views, header_row, header_text, remaining_days, urgency, urgency_of, Entry,
    EntryView, Style,
};
use crate::error::KitError;
use crate::order::{sort_entries, sorted_by_key};
use rayon::iter::{IntoParallelRefMutIterator, ParallelIterator};
use vstd::prelude::*;

verus! {

/// A name that the table already holds.
#[derive(Debug)]
pub struct ExistingEntry {
    pub name: String,
}

/// A name that the table does not hold.
#[derive(Debug)]
pub struct MissingEntry {
    pub name: String,
}

/// A name that is not suspended.
#[derive(Debug)]
pub struct UnsuspendedEntry {
    pub name: String,
}

/// What an operation on the table can fail with.
#[derive(Debug)]
pub enum TableError {
    Existing(ExistingEntry),
    Missing(MissingEntry),
    Unsuspended(UnsuspendedEntry),
}

/// The name of an entry.
pub open spec fn entry_name() -> spec_fn(EntryView) -> Seq<char> {
    |e: EntryView| e.name
}

/// A text as it is.
pub open spec fn as_is() -> spec_fn(Seq<char>) -> Seq<char> {
    |x: Seq<char>| x
}

pub open spec fn names_of(s: Seq<EntryView>) -> Seq<Seq<char>> {
    s.map_values(entry_name())
}

/// Holds of an entry with another name than `n`.
pub open spec fn not_named(n: Seq<char>) -> spec_fn(EntryView) -> bool {
    |e: EntryView| e.name != n
}

/// Holds of a text other than `n`.
pub open spec fn other_than(n: Seq<char>) -> spec_fn(Seq<char>) -> bool {
    |x: Seq<char>| x != n
}

/// What a table stands for.
pub struct TableView {
    pub entries: Seq<EntryView>,
    pub suspended: Seq<Seq<char>>,
    pub t1: int,
    pub t2: int,
    pub t3: int,
}

impl TableView {
    pub open spec fn has(self, name: Seq<char>) -> bool {
        names_of(self.entries).contains(name)
    }

    pub open spec fn is_suspended(self, name: Seq<char>) -> bool {
        self.suspended.contains(name)
    }

    /// Names are unique, each suspended name is an entry's and is listed once,
    /// and the thresholds rise.
    pub open spec fn wf(self) -> bool {
        &&& names_of(self.entries).no_duplicates()
        &&& self.suspended.no_duplicates()
        &&& forall|i: int| 0 <= i < self.suspended.len() ==> self.has(#[trigger] self.suspended[i])
        &&& self.t1 < self.t2 < self.t3
    }

    /// The table with `name` suspended.
    pub open spec fn with_suspended(self, name: Seq<char>) -> TableView {
        TableView {
            suspended: if self.is_suspended(name) {
                self.suspended
            } else {
                self.suspended.push(name)
            },
            ..self
        }
    }

    /// The table with `name` active.
    pub open spec fn resumed(self, name: Seq<char>) -> TableView {
        TableView { suspended: self.suspended.filter(other_than(name)), ..self }
    }

    /// The table with the entry named `old_name` removed and added again as
    /// an active entry named `new_name`, with its interval and date of last
    /// contact and the remaining time at `now`.
    pub open spec fn renamed(self, old_name: Seq<char>, new_name: Seq<char>, now: DateView) -> TableView {
        let e = entry_named(self.entries, old_name);
        let w = self.without(old_name);
        TableView {
            entries: w.entries.push(
                EntryView {
                    name: new_name,
                    interval: e.interval,
                    last_contact: e.last_contact,
                    remaining_time: remaining_days(e.interval, e.last_contact, now),
                },
            ),
            ..w
        }
    }

    /// The table without the entry named `name`, in either state.
    pub open spec fn without(self, name: Seq<char>) -> TableView {
        TableView {
            entries: self.entries.filter(not_named(name)),
            suspended: self.suspended.filter(other_than(name)),
            ..self
        }
    }
}

/// Which entries a listing shows.
#[derive(Clone, Copy, Debug, PartialEq, Eq, Structural)]
pub enum Filter {
    All,
    ActiveOnly,
    SuspendedOnly,
}

/// Whether a listing with `filter` shows an entry in the given state.
pub open spec fn shown(filter: Filter, suspended: bool) -> bool {
    match filter {
        Filter::All => true,
        Filter::ActiveOnly => !suspended,
        Filter::SuspendedOnly => suspended,
    }
}

/// Holds of the entries of `t` that a listing with `filter` shows.
pub open spec fn shown_in(t: TableView, filter: Filter) -> spec_fn(EntryView) -> bool {
    |e: EntryView| shown(filter, t.is_suspended(e.name))
}

/// The entry of `s` named `name`, where there is one.
pub open spec fn entry_named(s: Seq<EntryView>, name: Seq<char>) -> EntryView {
    s[choose|i: int| 0 <= i < s.len() && s[i].name == name]
}

/// `s` with the entry named `name` replaced by `f` of it.
pub open spec fn updated_where(
    s: Seq<EntryView>,
    name: Seq<char>,
    f: spec_fn(EntryView) -> EntryView,
) -> Seq<EntryView> {
    s.map_values(|e: EntryView| if e.name == name { f(e) } else { e })
}

/// One line of a listing and how to show it.
#[derive(Debug)]
pub struct Line {
    pub text: String,
    pub style: Style,
}

pub open spec fn line_views(lines: Seq<Line>) -> Seq<(Seq<char>, Style)> {
    lines.map_values(|l: Line| (l.text@, l.style))
}

impl TableView {
    /// Every entry with its remaining time brought up to `now`.
    pub open spec fn recomputed(self, now: DateView) -> TableView {
        TableView { entries: self.entries.map_values(|e: EntryView| e.recomputed(now)), ..self }
    }

    /// The entries that a listing with `filter` shows, in table order.
    pub open spec fn listed(self, filter: Filter) -> Seq<EntryView> {
        self.entries.filter(shown_in(self, filter))
    }

    /// How the row of `e` is shown: plain when suspended, else by urgency.
    pub open spec fn style_of(self, e: EntryView) -> Style {
        if self.is_suspended(e.name) {
            Style::Suspended
        } else {
            urgency_of(e.remaining_time, self.t1, self.t2, self.t3)
        }
    }

    /// The header line, then one line for each of `s` in order.
    pub open spec fn rendered(self, s: Seq<EntryView>) -> Seq<(Seq<char>, Style)> {
        seq![(header_row(), Style::Header)] + s.map_values(
            |e: EntryView| (entry_row(e), self.style_of(e)),
        )
    }
}

/// Relies on rayon's `par_iter_mut` and `ParallelIterator::for_each`: the
/// closure runs once on each element of the vector, in place.
#[verifier::external_body]
fn recompute_each(entries: &mut Vec<Entry>, now: Date)
    ensures
        entry_views(final(entries)@) == entry_views(old(entries)@).map_values(
            |e: EntryView| e.recomputed(now@),
        ),
{
    entries.par_iter_mut().for_each(|e| e.update_remaining_time_at(now));
}

/// A table taken apart into plain values, as it is stored.
#[derive(Debug)]
pub struct StoredTable {
    pub entries: Vec<Entry>,
    pub suspended: Vec<String>,
    pub t1: i64,
    pub t2: i64,
    pub t3: i64,
}

impl View for StoredTable {
    type V = TableView;

    open spec fn view(&self) -> TableView {
        TableView {
            entries: entry_views(self.entries@),
            suspended: texts(self.suspended@),
            t1: self.t1 as int,
            t2: self.t2 as int,
            t3: self.t3 as int,
        }
    }
}

/// The contacts, their suspension state and the display thresholds.
#[derive(Debug)]
pub struct Table {
    entries: Vec<Entry>,
    suspended_entries: Vec<String>,
    t1: i64,
    t2: i64,
    t3: i64,
}

pub open spec fn texts(s: Seq<String>) -> Seq<Seq<char>> {
    s.map_values(|x: String| x@)
}

impl View for Table {
    type V = TableView;

    closed spec fn view(&self) -> TableView {
        TableView {
            entries: entry_views(self.entries@),
            suspended: texts(self.suspended_entries@),
            t1: self.t1 as int,
            t2: self.t2 as int,
            t3: self.t3 as int,
        }
    }
}

proof fn lemma_push_keys(q: Seq<Seq<char>>, y: Seq<char>)
    ensures
        forall|x: Seq<char>| #[trigger] q.push(y).contains(x) <==> (q.contains(x) || x == y),
        q.no_duplicates() && !q.contains(y) ==> q.push(y).no_duplicates(),
{
    let r = q.push(y);
    assert forall|x: Seq<char>| #[trigger] r.contains(x) implies (q.contains(x) || x == y) by {
        let k = choose|k: int| 0 <= k < r.len() && r[k] == x;
        if k < q.len() {
            assert(q[k] == x);
        }
    }
    assert forall|x: Seq<char>| (q.contains(x) || x == y) implies #[trigger] r.contains(x) by {
        if x == y {
            assert(r[q.len() as int] == y);
        } else {
            let k = choose|k: int| 0 <= k < q.len() && q[k] == x;
            assert(r[k] == x);
        }
    }
    if q.no_duplicates() && !q.contains(y) {
        assert forall|i: int, j: int| 0 <= i < r.len() && 0 <= j < r.len() && i != j implies r[i]
            != r[j] by {
            if i == q.len() {
                assert(q[j] == r[j]);
            } else if j == q.len() {
                assert(q[i] == r[i]);
            }
        }
    }
}

/// Filtering out the items keyed `n` leaves exactly the other keys, and keeps
/// keys unique.
proof fn lemma_filter_keys<A>(
    s: Seq<A>,
    key: spec_fn(A) -> Seq<char>,
    p: spec_fn(A) -> bool,
    n: Seq<char>,
)
    requires
        forall|a: A| #[trigger] p(a) == (key(a) != n),
    ensures
        forall|x: Seq<char>| #[trigger]
            s.filter(p).map_values(key).contains(x) <==> (s.map_values(key).contains(x) && x != n),
        s.map_values(key).no_duplicates() ==> s.filter(p).map_values(key).no_duplicates(),
    decreases s.len(),
{
    reveal(Seq::filter);
    if s.len() == 0 {
        assert(s.filter(p) =~= s);
    } else {
        let d = s.drop_last();
        let l = s.last();
        lemma_filter_keys(d, key, p, n);
        assert(s.map_values(key) =~= d.map_values(key).push(key(l)));
        lemma_push_keys(d.map_values(key), key(l));
        if s.map_values(key).no_duplicates() {
            assert(d.map_values(key) =~= s.map_values(key).drop_last());
            assert(d.map_values(key).no_duplicates());
            assert(!d.map_values(key).contains(key(l))) by {
                if d.map_values(key).contains(key(l)) {
                    let k = choose|k: int| 0 <= k < d.len() && d.map_values(key)[k] == key(l);
                    assert(s.map_values(key)[k] == s.map_values(key)[s.len() - 1]);
                }
            }
        }
        if p(l) {
            assert(s.filter(p) == d.filter(p).push(l));
            assert(s.filter(p).map_values(key) =~= d.filter(p).map_values(key).push(key(l)));
            lemma_push_keys(d.filter(p).map_values(key), key(l));
        } else {
            assert(s.filter(p) == d.filter(p));
        }
    }
}

proof fn lemma_without(t: TableView, name: Seq<char>)
    requires
        t.wf(),
    ensures
        t.without(name).wf(),
        !t.without(name).has(name),
        !t.without(name).is_suspended(name),
        forall|x: Seq<char>| x != name ==> (#[trigger] t.without(name).has(x) <==> t.has(x)),
        forall|x: Seq<char>|
            x != name ==> (#[trigger] t.without(name).is_suspended(x) <==> t.is_suspended(x)),
{
    lemma_filter_keys(t.entries, entry_name(), not_named(name), name);
    lemma_filter_keys(t.suspended, as_is(), other_than(name), name);
    assert(t.suspended.map_values(as_is()) =~= t.suspended);
    assert(t.suspended.filter(other_than(name)).map_values(as_is()) =~= t.suspended.filter(
        other_than(name),
    ));
    let w = t.without(name);
    assert forall|i: int| 0 <= i < w.suspended.len() implies w.has(#[trigger] w.suspended[i]) by {
        let x = w.suspended[i];
        assert(w.suspended.contains(x));
        let k = choose|k: int| 0 <= k < t.suspended.len() && t.suspended[k] == x;
        assert(t.has(t.suspended[k]));
    }
}

/// Filtering out a text that `s` does not hold leaves `s` as it is.
proof fn lemma_filter_absent(s: Seq<Seq<char>>, name: Seq<char>)
    requires
        !s.contains(name),
    ensures
        s.filter(other_than(name)) == s,
    decreases s.len(),
{
    reveal(Seq::filter);
    if s.len() > 0 {
        let d = s.drop_last();
        assert(!d.contains(name)) by {
            if d.contains(name) {
                let k = choose|k: int| 0 <= k < d.len() && d[k] == name;
                assert(s[k] == name);
            }
        }
        lemma_filter_absent(d, name);
        assert(s.last() != name);
        assert(d.push(s.last()) =~= s);
    } else {
        assert(s.filter(other_than(name)) =~= s);
    }
}

/// Suspending an entry and resuming it leaves it active with the entries
/// untouched; where the entry was active before, the whole table is as it was.
pub proof fn lemma_suspend_then_resume(t: TableView, name: Seq<char>)
    requires
        t.wf(),
        t.has(name),
    ensures
        t.with_suspended(name).is_suspended(name),
        !t.with_suspended(name).resumed(name).is_suspended(name),
        t.with_suspended(name).resumed(name).entries == t.entries,
        !t.is_suspended(name) ==> t.with_suspended(name).resumed(name) == t,
{
    let u = t.with_suspended(name);
    lemma_filter_keys(u.suspended, as_is(), other_than(name), name);
    assert(u.suspended.filter(other_than(name)).map_values(as_is()) =~= u.suspended.filter(
        other_than(name),
    ));
    if !t.is_suspended(name) {
        assert(u.suspended.last() == name);
        assert(u.suspended[u.suspended.len() - 1] == name);
        t.suspended.lemma_filter_push(name, other_than(name));
        lemma_filter_absent(t.suspended, name);
    } else {
        let k = choose|k: int| 0 <= k < t.suspended.len() && t.suspended[k] == name;
        assert(u.suspended[k] == name);
    }
}

proof fn lemma_texts_push(s: Seq<String>, x: String)
    ensures
        texts(s.push(x)) == texts(s).push(x@),
{
    assert(texts(s.push(x)) =~= texts(s).push(x@));
}

proof fn lemma_views_push(s: Seq<Entry>, x: Entry)
    ensures
        entry_views(s.push(x)) == entry_views(s).push(x@),
        names_of(entry_views(s.push(x))) == names_of(entry_views(s)).push(x@.name),
{
    assert(entry_views(s.push(x)) =~= entry_views(s).push(x@));
    assert(names_of(entry_views(s.push(x))) =~= names_of(entry_views(s)).push(x@.name));
}

impl Table {
    /// An empty table with the thresholds 0, 3 and 10.
    pub fn new() -> (r: Table)
        ensures
            r@.wf(),
            r@.entries == Seq::<EntryView>::empty(),
            r@.suspended == Seq::<Seq<char>>::empty(),
            r@.t1 == 0,
            r@.t2 == 3,
            r@.t3 == 10,
    {
        let r = Table {
            entries: Vec::new(),
            suspended_entries: Vec::new(),
            t1: 0,
            t2: 3,
            t3: 10,
        };
        assert(r@.entries =~= Seq::<EntryView>::empty());
        assert(r@.suspended =~= Seq::<Seq<char>>::empty());
        r
    }

    /// The place of the entry named `name`.
    fn find(&self, name: &String) -> (r: Option<usize>)
        ensures
            r is Some <==> self@.has(name@),
            r matches Some(i) ==> i < self@.entries.len() && self@.entries[i as int].name == name@,
    {
        let mut i: usize = 0;
        while i < self.entries.len()
            invariant
                i <= self.entries@.len(),
                forall|k: int| 0 <= k < i ==> self@.entries[k].name != name@,
            decreases self.entries@.len() - i,
        {
            if *self.entries[i].name() == *name {
                assert(names_of(self@.entries)[i as int] == name@);
                return Some(i);
            }
            i = i + 1;
        }
        assert(!names_of(self@.entries).contains(name@)) by {
            if names_of(self@.entries).contains(name@) {
                let k = choose|k: int|
                    0 <= k < names_of(self@.entries).len() && names_of(self@.entries)[k] == name@;
                assert(self@.entries[k].name == name@);
            }
        }
        None
    }

    /// Whether the name `name` is suspended.
    fn suspended_has(&self, name: &String) -> (r: bool)
        ensures
            r == self@.is_suspended(name@),
    {
        let mut i: usize = 0;
        while i < self.suspended_entries.len()
            invariant
                i <= self.suspended_entries@.len(),
                forall|k: int| 0 <= k < i ==> self@.suspended[k] != name@,
            decreases self.suspended_entries@.len() - i,
        {
            if self.suspended_entries[i] == *name {
                assert(self@.suspended[i as int] == name@);
                return true;
            }
            i = i + 1;
        }
        false
    }

    /// Whether the table holds an entry named `name`.
    pub fn contains(&self, name: &String) -> (r: bool)
        ensures
            r == self@.has(name@),
    {
        self.find(name).is_some()
    }

    /// Whether `name` is suspended.
    pub fn is_suspended(&self, name: &String) -> (r: bool)
        ensures
            r == self@.is_suspended(name@),
    {
        self.suspended_has(name)
    }

    /// Adds `entry`, unless its name is taken.
    pub fn add_entry(&mut self, entry: Entry) -> (r: Result<(), ExistingEntry>)
        requires
            old(self)@.wf(),
        ensures
            final(self)@.wf(),
            r is Err <==> old(self)@.has(entry@.name),
            r matches Err(e) ==> e.name@ == entry@.name && final(self)@ == old(self)@,
            r is Ok ==> final(self)@ == (TableView {
                entries: old(self)@.entries.push(entry@),
                ..old(self)@
            }),
            final(self)@.has(entry@.name),
    {
        let name = entry.name().clone();
        if self.find(&name).is_some() {
            return Err(ExistingEntry { name });
        }
        let ghost before = self.entries@;
        self.entries.push(entry);
        proof {
            lemma_views_push(before, entry);
            lemma_push_keys(names_of(entry_views(before)), entry@.name);
            assert(names_of(self@.entries).contains(entry@.name));
            assert forall|i: int| 0 <= i < self@.suspended.len() implies self@.has(
                #[trigger] self@.suspended[i],
            ) by {
                assert(old(self)@.has(old(self)@.suspended[i]));
            }
        }
        Ok(())
    }

    fn entries_without(&self, name: &String) -> (r: Vec<Entry>)
        ensures
            entry_views(r@) == self@.entries.filter(not_named(name@)),
    {
        let mut out: Vec<Entry> = Vec::new();
        let mut i: usize = 0;
        let ghost s = self@.entries;
        assert(s.take(0) =~= Seq::<EntryView>::empty());
        assert(entry_views(out@) =~= Seq::<EntryView>::empty());
        proof {
            reveal(Seq::filter);
        }
        while i < self.entries.len()
            invariant
                i <= self.entries@.len(),
                s == self@.entries,
                entry_views(out@) == s.take(i as int).filter(not_named(name@)),
            decreases self.entries@.len() - i,
        {
            let ghost before = out@;
            assert(s.take(i as int + 1) =~= s.take(i as int).push(s[i as int]));
            proof {
                s.take(i as int).lemma_filter_push(s[i as int], not_named(name@));
            }
            if !(*self.entries[i].name() == *name) {
                let e = self.entries[i].duplicate();
                out.push(e);
                proof {
                    lemma_views_push(before, e);
                }
            }
            i = i + 1;
        }
        assert(s.take(s.len() as int) =~= s);
        out
    }

    fn suspended_without(&self, name: &String) -> (r: Vec<String>)
        ensures
            texts(r@) == self@.suspended.filter(other_than(name@)),
    {
        let mut out: Vec<String> = Vec::new();
        let mut i: usize = 0;
        let ghost s = self@.suspended;
        assert(s.take(0) =~= Seq::<Seq<char>>::empty());
        assert(texts(out@) =~= Seq::<Seq<char>>::empty());
        proof {
            reveal(Seq::filter);
        }
        while i < self.suspended_entries.len()
            invariant
                i <= self.suspended_entries@.len(),
                s == self@.suspended,
                texts(out@) == s.take(i as int).filter(other_than(name@)),
            decreases self.suspended_entries@.len() - i,
        {
            let ghost before = out@;
            assert(s.take(i as int + 1) =~= s.take(i as int).push(s[i as int]));
            proof {
                s.take(i as int).lemma_filter_push(s[i as int], other_than(name@));
            }
            if !(self.suspended_entries[i] == *name) {
                let x = self.suspended_entries[i].clone();
                out.push(x);
                proof {
                    lemma_texts_push(before, x);
                }
            }
            i = i + 1;
        }
        assert(s.take(s.len() as int) =~= s);
        out
    }

    /// Removes the entry named `name`, whether active or suspended.
    pub fn remove_entry(&mut self, name: String) -> (r: Result<(), MissingEntry>)
        requires
            old(self)@.wf(),
        ensures
            final(self)@.wf(),
            r is Err <==> !old(self)@.has(name@),
            r matches Err(e) ==> e.name@ == name@ && final(self)@ == old(self)@,
            r is Ok ==> final(self)@ == old(self)@.without(name@),
            !final(self)@.has(name@),
            !final(self)@.is_suspended(name@),
    {
        if self.find(&name).is_none() {
            proof {
                if old(self)@.is_suspended(name@) {
                    let k = choose|k: int|
                        0 <= k < old(self)@.suspended.len() && old(self)@.suspended[k] == name@;
                    assert(old(self)@.has(old(self)@.suspended[k]));
                }
            }
            return Err(MissingEntry { name });
        }
        let entries = self.entries_without(&name);
        let suspended = self.suspended_without(&name);
        self.entries = entries;
        self.suspended_entries = suspended;
        proof {
            lemma_without(old(self)@, name@);
            assert(self@ == old(self)@.without(name@));
        }
        Ok(())
    }

    /// Suspends the entry named `name`; a suspended entry stays suspended.
    pub fn suspend_entry(&mut self, name: String) -> (r: Result<(), MissingEntry>)
        requires
            old(self)@.wf(),
        ensures
            final(self)@.wf(),
            r is Err <==> !old(self)@.has(name@),
            r matches Err(e) ==> e.name@ == name@ && final(self)@ == old(self)@,
            r is Ok ==> final(self)@ == old(self)@.with_suspended(name@),
            r is Ok ==> final(self)@.is_suspended(name@),
    {
        if self.find(&name).is_none() {
            return Err(MissingEntry { name });
        }
        if !self.suspended_has(&name) {
            let ghost before = self.suspended_entries@;
            self.suspended_entries.push(name);
            proof {
                lemma_texts_push(before, name);
                lemma_push_keys(texts(before), name@);
                assert forall|i: int| 0 <= i < self@.suspended.len() implies self@.has(
                    #[trigger] self@.suspended[i],
                ) by {
                    if i < before.len() {
                        assert(old(self)@.has(old(self)@.suspended[i]));
                    }
                }
            }
        }
        Ok(())
    }

    /// Makes the suspended entry named `name` active again.
    pub fn resume_entry(&mut self, name: String) -> (r: Result<(), TableError>)
        requires
            old(self)@.wf(),
        ensures
            final(self)@.wf(),
            (r matches Err(TableError::Missing(e)) && e.name@ == name@) <==> !old(self)@.has(name@),
            (r matches Err(TableError::Unsuspended(e)) && e.name@ == name@) <==> (old(self)@.has(
                name@,
            ) && !old(self)@.is_suspended(name@)),
            r matches Err(TableError::Existing(_)) ==> false,
            r is Err ==> final(self)@ == old(self)@,
            r is Ok <==> old(self)@.is_suspended(name@),
            r is Ok ==> final(self)@ == old(self)@.resumed(name@),
            !final(self)@.is_suspended(name@),
    {
        if self.find(&name).is_none() {
            proof {
                if old(self)@.is_suspended(name@) {
                    let k = choose|k: int|
                        0 <= k < old(self)@.suspended.len() && old(self)@.suspended[k] == name@;
                    assert(old(self)@.has(old(self)@.suspended[k]));
                }
            }
            return Err(TableError::Missing(MissingEntry { name }));
        }
        if !self.suspended_has(&name) {
            return Err(TableError::Unsuspended(UnsuspendedEntry { name }));
        }
        let suspended = self.suspended_without(&name);
        self.suspended_entries = suspended;
        proof {
            lemma_without(old(self)@, name@);
            assert(self@.suspended == old(self)@.without(name@).suspended);
            assert forall|i: int| 0 <= i < self@.suspended.len() implies self@.has(
                #[trigger] self@.suspended[i],
            ) by {
                let x = self@.suspended[i];
                assert(old(self)@.without(name@).suspended.contains(x));
                assert(old(self)@.without(name@).is_suspended(x));
                assert(old(self)@.is_suspended(x));
                let k = choose|k: int|
                    0 <= k < old(self)@.suspended.len() && old(self)@.suspended[k] == x;
                assert(old(self)@.has(old(self)@.suspended[k]));
            }
        }
        Ok(())
    }

    proof fn lemma_found(&self, i: int, name: Seq<char>)
        requires
            self@.wf(),
            0 <= i < self@.entries.len(),
            self@.entries[i].name == name,
        ensures
            entry_named(self@.entries, name) == self@.entries[i],
            forall|j: int| 0 <= j < self@.entries.len() && j != i ==> #[trigger] self@.entries[j].name != name,
    {
        let s = self@.entries;
        assert(names_of(s)[i] == name);
        let c = choose|c: int| 0 <= c < s.len() && s[c].name == name;
        assert(names_of(s)[c] == name);
        assert forall|j: int| 0 <= j < s.len() && j != i implies #[trigger] s[j].name != name by {
            assert(names_of(s)[j] == s[j].name);
        }
    }

    /// Gives the entry named `name` a new interval, and brings its remaining
    /// time up to `now`.
    pub fn set_interval(&mut self, name: &String, interval: usize, now: Date) -> (r: Result<(), MissingEntry>)
        requires
            old(self)@.wf(),
        ensures
            final(self)@.wf(),
            r is Err <==> !old(self)@.has(name@),
            r matches Err(e) ==> e.name@ == name@ && final(self)@ == old(self)@,
            r is Ok ==> final(self)@ == (TableView {
                entries: updated_where(
                    old(self)@.entries,
                    name@,
                    |e: EntryView| (EntryView { interval: interval as nat, ..e }).recomputed(now@),
                ),
                ..old(self)@
            }),
    {
        match self.find(name) {
            None => Err(MissingEntry { name: name.clone() }),
            Some(i) => {
                proof {
                    self.lemma_found(i as int, name@);
                }
                self.entries[i].set_interval_at(interval, now);
                proof {
                    let f = |e: EntryView| (EntryView { interval: interval as nat, ..e }).recomputed(now@);
                    assert(self@.entries =~= updated_where(old(self)@.entries, name@, f));
                    assert(names_of(self@.entries) =~= names_of(old(self)@.entries));
                    assert forall|k: int| 0 <= k < self@.suspended.len() implies self@.has(
                        #[trigger] self@.suspended[k],
                    ) by {
                        assert(old(self)@.has(old(self)@.suspended[k]));
                    }
                }
                Ok(())
            },
        }
    }

    /// Gives the entry named `name` a new date of last contact, and brings its
    /// remaining time up to `now`.
    pub fn set_last_contact(&mut self, name: &String, last_contact: Date, now: Date) -> (r: Result<(), MissingEntry>)
        requires
            old(self)@.wf(),
        ensures
            final(self)@.wf(),
            r is Err <==> !old(self)@.has(name@),
            r matches Err(e) ==> e.name@ == name@ && final(self)@ == old(self)@,
            r is Ok ==> final(self)@ == (TableView {
                entries: updated_where(
                    old(self)@.entries,
                    name@,
                    |e: EntryView| (EntryView { last_contact: last_contact@, ..e }).recomputed(now@),
                ),
                ..old(self)@
            }),
    {
        match self.find(name) {
            None => Err(MissingEntry { name: name.clone() }),
            Some(i) => {
                proof {
                    self.lemma_found(i as int, name@);
                }
                self.entries[i].set_last_contact_at(last_contact, now);
                proof {
                    let f = |e: EntryView| (EntryView { last_contact: last_contact@, ..e }).recomputed(now@);
                    assert(self@.entries =~= updated_where(old(self)@.entries, name@, f));
                    assert(names_of(self@.entries) =~= names_of(old(self)@.entries));
                    assert forall|k: int| 0 <= k < self@.suspended.len() implies self@.has(
                        #[trigger] self@.suspended[k],
                    ) by {
                        assert(old(self)@.has(old(self)@.suspended[k]));
                    }
                }
                Ok(())
            },
        }
    }

    /// Renames an entry: removes it and adds it again under `new_name`, with
    /// its interval and date of last contact and the remaining time at `now`.
    /// The renamed entry is active.
    pub fn rename_entry(&mut self, old_name: &String, new_name: String, now: Date) -> (r: Result<(), TableError>)
        requires
            old(self)@.wf(),
        ensures
            final(self)@.wf(),
            (r matches Err(TableError::Missing(e)) && e.name@ == old_name@) <==> !old(self)@.has(
                old_name@,
            ),
            (r matches Err(TableError::Existing(e)) && e.name@ == new_name@) <==> (old(self)@.has(
                old_name@,
            ) && old(self)@.has(new_name@)),
            r matches Err(TableError::Unsuspended(_)) ==> false,
            r is Ok <==> old(self)@.has(old_name@) && !old(self)@.has(new_name@),
            r is Err ==> final(self)@ == old(self)@,
            r is Ok ==> final(self)@ == old(self)@.renamed(old_name@, new_name@, now@),
    {
        let i = match self.find(old_name) {
            None => {
                return Err(TableError::Missing(MissingEntry { name: old_name.clone() }));
            },
            Some(i) => i,
        };
        if self.find(&new_name).is_some() {
            return Err(TableError::Existing(ExistingEntry { name: new_name }));
        }
        proof {
            self.lemma_found(i as int, old_name@);
        }
        let interval = self.entries[i].interval();
        let last_contact = self.entries[i].last_contact();
        let entry = Entry::new_at(new_name, interval, last_contact, now);
        let removed = self.remove_entry(old_name.clone());
        proof {
            lemma_without(old(self)@, old_name@);
            assert(!self@.has(new_name@));
        }
        let added = self.add_entry(entry);
        proof {
            assert(removed is Ok && added is Ok);
        }
        Ok(())
    }

    /// Brings the remaining time of every entry up to `now`.
    pub fn recompute_all(&mut self, now: Date)
        requires
            old(self)@.wf(),
        ensures
            final(self)@.wf(),
            final(self)@ == old(self)@.recomputed(now@),
    {
        recompute_each(&mut self.entries, now);
        proof {
            assert(self@.entries =~= old(self)@.recomputed(now@).entries);
            assert(names_of(self@.entries) =~= names_of(old(self)@.entries));
            assert forall|k: int| 0 <= k < self@.suspended.len() implies self@.has(
                #[trigger] self@.suspended[k],
            ) by {
                assert(old(self)@.has(old(self)@.suspended[k]));
            }
        }
    }

    /// Brings the remaining time of every entry up to today's date.
    pub fn update_entries_par(&mut self)
        requires
            old(self)@.wf(),
        ensures
            final(self)@.wf(),
            exists|now: DateView| now.valid() && final(self)@ == #[trigger] old(self)@.recomputed(now),
    {
        let now = Date::today();
        self.recompute_all(now);
    }

    /// Copies of the entries that a listing with `filter` shows, least
    /// remaining time first, ties by name.
    pub fn sorted_entries(&self, filter: Filter) -> (r: Vec<Entry>)
        ensures
            sorted_by_key(entry_views(r@), true),
            entry_views(r@).to_multiset() == self@.listed(filter).to_multiset(),
    {
        let mut out: Vec<Entry> = Vec::new();
        let mut i: usize = 0;
        let ghost s = self@.entries;
        let ghost p = shown_in(self@, filter);
        assert(s.take(0) =~= Seq::<EntryView>::empty());
        assert(entry_views(out@) =~= Seq::<EntryView>::empty());
        proof {
            reveal(Seq::filter);
        }
        while i < self.entries.len()
            invariant
                i <= self.entries@.len(),
                s == self@.entries,
                p == shown_in(self@, filter),
                entry_views(out@) == s.take(i as int).filter(p),
            decreases self.entries@.len() - i,
        {
            let ghost before = out@;
            assert(s.take(i as int + 1) =~= s.take(i as int).push(s[i as int]));
            proof {
                s.take(i as int).lemma_filter_push(s[i as int], p);
            }
            let suspended = self.suspended_has(self.entries[i].name());
            let keep = match filter {
                Filter::All => true,
                Filter::ActiveOnly => !suspended,
                Filter::SuspendedOnly => suspended,
            };
            if keep {
                let e = self.entries[i].duplicate();
                out.push(e);
                proof {
                    lemma_views_push(before, e);
                }
            }
            i = i + 1;
        }
        assert(s.take(s.len() as int) =~= s);
        sort_entries(&mut out, true);
        out
    }

    /// Brings every entry up to `now`, then lists those that `filter` shows,
    /// least remaining time first, ties by name.
    pub fn list_sorted_at(&mut self, filter: Filter, now: Date) -> (r: Vec<Entry>)
        requires
            old(self)@.wf(),
        ensures
            final(self)@.wf(),
            final(self)@ == old(self)@.recomputed(now@),
            sorted_by_key(entry_views(r@), true),
            entry_views(r@).to_multiset() == final(self)@.listed(filter).to_multiset(),
    {
        self.recompute_all(now);
        self.sorted_entries(filter)
    }

    /// Brings every entry up to today's date, then lists those that `filter`
    /// shows, least remaining time first, ties by name.
    pub fn list_sorted(&mut self, filter: Filter) -> (r: Vec<Entry>)
        requires
            old(self)@.wf(),
        ensures
            final(self)@.wf(),
            exists|now: DateView| now.valid() && final(self)@ == #[trigger] old(self)@.recomputed(now),
            sorted_by_key(entry_views(r@), true),
            entry_views(r@).to_multiset() == final(self)@.listed(filter).to_multiset(),
    {
        let now = Date::today();
        self.list_sorted_at(filter, now)
    }

    /// The header line, then one line for each of `entries`, styled by this
    /// table's suspended names and thresholds.
    pub fn render_table(&self, entries: &Vec<Entry>) -> (r: Vec<Line>)
        ensures
            line_views(r@) == self@.rendered(entry_views(entries@)),
    {
        let mut out: Vec<Line> = Vec::new();
        out.push(Line { text: header_text(), style: Style::Header });
        let ghost s = entry_views(entries@);
        assert(s.take(0) =~= Seq::<EntryView>::empty());
        assert(line_views(out@) =~= self@.rendered(s.take(0)));
        let mut i: usize = 0;
        while i < entries.len()
            invariant
                i <= entries@.len(),
                s == entry_views(entries@),
                line_views(out@) == self@.rendered(s.take(i as int)),
            decreases entries@.len() - i,
        {
            let e = &entries[i];
            let style = if self.suspended_has(e.name()) {
                Style::Suspended
            } else {
                urgency(e.remaining_time(), self.t1, self.t2, self.t3)
            };
            let ghost before = out@;
            out.push(Line { text: e.row_text(), style });
            assert(s.take(i as int + 1) =~= s.take(i as int).push(s[i as int]));
            assert(line_views(out@) =~= line_views(before).push((entry_row(s[i as int]), style)));
            assert(self@.rendered(s.take(i as int + 1)) =~= self@.rendered(s.take(i as int)).push(
                (entry_row(s[i as int]), self@.style_of(s[i as int])),
            ));
            i = i + 1;
        }
        assert(s.take(s.len() as int) =~= s);
        out
    }

    /// The lines that show every entry, least remaining time first, ties by
    /// name, with remaining times as they stand.
    pub fn print_by_remaining_time(&self) -> (r: Vec<Line>)
        ensures
            exists|s: Seq<EntryView>|
                sorted_by_key(s, true) && s.to_multiset() == self@.listed(Filter::All).to_multiset()
                    && line_views(r@) == #[trigger] self@.rendered(s),
    {
        let sorted = self.sorted_entries(Filter::All);
        self.render_table(&sorted)
    }

    /// The table as plain values, for storing.
    pub fn to_parts(&self) -> (r: StoredTable)
        ensures
            r@ == self@,
    {
        let mut entries: Vec<Entry> = Vec::new();
        let mut i: usize = 0;
        while i < self.entries.len()
            invariant
                i <= self.entries@.len(),
                entry_views(entries@) == self@.entries.take(i as int),
            decreases self.entries@.len() - i,
        {
            let ghost before = entries@;
            let e = self.entries[i].duplicate();
            entries.push(e);
            proof {
                lemma_views_push(before, e);
            }
            assert(self@.entries.take(i as int + 1) =~= self@.entries.take(i as int).push(e@));
            i = i + 1;
        }
        let mut suspended: Vec<String> = Vec::new();
        let mut j: usize = 0;
        while j < self.suspended_entries.len()
            invariant
                j <= self.suspended_entries@.len(),
                entry_views(entries@) == self@.entries.take(self@.entries.len() as int),
                texts(suspended@) == self@.suspended.take(j as int),
            decreases self.suspended_entries@.len() - j,
        {
            let ghost before = suspended@;
            let x = self.suspended_entries[j].clone();
            suspended.push(x);
            proof {
                lemma_texts_push(before, x);
            }
            assert(self@.suspended.take(j as int + 1) =~= self@.suspended.take(j as int).push(x@));
            j = j + 1;
        }
        assert(self@.entries.take(self@.entries.len() as int) =~= self@.entries);
        assert(self@.suspended.take(self@.suspended.len() as int) =~= self@.suspended);
        StoredTable { entries, suspended, t1: self.t1, t2: self.t2, t3: self.t3 }
    }

    /// Storing a table and loading it back: the stored parts of a
    /// well-formed table always pass the checks of loading, and give back an
    /// equal table.
    pub fn stored_round_trip(&self) -> (r: Table)
        requires
            self@.wf(),
        ensures
            r@ == self@,
    {
        match Table::from_parts(self.to_parts()) {
            Ok(t) => t,
            Err(_) => {
                proof {
                    assert(false);
                }
                Table::new()
            },
        }
    }

    /// Whether every suspended name is an entry's.
    fn suspended_known(&self) -> (r: bool)
        ensures
            r == forall|i: int| 0 <= i < self@.suspended.len() ==> self@.has(#[trigger] self@.suspended[i]),
    {
        let mut i: usize = 0;
        while i < self.suspended_entries.len()
            invariant
                i <= self.suspended_entries@.len(),
                forall|k: int| 0 <= k < i ==> self@.has(#[trigger] self@.suspended[k]),
            decreases self.suspended_entries@.len() - i,
        {
            assert(self@.suspended[i as int] == self.suspended_entries@[i as int]@);
            if self.find(&self.suspended_entries[i]).is_none() {
                return false;
            }
            i = i + 1;
        }
        true
    }

    /// The table that `stored` describes, or `CorruptStore` where it breaks
    /// the table's rules: a name twice, a suspended name twice or without an
    /// entry, or thresholds that do not rise.
    pub fn from_parts(stored: StoredTable) -> (r: Result<Table, KitError>)
        ensures
            r is Ok <==> stored@.wf(),
            r matches Ok(t) ==> t@ == stored@,
            r matches Err(e) ==> e == KitError::CorruptStore,
    {
        let ghost v = stored@;
        let table = Table {
            entries: stored.entries,
            suspended_entries: stored.suspended,
            t1: stored.t1,
            t2: stored.t2,
            t3: stored.t3,
        };
        assert(table@ == v);
        if !(table.t1 < table.t2 && table.t2 < table.t3) {
            return Err(KitError::CorruptStore);
        }
        if !distinct_names(&table.entries) || !distinct_texts(&table.suspended_entries) {
            return Err(KitError::CorruptStore);
        }
        if !table.suspended_known() {
            return Err(KitError::CorruptStore);
        }
        Ok(table)
    }
}

/// Whether no two of `v` have the same name.
fn distinct_names(v: &Vec<Entry>) -> (r: bool)
    ensures
        r == names_of(entry_views(v@)).no_duplicates(),
{
    let ghost ns = names_of(entry_views(v@));
    let mut i: usize = 0;
    while i < v.len()
        invariant
            i <= v@.len(),
            ns == names_of(entry_views(v@)),
            forall|a: int, b: int| 0 <= a < b < i ==> ns[a] != ns[b],
        decreases v@.len() - i,
    {
        let mut j: usize = 0;
        while j < i
            invariant
                j <= i < v@.len(),
                ns == names_of(entry_views(v@)),
                forall|a: int, b: int| 0 <= a < b < i ==> ns[a] != ns[b],
                forall|a: int| 0 <= a < j ==> ns[a] != ns[i as int],
            decreases i - j,
        {
            if *v[j].name() == *v[i].name() {
                assert(ns[j as int] == ns[i as int]);
                return false;
            }
            j = j + 1;
        }
        i = i + 1;
    }
    assert forall|a: int, b: int| 0 <= a < ns.len() && 0 <= b < ns.len() && a != b implies ns[a]
        != ns[b] by {
        if a > b {
            assert(ns[b] != ns[a]);
        }
    }
    true
}

/// Whether no two of `v` are the same text.
fn distinct_texts(v: &Vec<String>) -> (r: bool)
    ensures
        r == texts(v@).no_duplicates(),
{
    let ghost ns = texts(v@);
    let mut i: usize = 0;
    while i < v.len()
        invariant
            i <= v@.len(),
            ns == texts(v@),
            forall|a: int, b: int| 0 <= a < b < i ==> ns[a] != ns[b],
        decreases v@.len() - i,
    {
        let mut j: usize = 0;
        while j < i
            invariant
                j <= i < v@.len(),
                ns == texts(v@),
                forall|a: int, b: int| 0 <= a < b < i ==> ns[a] != ns[b],
                forall|a: int| 0 <= a < j ==> ns[a] != ns[i as int],
            decreases i - j,
        {
            if v[j] == v[i] {
                assert(ns[j as int] == ns[i as int]);
                return false;
            }
            j = j + 1;
        }
        i = i + 1;
    }
    assert forall|a: int, b: int| 0 <= a < ns.len() && 0 <= b < ns.len() && a != b implies ns[a]
        != ns[b] by {
        if a > b {
            assert(ns[b] != ns[a]);
        }
    }
    true
}

} // verus!
