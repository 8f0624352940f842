//! The order in which entries are listed: by remaining time, then by name.

use crate::entry::{entry_views, Entry, EntryView};
use vstd::prelude::*;
use vstd::multiset::group_multiset_axioms;
use vstd::multiset::lemma_multiset_empty_len;
use vstd::seq_lib::to_multiset_build;
use vstd::seq_lib::to_multiset_insert;
use vstd::seq_lib::to_multiset_len;

verus! {

/// `a` comes strictly before `b` in the lexicographic order of characters,
/// the order of `String`'s comparison.
pub open spec fn name_before(a: Seq<char>, b: Seq<char>) -> bool
    decreases a.len(),
{
    if a.len() == 0 {
        b.len() > 0
    } else if b.len() == 0 {
        false
    } else if a[0] != b[0] {
        a[0] < b[0]
    } else {
        name_before(a.drop_first(), b.drop_first())
    }
}

proof fn lemma_name_before_asymmetric(a: Seq<char>, b: Seq<char>)
    ensures
        name_before(a, b) ==> !name_before(b, a),
    decreases a.len(),
{
    if a.len() > 0 && b.len() > 0 && a[0] == b[0] {
        lemma_name_before_asymmetric(a.drop_first(), b.drop_first());
    }
}

/// `a` is listed before `b`: it has less remaining time, or as much and a
/// name that comes first.
pub open spec fn key_before(a: EntryView, b: EntryView) -> bool {
    a.remaining_time < b.remaining_time || (a.remaining_time == b.remaining_time && name_before(
        a.name,
        b.name,
    ))
}

proof fn lemma_key_before_asymmetric(a: EntryView, b: EntryView)
    ensures
        key_before(a, b) ==> !key_before(b, a),
{
    lemma_name_before_asymmetric(a.name, b.name);
}

/// In the chosen direction, `b` belongs before `a`.
pub open spec fn out_of_order(a: EntryView, b: EntryView, ascending: bool) -> bool {
    if ascending {
        key_before(b, a)
    } else {
        key_before(a, b)
    }
}

/// No two neighbours of `s` stand out of order in the chosen direction.
pub open spec fn sorted_by_key(s: Seq<EntryView>, ascending: bool) -> bool {
    forall|i: int| 0 <= i < s.len() - 1 ==> !#[trigger] out_of_order(s[i], s[i + 1], ascending)
}

proof fn lemma_name_before_transitive(a: Seq<char>, b: Seq<char>, c: Seq<char>)
    requires
        name_before(a, b),
        name_before(b, c),
    ensures
        name_before(a, c),
    decreases a.len(),
{
    if a.len() > 0 && b.len() > 0 && c.len() > 0 && a[0] == b[0] && b[0] == c[0] {
        lemma_name_before_transitive(a.drop_first(), b.drop_first(), c.drop_first());
    }
}

proof fn lemma_name_before_total(a: Seq<char>, b: Seq<char>)
    requires
        a != b,
    ensures
        name_before(a, b) || name_before(b, a),
    decreases a.len(),
{
    if a.len() == 0 && b.len() == 0 {
        assert(a =~= b);
    } else if a.len() > 0 && b.len() > 0 && a[0] == b[0] {
        if a.drop_first() == b.drop_first() {
            assert(a =~= seq![a[0]] + a.drop_first());
            assert(b =~= seq![b[0]] + b.drop_first());
        }
        lemma_name_before_total(a.drop_first(), b.drop_first());
    }
}

/// Names that do not descend from `a` to `b` and from `b` to `c` do not
/// descend from `a` to `c`.
proof fn lemma_name_order_chain(a: Seq<char>, b: Seq<char>, c: Seq<char>)
    requires
        !name_before(b, a),
        !name_before(c, b),
    ensures
        !name_before(c, a),
{
    if a != b {
        lemma_name_before_total(a, b);
    }
    if b != c {
        lemma_name_before_total(b, c);
    }
    if a != b && b != c {
        lemma_name_before_transitive(a, b, c);
    }
    lemma_name_before_asymmetric(a, c);
}

/// In an ascending listing, remaining time never decreases from an entry to
/// any later one, and between entries with as much remaining time, names
/// never descend.
pub proof fn lemma_ascending_order(s: Seq<EntryView>, i: int, j: int)
    requires
        sorted_by_key(s, true),
        0 <= i <= j < s.len(),
    ensures
        s[i].remaining_time <= s[j].remaining_time,
        s[i].remaining_time == s[j].remaining_time ==> !name_before(s[j].name, s[i].name),
    decreases j - i,
{
    if i < j {
        lemma_ascending_order(s, i, j - 1);
        assert(!out_of_order(s[j - 1], s[(j - 1) + 1], true));
        if s[i].remaining_time == s[j].remaining_time {
            lemma_name_order_chain(s[i].name, s[j - 1].name, s[j].name);
        }
    } else {
        lemma_name_before_asymmetric(s[i].name, s[i].name);
    }
}

/// Whether `a` comes strictly before `b`.
pub fn name_less(a: &str, b: &str) -> (r: bool)
    ensures
        r == name_before(a@, b@),
{
    let la = a.unicode_len();
    let lb = b.unicode_len();
    let mut i: usize = 0;
    assert(a@.skip(0) =~= a@);
    assert(b@.skip(0) =~= b@);
    while i < la && i < lb
        invariant
            la == a@.len(),
            lb == b@.len(),
            i <= la,
            i <= lb,
            name_before(a@, b@) == name_before(a@.skip(i as int), b@.skip(i as int)),
        decreases la - i,
    {
        let ca = a.get_char(i);
        let cb = b.get_char(i);
        assert(a@.skip(i as int)[0] == ca);
        assert(b@.skip(i as int)[0] == cb);
        if ca != cb {
            return ca < cb;
        }
        assert(a@.skip(i as int).drop_first() =~= a@.skip(i as int + 1));
        assert(b@.skip(i as int).drop_first() =~= b@.skip(i as int + 1));
        i = i + 1;
    }
    i == la && i < lb
}

/// Whether `a` is listed before `b`.
pub fn entry_before(a: &Entry, b: &Entry) -> (r: bool)
    ensures
        r == key_before(a@, b@),
{
    let ra = a.remaining_time();
    let rb = b.remaining_time();
    if ra != rb {
        ra < rb
    } else {
        name_less(a.name().as_str(), b.name().as_str())
    }
}

fn misplaced(a: &Entry, b: &Entry, ascending: bool) -> (r: bool)
    ensures
        r == out_of_order(a@, b@, ascending),
{
    if ascending {
        entry_before(b, a)
    } else {
        entry_before(a, b)
    }
}

/// Puts `x` into the sorted `v` where it belongs.
fn insert_sorted(v: &mut Vec<Entry>, x: Entry, ascending: bool)
    requires
        sorted_by_key(entry_views(old(v)@), ascending),
    ensures
        sorted_by_key(entry_views(final(v)@), ascending),
        entry_views(final(v)@).to_multiset() == entry_views(old(v)@).to_multiset().insert(x@),
{
    let ghost s = entry_views(v@);
    let mut p: usize = v.len();
    while p > 0 && misplaced(&v[p - 1], &x, ascending)
        invariant
            p <= v@.len(),
            s == entry_views(v@),
            forall|j: int| p <= j < s.len() ==> #[trigger] out_of_order(s[j], x@, ascending),
        decreases p,
    {
        p = p - 1;
    }
    let ghost xv = x@;
    assert(p > 0 ==> s[p - 1] == v@[p - 1]@);
    assert(p > 0 ==> !out_of_order(s[p - 1], xv, ascending));
    v.insert(p, x);
    let ghost t = entry_views(v@);
    assert(t =~= s.insert(p as int, xv));
    proof {
        to_multiset_insert(s, p as int, xv);
        assert forall|i: int| 0 <= i < t.len() - 1 implies !#[trigger] out_of_order(
            t[i],
            t[i + 1],
            ascending,
        ) by {
            if i + 1 < p {
                assert(t[i] == s[i] && t[i + 1] == s[i + 1]);
                assert(!out_of_order(s[i], s[i + 1], ascending));
            } else if i + 1 == p {
                assert(t[i] == s[i] && t[i + 1] == xv);
            } else if i == p {
                assert(t[i] == xv && t[i + 1] == s[i]);
                assert(out_of_order(s[i], xv, ascending));
                lemma_key_before_asymmetric(xv, s[i]);
                lemma_key_before_asymmetric(s[i], xv);
            } else {
                let k = i - 1;
                assert(t[i] == s[k] && t[i + 1] == s[k + 1]);
                assert(!out_of_order(s[k], s[k + 1], ascending));
            }
        }
    }
}

/// Sorts `v` by remaining time, then name, in the chosen direction.
pub fn sort_entries(v: &mut Vec<Entry>, ascending: bool)
    ensures
        sorted_by_key(entry_views(final(v)@), ascending),
        entry_views(final(v)@).to_multiset() == entry_views(old(v)@).to_multiset(),
{
    let ghost total = entry_views(v@).to_multiset();
    let mut out: Vec<Entry> = Vec::new();
    assert(entry_views(out@) =~= Seq::<EntryView>::empty());
    proof {
        broadcast use group_multiset_axioms;
        to_multiset_len(entry_views(out@));
        lemma_multiset_empty_len(entry_views(out@).to_multiset());
        assert(entry_views(out@).to_multiset().add(entry_views(v@).to_multiset()) =~= total);
    }
    while v.len() > 0
        invariant
            sorted_by_key(entry_views(out@), ascending),
            entry_views(out@).to_multiset().add(entry_views(v@).to_multiset()) == total,
        decreases v@.len(),
    {
        let ghost before = entry_views(v@);
        let x = v.pop().unwrap();
        proof {
            assert(before =~= entry_views(v@).push(x@));
            to_multiset_build(entry_views(v@), x@);
        }
        insert_sorted(&mut out, x, ascending);
        proof {
            broadcast use group_multiset_axioms;
            assert(entry_views(out@).to_multiset().add(entry_views(v@).to_multiset()) =~= total);
        }
    }
    proof {
        broadcast use group_multiset_axioms;
        assert(entry_views(v@) =~= Seq::<EntryView>::empty());
        to_multiset_len(entry_views(v@));
        lemma_multiset_empty_len(entry_views(v@).to_multiset());
        assert(entry_views(out@).to_multiset() =~= total);
    }
    *v = out;
}

/// A list of entries that can be put in order of remaining time.
#[derive(Debug)]
pub struct EntryVec(pub Vec<Entry>);

impl EntryVec {
    /// Sorts the entries by remaining time, least first; entries with as much
    /// remaining time by name.
    pub fn sort_by_time_ascending(&mut self)
        ensures
            sorted_by_key(entry_views(final(self).0@), true),
            entry_views(final(self).0@).to_multiset() == entry_views(old(self).0@).to_multiset(),
    {
        sort_entries(&mut self.0, true);
    }

    /// Sorts the entries by remaining time, most first; entries with as much
    /// remaining time by name, last first.
    pub fn sort_by_time_descending(&mut self)
        ensures
            sorted_by_key(entry_views(final(self).0@), false),
            entry_views(final(self).0@).to_multiset() == entry_views(old(self).0@).to_multiset(),
    {
        sort_entries(&mut self.0, false);
    }
}

} // verus!
