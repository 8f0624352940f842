use chrono::NaiveDate;
use kit::{
    header_text, urgency, Date, Entry, EntryVec, Filter, KitError, Style, StoredTable, Table,
    TableError,
};

fn ymd(y: i32, m: u32, d: u32) -> Date {
    Date::from_ymd(y, m, d).unwrap()
}

fn names(entries: &[Entry]) -> Vec<String> {
    entries.iter().map(|e| e.name().clone()).collect()
}

#[test]
fn test_entry_vec_sort_time_descending() {
    let e1 = Entry::new("Martin".to_string(), 30, Date::today());
    let e2 = Entry::new("Daniel".to_string(), 30, ymd(2020, 3, 20));
    let e3 = Entry::new("Baniel".to_string(), 30, ymd(2020, 5, 20));
    let mut entries = EntryVec(vec![e2, e1, e3]);
    entries.sort_by_time_descending();
    assert_eq!(
        entries.0.iter().map(|e| e.remaining_time()).collect::<Vec<_>>()[0],
        30
    );
}

#[test]
fn test_entry_vec_sort_time_ascending() {
    let e1 = Entry::new("Martin".to_string(), 30, Date::today());
    let e2 = Entry::new("Daniel".to_string(), 30, ymd(2020, 3, 20));
    let e3 = Entry::new("Baniel".to_string(), 30, ymd(2020, 5, 20));
    let mut entries = EntryVec(vec![e2, e1, e3]);
    entries.sort_by_time_ascending();
    assert_eq!(
        entries.0.iter().map(|e| e.remaining_time()).collect::<Vec<_>>()[2],
        30
    );
}

#[test]
fn test_remaining_time() {
    let mut e1 = Entry::new("Martin".to_string(), 30, Date::today());
    e1.update_remaining_time();
    assert_eq!(30, e1.remaining_time());
}

#[test]
fn test_update_through_table_par() {
    let today = chrono::Utc::now().date_naive();
    let remaining_daniel =
        30 - today.signed_duration_since(NaiveDate::from_ymd_opt(2020, 3, 20).unwrap()).num_days();
    let e2 = Entry::new("Daniel".to_string(), 30, ymd(2020, 3, 20));
    let mut table = Table::new();
    table.add_entry(e2).unwrap();
    table.update_entries_par();
    let daniel = table.sorted_entries(Filter::All);
    assert_eq!(remaining_daniel as i128, daniel[0].remaining_time());
}

#[test]
fn test_print() {
    let e1 = Entry::new("Martin".to_string(), 30, Date::today());
    let e2 = Entry::new("Daniel".to_string(), 30, ymd(2020, 3, 20));
    let e3 = Entry::new("Thorben".to_string(), 35, ymd(2020, 3, 20));
    let mut table = Table::new();
    table.add_entry(e2).unwrap();
    table.add_entry(e1).unwrap();
    table.add_entry(e3).unwrap();
    let lines = table.print_by_remaining_time();
    assert_eq!(lines.len(), 4);
    assert_eq!(lines[0].style, Style::Header);
    assert!(lines[1].text.starts_with("Daniel"));
    assert!(lines[2].text.starts_with("Thorben"));
    assert!(lines[3].text.starts_with("Martin"));
}

#[test]
fn remaining_time_after_creation_and_recompute() {
    let e = Entry::new_at("X".to_string(), 10, ymd(2020, 3, 20), ymd(2020, 3, 20));
    assert_eq!(e.remaining_time(), 10);
    let mut table = Table::new();
    table.add_entry(e).unwrap();
    table.recompute_all(ymd(2020, 3, 25));
    let listed = table.sorted_entries(Filter::All);
    assert_eq!(listed[0].remaining_time(), 5);
    table.recompute_all(ymd(2020, 4, 5));
    assert_eq!(table.sorted_entries(Filter::All)[0].remaining_time(), -6);
    table.recompute_all(ymd(2020, 4, 5));
    assert_eq!(table.sorted_entries(Filter::All)[0].remaining_time(), -6);
}

#[test]
fn remaining_time_with_a_future_last_contact() {
    let mut e = Entry::new_at("F".to_string(), 3, ymd(2020, 1, 10), ymd(2020, 1, 1));
    assert_eq!(e.remaining_time(), 12);
    e.update_remaining_time_at(ymd(2020, 1, 10));
    assert_eq!(e.remaining_time(), 3);
}

#[test]
fn remaining_time_with_the_largest_interval() {
    let e = Entry::new_at("L".to_string(), usize::MAX, ymd(2000, 1, 1), ymd(2000, 1, 2));
    assert_eq!(e.remaining_time(), usize::MAX as i128 - 1);
}

#[test]
fn scenario_add_duplicate_remove_suspend_resume() {
    let now = Date::today();
    let mut table = Table::new();
    table
        .add_entry(Entry::new_at("Martin".to_string(), 30, now, now))
        .unwrap();
    assert_eq!(table.sorted_entries(Filter::All)[0].remaining_time(), 30);
    let dup = table.add_entry(Entry::new_at("Martin".to_string(), 10, now, now));
    assert_eq!(dup.unwrap_err().name, "Martin");
    let missing = table.remove_entry("Daniel".to_string());
    assert_eq!(missing.unwrap_err().name, "Daniel");
    table.suspend_entry("Martin".to_string()).unwrap();
    assert!(table.list_sorted_at(Filter::ActiveOnly, now).is_empty());
    assert_eq!(names(&table.list_sorted_at(Filter::SuspendedOnly, now)), vec!["Martin"]);
    table.resume_entry("Martin".to_string()).unwrap();
    match table.resume_entry("Martin".to_string()) {
        Err(TableError::Unsuspended(e)) => assert_eq!(e.name, "Martin"),
        other => panic!("expected a refusal as not suspended, got {:?}", other),
    }
}

#[test]
fn scenario_recompute_five_days_later() {
    let mut table = Table::new();
    kit::add(&mut table, "X".to_string(), "10", "2020-03-20", ymd(2020, 3, 20)).unwrap();
    let listed = table.list_sorted_at(Filter::All, ymd(2020, 3, 25));
    assert_eq!(listed[0].remaining_time(), 5);
}

#[test]
fn duplicate_leaves_existing_entry_unchanged() {
    let mut table = Table::new();
    table
        .add_entry(Entry::new_at("A".to_string(), 7, ymd(2021, 1, 1), ymd(2021, 1, 3)))
        .unwrap();
    assert!(table
        .add_entry(Entry::new_at("A".to_string(), 99, ymd(2020, 1, 1), ymd(2021, 1, 3)))
        .is_err());
    let listed = table.sorted_entries(Filter::All);
    assert_eq!(listed.len(), 1);
    assert_eq!(listed[0].interval(), 7);
    assert_eq!(listed[0].last_contact(), ymd(2021, 1, 1));
    assert_eq!(listed[0].remaining_time(), 5);
}

#[test]
fn remove_deletes_from_entries_and_suspended() {
    let now = ymd(2022, 6, 1);
    let mut table = Table::new();
    table.add_entry(Entry::new_at("A".to_string(), 1, now, now)).unwrap();
    table.add_entry(Entry::new_at("B".to_string(), 2, now, now)).unwrap();
    table.suspend_entry("A".to_string()).unwrap();
    table.remove_entry("A".to_string()).unwrap();
    assert!(!table.contains(&"A".to_string()));
    assert!(!table.is_suspended(&"A".to_string()));
    assert_eq!(names(&table.sorted_entries(Filter::All)), vec!["B"]);
    assert!(table.sorted_entries(Filter::SuspendedOnly).is_empty());
    assert!(table.remove_entry("A".to_string()).is_err());
}

#[test]
fn suspend_is_idempotent_and_needs_an_entry() {
    let now = ymd(2022, 6, 1);
    let mut table = Table::new();
    table.add_entry(Entry::new_at("A".to_string(), 1, now, now)).unwrap();
    table.suspend_entry("A".to_string()).unwrap();
    table.suspend_entry("A".to_string()).unwrap();
    assert!(table.is_suspended(&"A".to_string()));
    assert_eq!(table.suspend_entry("Z".to_string()).unwrap_err().name, "Z");
    table.resume_entry("A".to_string()).unwrap();
    assert!(!table.is_suspended(&"A".to_string()));
    match table.resume_entry("Z".to_string()) {
        Err(TableError::Missing(e)) => assert_eq!(e.name, "Z"),
        other => panic!("expected a missing name, got {:?}", other),
    }
}

#[test]
fn list_sorted_orders_by_remaining_then_name() {
    let now = ymd(2022, 6, 10);
    let mut table = Table::new();
    table.add_entry(Entry::new_at("Carl".to_string(), 5, ymd(2022, 6, 10), now)).unwrap();
    table.add_entry(Entry::new_at("Bert".to_string(), 5, ymd(2022, 6, 10), now)).unwrap();
    table.add_entry(Entry::new_at("Anna".to_string(), 20, ymd(2022, 6, 1), now)).unwrap();
    table.add_entry(Entry::new_at("Dora".to_string(), 1, ymd(2022, 5, 1), now)).unwrap();
    let listed = table.list_sorted_at(Filter::All, now);
    assert_eq!(names(&listed), vec!["Dora", "Bert", "Carl", "Anna"]);
    let times: Vec<i128> = listed.iter().map(|e| e.remaining_time()).collect();
    assert_eq!(times, vec![-39, 5, 5, 11]);
}

#[test]
fn entry_vec_sorts_both_ways() {
    let now = ymd(2022, 6, 10);
    let mut v = EntryVec(vec![
        Entry::new_at("b".to_string(), 3, now, now),
        Entry::new_at("a".to_string(), 3, now, now),
        Entry::new_at("c".to_string(), 1, now, now),
    ]);
    v.sort_by_time_ascending();
    assert_eq!(names(&v.0), vec!["c", "a", "b"]);
    v.sort_by_time_descending();
    assert_eq!(names(&v.0), vec!["b", "a", "c"]);
    let mut empty = EntryVec(Vec::new());
    empty.sort_by_time_ascending();
    assert!(empty.0.is_empty());
}

#[test]
fn names_compare_by_characters() {
    assert!(kit::name_less("Baniel", "Daniel"));
    assert!(!kit::name_less("Daniel", "Baniel"));
    assert!(kit::name_less("Dan", "Daniel"));
    assert!(!kit::name_less("Dan", "Dan"));
    assert!(kit::name_less("Zed", "anna"));
}

#[test]
fn stored_parts_round_trip() {
    let now = ymd(2022, 6, 10);
    let mut table = Table::new();
    table.add_entry(Entry::new_at("A".to_string(), 4, ymd(2022, 6, 1), now)).unwrap();
    table.add_entry(Entry::new_at("B".to_string(), 9, ymd(2021, 2, 3), now)).unwrap();
    table.suspend_entry("B".to_string()).unwrap();
    let parts = table.to_parts();
    assert_eq!(parts.suspended, vec!["B".to_string()]);
    assert_eq!((parts.t1, parts.t2, parts.t3), (0, 3, 10));
    let back = Table::from_parts(parts).unwrap();
    assert_eq!(names(&back.sorted_entries(Filter::All)), names(&table.sorted_entries(Filter::All)));
    assert!(back.is_suspended(&"B".to_string()));
    let again = table.stored_round_trip();
    assert_eq!(names(&again.sorted_entries(Filter::SuspendedOnly)), vec!["B"]);
}

#[test]
fn corrupt_stored_tables_are_refused() {
    let now = ymd(2022, 6, 10);
    let two_a = StoredTable {
        entries: vec![
            Entry::new_at("A".to_string(), 1, now, now),
            Entry::new_at("A".to_string(), 2, now, now),
        ],
        suspended: vec![],
        t1: 0,
        t2: 3,
        t3: 10,
    };
    assert!(matches!(Table::from_parts(two_a), Err(KitError::CorruptStore)));
    let unknown_suspended = StoredTable {
        entries: vec![Entry::new_at("A".to_string(), 1, now, now)],
        suspended: vec!["B".to_string()],
        t1: 0,
        t2: 3,
        t3: 10,
    };
    assert!(matches!(Table::from_parts(unknown_suspended), Err(KitError::CorruptStore)));
    let twice_suspended = StoredTable {
        entries: vec![Entry::new_at("A".to_string(), 1, now, now)],
        suspended: vec!["A".to_string(), "A".to_string()],
        t1: 0,
        t2: 3,
        t3: 10,
    };
    assert!(matches!(Table::from_parts(twice_suspended), Err(KitError::CorruptStore)));
    let bad_thresholds = StoredTable {
        entries: vec![],
        suspended: vec![],
        t1: 5,
        t2: 3,
        t3: 10,
    };
    assert!(matches!(Table::from_parts(bad_thresholds), Err(KitError::CorruptStore)));
    let restored = StoredTable {
        entries: vec![Entry::restore("A".to_string(), 1, now, 42)],
        suspended: vec!["A".to_string()],
        t1: -1,
        t2: 0,
        t3: 1,
    };
    let t = Table::from_parts(restored).unwrap();
    assert_eq!(t.sorted_entries(Filter::All)[0].remaining_time(), 42);
}

#[test]
fn urgency_tiers() {
    assert_eq!(urgency(-1, 0, 3, 10), Style::Overdue);
    assert_eq!(urgency(0, 0, 3, 10), Style::DueSoon);
    assert_eq!(urgency(2, 0, 3, 10), Style::DueSoon);
    assert_eq!(urgency(3, 0, 3, 10), Style::Neutral);
    assert_eq!(urgency(10, 0, 3, 10), Style::Neutral);
    assert_eq!(urgency(11, 0, 3, 10), Style::Relaxed);
}

#[test]
fn rows_are_fixed_width() {
    let e = Entry::new_at("Martin".to_string(), 30, ymd(2020, 3, 20), ymd(2020, 3, 25));
    assert_eq!(
        e.row_text(),
        "Martin           25               2020-03-20       30             "
    );
    assert_eq!(
        header_text(),
        "Name             Remaining        Last             Interval       "
    );
    let long = Entry::new_at("Maximilian-Alexander".to_string(), 1, ymd(2020, 3, 20), ymd(2020, 4, 25));
    assert_eq!(
        long.row_text(),
        "Maximilian-Alexander  -35              2020-03-20       1              "
    );
}

#[test]
fn rendered_lines_style_suspended_entries_plainly() {
    let now = ymd(2020, 3, 25);
    let mut table = Table::new();
    table.add_entry(Entry::new_at("Late".to_string(), 1, ymd(2020, 3, 1), now)).unwrap();
    table.add_entry(Entry::new_at("Calm".to_string(), 100, ymd(2020, 3, 1), now)).unwrap();
    table.add_entry(Entry::new_at("Away".to_string(), 1, ymd(2020, 3, 1), now)).unwrap();
    table.suspend_entry("Away".to_string()).unwrap();
    let lines = kit::view(&mut table, now);
    let styles: Vec<Style> = lines.iter().map(|l| l.style).collect();
    assert_eq!(styles, vec![Style::Header, Style::Suspended, Style::Overdue, Style::Relaxed]);
    assert!(lines[1].text.starts_with("Away "));
    let active = kit::view_active(&mut table, now);
    assert_eq!(active.len(), 3);
    let inactive = kit::view_inactive(&mut table, now);
    assert_eq!(inactive.len(), 2);
    assert!(inactive[1].text.starts_with("Away "));
}

#[test]
fn set_interval_and_last_contact() {
    let now = ymd(2020, 3, 25);
    let mut table = Table::new();
    table.add_entry(Entry::new_at("X".to_string(), 30, ymd(2020, 3, 25), now)).unwrap();
    table.set_interval(&"X".to_string(), 10, now).unwrap();
    assert_eq!(table.sorted_entries(Filter::All)[0].remaining_time(), 10);
    table.set_last_contact(&"X".to_string(), ymd(2020, 3, 20), now).unwrap();
    assert_eq!(table.sorted_entries(Filter::All)[0].remaining_time(), 5);
    assert_eq!(table.set_interval(&"Y".to_string(), 1, now).unwrap_err().name, "Y");
    assert_eq!(
        table.set_last_contact(&"Y".to_string(), now, now).unwrap_err().name,
        "Y"
    );
}

#[test]
fn rename_keeps_interval_and_last_contact() {
    let now = ymd(2020, 3, 25);
    let mut table = Table::new();
    table.add_entry(Entry::new_at("X".to_string(), 30, ymd(2020, 3, 20), now)).unwrap();
    table.add_entry(Entry::new_at("Y".to_string(), 3, ymd(2020, 3, 20), now)).unwrap();
    table.suspend_entry("X".to_string()).unwrap();
    table.rename_entry(&"X".to_string(), "Z".to_string(), now).unwrap();
    assert!(!table.contains(&"X".to_string()));
    assert!(!table.is_suspended(&"Z".to_string()));
    let listed = table.sorted_entries(Filter::All);
    assert_eq!(names(&listed), vec!["Y", "Z"]);
    assert_eq!(listed[1].interval(), 30);
    assert_eq!(listed[1].last_contact(), ymd(2020, 3, 20));
    match table.rename_entry(&"Z".to_string(), "Y".to_string(), now) {
        Err(TableError::Existing(e)) => assert_eq!(e.name, "Y"),
        other => panic!("expected a taken name, got {:?}", other),
    }
    assert!(table.contains(&"Z".to_string()));
    match table.rename_entry(&"Q".to_string(), "R".to_string(), now) {
        Err(TableError::Missing(e)) => assert_eq!(e.name, "Q"),
        other => panic!("expected a missing name, got {:?}", other),
    }
}
