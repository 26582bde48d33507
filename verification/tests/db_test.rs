use news_ticker::db::{
    add_entry_to_db, advance_to_next, get_current, go_to_previous, init_current_entry, insert_entry,
    purge_db, set_offensive, DbEntry, EntryTable, StoredEntry,
};
use news_ticker::feed::FeedItem;

fn entry(title: &str, link: &str, summary: &str) -> DbEntry {
    DbEntry::new(title.to_string(), link.to_string(), summary.to_string())
}

fn add_test_entry(table: &mut EntryTable, title: &str, link: &str, summary: &str) {
    insert_entry(table, entry(title, link, summary)).unwrap();
}

fn three_entries() -> EntryTable {
    let mut table = EntryTable::new();
    for i in 0..3 {
        add_test_entry(
            &mut table,
            &format!("Entry {}", i),
            &format!("https://test{}.com", i),
            &format!("Summary {}", i),
        );
    }
    table
}

#[test]
fn test_db_init() {
    let table = EntryTable::new();
    assert_eq!(table.len(), 0);
}

#[test]
fn test_add_and_get_entry() {
    let mut table = EntryTable::new();

    add_test_entry(&mut table, "Test Title", "https://test.com", "Test Summary");

    init_current_entry(&mut table);

    let current = get_current(&table);
    assert!(current.is_some());

    let entry = current.unwrap();
    assert_eq!(entry.title, "Test Title");
    assert_eq!(entry.link, "https://test.com");
    assert_eq!(entry.summary, "Test Summary");
}

#[test]
fn test_navigation() {
    let mut table = three_entries();

    init_current_entry(&mut table);

    let current = get_current(&table);
    assert!(current.is_some());
    assert_eq!(current.unwrap().title, "Entry 0");

    let next = advance_to_next(&mut table);
    assert!(next.is_some());
    assert_eq!(next.unwrap().title, "Entry 1");

    let prev = go_to_previous(&mut table);
    assert!(prev.is_some());
    assert_eq!(prev.unwrap().title, "Entry 0");
}

#[test]
fn test_navigation_wraparound() {
    let mut table = three_entries();

    init_current_entry(&mut table);

    let _ = advance_to_next(&mut table);
    let _ = advance_to_next(&mut table);

    let next = advance_to_next(&mut table);
    assert!(next.is_some());
    assert_eq!(next.unwrap().title, "Entry 0");

    let prev = go_to_previous(&mut table);
    assert!(prev.is_some());
    assert_eq!(prev.unwrap().title, "Entry 2");
}

#[test]
fn test_db_entry_display() {
    let entry = DbEntry::new(
        "Test Title".to_string(),
        "https://test.com".to_string(),
        "Test Summary".to_string(),
    );

    let display = entry.display();
    assert!(display.contains("Test Title"));
    assert!(display.contains("https://test.com"));
    assert!(display.contains("Test Summary"));
    assert!(display.contains("📰"));
}

#[test]
fn test_db_entry_waybar_display() {
    let entry = DbEntry::new(
        "Test Title".to_string(),
        "https://test.com".to_string(),
        "Test Summary".to_string(),
    );

    let display = entry.display_waybar();
    assert!(display.contains("\"text\""));
    assert!(display.contains("\"class\":\"feed\""));
    assert!(display.contains("Test Title"));
}

#[test]
fn display_exact_text() {
    let e = entry("T", "L", "S");
    assert_eq!(e.display(), "📰 T\n   L\n   S");
}

#[test]
fn waybar_escapes_special_characters() {
    let e = entry("a\\b\"c\nd\re\tf", "l", "s");
    assert_eq!(
        e.display_waybar(),
        "{\"text\":\"a\\\\b\\\"c\\nd\\re\\tf\",\"class\":\"feed\"}"
    );
}

#[test]
fn waybar_escapes_control_characters() {
    let e = entry("a\u{1}b\u{1f}c\u{8}d\u{7f}", "l", "s");
    assert_eq!(
        e.display_waybar(),
        "{\"text\":\"a\\u0001b\\u001fc\\u0008d\u{7f}\",\"class\":\"feed\"}"
    );
}

#[test]
fn waybar_keeps_other_characters() {
    let e = entry("Ünïcode / é 😀", "l", "s");
    assert_eq!(e.display_waybar(), "{\"text\":\"Ünïcode / é 😀\",\"class\":\"feed\"}");
}

#[test]
fn duplicate_link_is_ignored() {
    let mut table = EntryTable::new();
    assert_eq!(insert_entry(&mut table, entry("A", "https://a", "x")), Ok(true));
    assert_eq!(insert_entry(&mut table, entry("B", "https://a", "y")), Ok(false));
    assert_eq!(table.len(), 1);
    assert_eq!(table.row(0).entry.title, "A");
    assert_eq!(table.row(0).id, 1);
    assert_eq!(table.last_id(), 1);
}

#[test]
fn ids_increase_from_one() {
    let table = three_entries();
    assert_eq!(table.row(0).id, 1);
    assert_eq!(table.row(1).id, 2);
    assert_eq!(table.row(2).id, 3);
}

#[test]
fn insert_fails_when_ids_run_out() {
    let rows = vec![StoredEntry { id: i64::MAX, entry: entry("A", "https://a", "x") }];
    let mut table = EntryTable::restore(rows, None, i64::MAX, true).unwrap();
    let r = insert_entry(&mut table, entry("B", "https://b", "y"));
    assert_eq!(r, Err("Failed to insert entry: database or disk is full".to_string()));
    assert_eq!(table.len(), 1);
}

#[test]
fn navigation_on_empty_table() {
    let mut table = EntryTable::new();
    assert!(advance_to_next(&mut table).is_none());
    assert!(go_to_previous(&mut table).is_none());
    init_current_entry(&mut table);
    assert!(get_current(&table).is_none());
    assert_eq!(table.current_id(), None);
}

#[test]
fn next_without_current_starts_at_first() {
    let mut table = three_entries();
    assert!(get_current(&table).is_none());
    assert_eq!(advance_to_next(&mut table).unwrap().title, "Entry 0");
}

#[test]
fn previous_without_current_starts_at_last() {
    let mut table = three_entries();
    assert_eq!(go_to_previous(&mut table).unwrap().title, "Entry 2");
    assert_eq!(table.current_id(), Some(3));
}

#[test]
fn next_then_previous_comes_back() {
    let mut table = three_entries();
    init_current_entry(&mut table);
    advance_to_next(&mut table);
    assert_eq!(table.current_id(), Some(2));
    advance_to_next(&mut table);
    go_to_previous(&mut table);
    assert_eq!(table.current_id(), Some(2));
    go_to_previous(&mut table);
    advance_to_next(&mut table);
    assert_eq!(table.current_id(), Some(2));
}

#[test]
fn full_cycle_comes_back() {
    let mut table = three_entries();
    init_current_entry(&mut table);
    advance_to_next(&mut table);
    for _ in 0..3 {
        advance_to_next(&mut table);
    }
    assert_eq!(table.current_id(), Some(2));
    for _ in 0..3 {
        go_to_previous(&mut table);
    }
    assert_eq!(table.current_id(), Some(2));
}

#[test]
fn next_goes_by_id_with_gaps() {
    let rows = vec![
        StoredEntry { id: 2, entry: entry("two", "l2", "") },
        StoredEntry { id: 5, entry: entry("five", "l5", "") },
        StoredEntry { id: 9, entry: entry("nine", "l9", "") },
    ];
    let mut table = EntryTable::restore(rows, Some(5), 12, true).unwrap();
    assert_eq!(advance_to_next(&mut table).unwrap().title, "nine");
    assert_eq!(advance_to_next(&mut table).unwrap().title, "two");
    assert_eq!(go_to_previous(&mut table).unwrap().title, "nine");
    add_test_entry(&mut table, "thirteen", "l13", "");
    assert_eq!(table.row(3).id, 13);
    assert_eq!(get_current(&table).unwrap().title, "nine");
}

#[test]
fn init_current_keeps_existing_current() {
    let mut table = three_entries();
    go_to_previous(&mut table);
    init_current_entry(&mut table);
    assert_eq!(get_current(&table).unwrap().title, "Entry 2");
}

#[test]
fn purge_removes_everything_and_keeps_counter() {
    let mut table = three_entries();
    init_current_entry(&mut table);
    assert_eq!(purge_db(&mut table), 3);
    assert_eq!(table.len(), 0);
    assert!(get_current(&table).is_none());
    add_test_entry(&mut table, "again", "https://test0.com", "");
    assert_eq!(table.row(0).id, 4);
}

#[test]
fn set_offensive_marks_and_unmarks() {
    let mut table = three_entries();
    assert!(set_offensive(&mut table, "https://test1.com", true));
    assert_eq!(table.row(1).entry.title, "[TW] Entry 1");
    assert!(set_offensive(&mut table, "https://test1.com", true));
    assert_eq!(table.row(1).entry.title, "[TW] Entry 1");
    assert!(set_offensive(&mut table, "https://test1.com", false));
    assert_eq!(table.row(1).entry.title, "Entry 1");
    assert!(!set_offensive(&mut table, "https://nowhere", true));
    assert_eq!(table.row(0).entry.title, "Entry 0");
}

#[test]
fn restore_checks_the_rows() {
    let ok = vec![
        StoredEntry { id: 1, entry: entry("a", "la", "") },
        StoredEntry { id: 3, entry: entry("b", "lb", "") },
    ];
    assert!(EntryTable::restore(ok.clone(), Some(3), 3, true).is_some());
    assert!(EntryTable::restore(ok.clone(), Some(2), 3, true).is_none());
    assert!(EntryTable::restore(ok.clone(), None, 2, true).is_none());
    let unordered = vec![
        StoredEntry { id: 3, entry: entry("b", "lb", "") },
        StoredEntry { id: 1, entry: entry("a", "la", "") },
    ];
    assert!(EntryTable::restore(unordered, None, 3, true).is_none());
    let same_link = vec![
        StoredEntry { id: 1, entry: entry("a", "l", "") },
        StoredEntry { id: 2, entry: entry("b", "l", "") },
    ];
    assert!(EntryTable::restore(same_link.clone(), None, 2, true).is_none());
    assert!(EntryTable::restore(same_link, None, 2, false).is_some());
    let zero_id = vec![StoredEntry { id: 0, entry: entry("a", "l", "") }];
    assert!(EntryTable::restore(zero_id, None, 2, true).is_some());
}

#[test]
fn table_without_unique_links_keeps_duplicates() {
    let rows = vec![
        StoredEntry { id: 1, entry: entry("a", "l", "") },
        StoredEntry { id: 2, entry: entry("b", "l", "") },
    ];
    let mut table = EntryTable::restore(rows, None, 2, false).unwrap();
    assert_eq!(insert_entry(&mut table, entry("c", "l", "")), Ok(true));
    assert_eq!(table.len(), 3);
    assert_eq!(table.row(2).id, 3);
}

#[test]
fn next_without_current_goes_to_lowest_id() {
    let rows = vec![
        StoredEntry { id: -4, entry: entry("minus four", "a", "") },
        StoredEntry { id: 0, entry: entry("zero", "b", "") },
        StoredEntry { id: 7, entry: entry("seven", "c", "") },
    ];
    let mut table = EntryTable::restore(rows.clone(), None, 7, true).unwrap();
    assert_eq!(advance_to_next(&mut table).unwrap().title, "minus four");
    assert_eq!(table.current_id(), Some(-4));
    assert_eq!(advance_to_next(&mut table).unwrap().title, "zero");
    let mut table = EntryTable::restore(rows, None, 7, true).unwrap();
    init_current_entry(&mut table);
    assert_eq!(get_current(&table).unwrap().title, "minus four");
    let only_low = vec![StoredEntry { id: -1, entry: entry("low", "a", "") }];
    let mut table = EntryTable::restore(only_low, None, 0, true).unwrap();
    assert_eq!(advance_to_next(&mut table).unwrap().title, "low");
}

#[test]
fn add_entry_from_feed_item_uses_defaults() {
    let mut table = EntryTable::new();
    let item = FeedItem {
        title: None,
        links: vec!["https://first".to_string(), "https://second".to_string()],
        summary: Some("sum".to_string()),
    };
    assert_eq!(add_entry_to_db(&mut table, &item), Ok(true));
    assert_eq!(add_entry_to_db(&mut table, &item), Ok(false));
    let row = table.row(0);
    assert_eq!(row.entry.title, "");
    assert_eq!(row.entry.link, "https://first");
    assert_eq!(row.entry.summary, "sum");
    let bare = FeedItem { title: Some("t".to_string()), links: vec![], summary: None };
    assert_eq!(add_entry_to_db(&mut table, &bare), Ok(true));
    assert_eq!(table.row(1).entry.link, "");
    assert_eq!(table.row(1).entry.summary, "");
}
