use code_diary::backend::Store;
use code_diary::diaryentry::DiaryEntry;
use code_diary::ordering::resolve;
use code_diary::ordering::sort_entries;
use code_diary::ordering::LookupError;
use code_diary::timestamps::TimeStamp;

fn ts(year: u16, month: u8, day: u8, hour: u8, minute: u8, second: u8) -> TimeStamp {
    TimeStamp { year, month, day, hour, minute, second }
}

fn entry(id: u64, date: TimeStamp, title: Option<&str>, content: &str) -> DiaryEntry {
    DiaryEntry {
        id,
        date,
        title: title.map(|t| t.to_string()),
        content: content.to_string(),
    }
}

#[test]
fn sorts_by_timestamp_first_not_by_id() {
    let mut entries = vec![
        entry(1, ts(2024, 1, 1, 0, 0, 0), Some("late"), "x"),
        entry(2, ts(2023, 1, 1, 0, 0, 0), Some("early"), "y"),
    ];
    sort_entries(&mut entries);
    let ids: Vec<u64> = entries.iter().map(|e| e.id).collect();
    assert_eq!(ids, vec![2, 1]);
}

#[test]
fn sorts_by_title_when_timestamps_tie() {
    let date = ts(2023, 1, 1, 0, 0, 0);
    let mut entries = vec![
        entry(1, date, Some("beta"), "x"),
        entry(2, date, Some("alpha"), "y"),
        entry(3, date, None, "z"),
    ];
    sort_entries(&mut entries);
    let ids: Vec<u64> = entries.iter().map(|e| e.id).collect();
    // an absent title sorts as empty text, before any non-empty title
    assert_eq!(ids, vec![3, 2, 1]);
}

#[test]
fn sorts_by_content_when_timestamp_and_title_tie() {
    let date = ts(2023, 1, 1, 0, 0, 0);
    let mut entries = vec![
        entry(1, date, Some("same"), "bbb"),
        entry(2, date, Some("same"), "aaa"),
    ];
    sort_entries(&mut entries);
    let ids: Vec<u64> = entries.iter().map(|e| e.id).collect();
    assert_eq!(ids, vec![2, 1]);
}

#[test]
fn resolve_maps_positions_to_ids() {
    let entries = vec![
        entry(7, ts(2023, 1, 1, 0, 0, 0), None, "a"),
        entry(4, ts(2024, 1, 1, 0, 0, 0), None, "b"),
    ];
    assert_eq!(resolve(0, &entries), Ok(7));
    assert_eq!(resolve(1, &entries), Ok(4));
}

#[test]
fn resolve_rejects_position_at_length() {
    let entries = vec![
        entry(7, ts(2023, 1, 1, 0, 0, 0), None, "a"),
        entry(4, ts(2024, 1, 1, 0, 0, 0), None, "b"),
    ];
    assert_eq!(resolve(2, &entries), Err(LookupError::IndexOutOfRange));
    assert_eq!(resolve(100, &entries), Err(LookupError::IndexOutOfRange));
}

#[test]
fn resolve_rejects_any_position_on_empty_list() {
    let entries: Vec<DiaryEntry> = Vec::new();
    assert_eq!(resolve(0, &entries), Err(LookupError::IndexOutOfRange));
}

#[test]
fn summary_shows_title_and_timestamp() {
    let e = entry(1, ts(2023, 1, 2, 3, 4, 5), Some("Trip"), "Packed bags");
    assert_eq!(e.summary(), "Trip (2023-1-2 3:4:5)");
}

#[test]
fn summary_labels_absent_title_untitled() {
    let e = entry(1, ts(2023, 1, 2, 3, 4, 5), None, "Packed bags");
    assert_eq!(e.summary(), "Untitled (2023-1-2 3:4:5)");
}

#[test]
fn detail_adds_the_content_body() {
    let e = entry(1, ts(2023, 1, 2, 3, 4, 5), Some("Trip"), "Packed bags");
    assert_eq!(e.show_detail(), "Trip (2023-1-2 3:4:5):\nPacked bags");
}

#[test]
fn insert_sort_resolve_delete_end_to_end() {
    let mut store = Store::new();
    let first = entry(
        store.next_id(),
        ts(2023, 1, 1, 10, 0, 0),
        Some("Trip"),
        "Packed bags",
    );
    store.store_entry(&first).unwrap();
    let second = entry(store.next_id(), ts(2023, 6, 1, 10, 0, 0), None, "Later");
    store.store_entry(&second).unwrap();

    let mut entries = store.get_entries().unwrap();
    sort_entries(&mut entries);
    assert_eq!(entries[0], first);
    assert_eq!(entries[1], second);

    let id = resolve(0, &entries).unwrap();
    assert_eq!(id, first.id);
    store.remove_id(id).unwrap();

    let left = store.get_entries().unwrap();
    assert_eq!(left, vec![second]);
}
