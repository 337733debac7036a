use code_diary::backend::Store;
use code_diary::backend::StoreError;
use code_diary::diaryentry::DiaryEntry;
use code_diary::timestamps::TimeStamp;

fn ts(year: u16, month: u8, day: u8, hour: u8, minute: u8, second: u8) -> TimeStamp {
    TimeStamp { year, month, day, hour, minute, second }
}

fn entry(id: u64, date: TimeStamp, title: Option<&str>, content: &str) -> DiaryEntry {
    DiaryEntry {
        id,
        date,
        title: title.map(|t| t.to_string()),
        content: content.to_string(),
    }
}

#[test]
fn empty_store_has_no_entries() {
    let store = Store::new();
    assert_eq!(store.get_latest_id(), 0);
    assert_eq!(store.next_id(), 1);
    assert_eq!(store.get_entries().unwrap(), Vec::new());
}

#[test]
fn ids_run_sequentially_under_inserts() {
    let mut store = Store::new();
    let date = ts(2023, 5, 6, 7, 8, 9);
    for k in 0u64..4 {
        assert_eq!(store.next_id(), k + 1);
        let e = entry(store.next_id(), date, Some("t"), "c");
        store.store_entry(&e).unwrap();
    }
    assert_eq!(store.next_id(), 5);
}

#[test]
fn deletion_reclaims_no_id() {
    let mut store = Store::new();
    let date = ts(2023, 5, 6, 7, 8, 9);
    for k in 1u64..=3 {
        let e = entry(k, date, Some("t"), "c");
        store.store_entry(&e).unwrap();
    }
    store.remove_id(2).unwrap();
    let left: Vec<u64> = store.get_entries().unwrap().iter().map(|e| e.id).collect();
    assert_eq!(left, vec![1, 3]);
    assert_eq!(store.next_id(), 4);
    store.store_entry(&entry(store.next_id(), date, None, "again")).unwrap();
    let left: Vec<u64> = store.get_entries().unwrap().iter().map(|e| e.id).collect();
    assert_eq!(left, vec![1, 3, 4]);
}

#[test]
fn deleting_everything_starts_over_at_one() {
    let mut store = Store::new();
    let date = ts(2023, 5, 6, 7, 8, 9);
    store.store_entry(&entry(1, date, None, "a")).unwrap();
    store.store_entry(&entry(2, date, None, "b")).unwrap();
    store.remove_id(1).unwrap();
    store.remove_id(2).unwrap();
    assert_eq!(store.next_id(), 1);
}

#[test]
fn deleting_an_absent_id_is_a_no_op() {
    let mut store = Store::new();
    let date = ts(2023, 5, 6, 7, 8, 9);
    store.store_entry(&entry(1, date, Some("keep"), "body")).unwrap();
    store.remove_id(9).unwrap();
    let entries = store.get_entries().unwrap();
    assert_eq!(entries.len(), 1);
    assert_eq!(entries[0].id, 1);
}

#[test]
fn absent_title_reads_back_absent() {
    let mut store = Store::new();
    let date = ts(2023, 1, 2, 3, 4, 5);
    store.store_entry(&entry(1, date, None, "no title here")).unwrap();
    let entries = store.get_entries().unwrap();
    assert_eq!(entries[0].title, None);
    assert_eq!(entries[0].content, "no title here");
    assert_eq!(entries[0].date, date);
}

#[test]
fn empty_title_reads_back_absent() {
    let mut store = Store::new();
    let date = ts(2023, 1, 2, 3, 4, 5);
    store.store_entry(&entry(1, date, Some(""), "body")).unwrap();
    let entries = store.get_entries().unwrap();
    assert_eq!(entries[0].title, None);
}

#[test]
fn stored_entry_reads_back_equal() {
    let mut store = Store::new();
    let date = ts(2023, 11, 30, 22, 41, 7);
    let e = entry(1, date, Some("My title"), "Some body\nwith two lines");
    store.store_entry(&e).unwrap();
    assert_eq!(store.get_entries().unwrap(), vec![e]);
}

#[test]
fn reset_destroys_all_entries() {
    let mut store = Store::new();
    let date = ts(2023, 5, 6, 7, 8, 9);
    store.store_entry(&entry(1, date, Some("a"), "x")).unwrap();
    store.store_entry(&entry(2, date, Some("b"), "y")).unwrap();
    store.initialize_db();
    assert_eq!(store.get_entries().unwrap(), Vec::new());
    assert_eq!(store.next_id(), 1);
}

#[test]
fn from_columns_rebuilds_the_rows() {
    let store = Store::from_columns(
        vec![1, 2],
        vec!["2023-1-2 3:4:5".to_string(), "2024-6-7 8:9:10".to_string()],
        vec!["".to_string(), "second".to_string()],
        vec!["alpha".to_string(), "beta".to_string()],
    )
    .unwrap();
    let entries = store.get_entries().unwrap();
    assert_eq!(
        entries,
        vec![
            entry(1, ts(2023, 1, 2, 3, 4, 5), None, "alpha"),
            entry(2, ts(2024, 6, 7, 8, 9, 10), Some("second"), "beta"),
        ]
    );
}

#[test]
fn from_columns_rejects_count_mismatch() {
    let r = Store::from_columns(
        vec![1],
        vec!["2023-1-2 3:4:5".to_string()],
        vec!["a".to_string(), "b".to_string()],
        vec!["c".to_string()],
    );
    assert_eq!(r.unwrap_err(), StoreError::Corrupt);
}

#[test]
fn from_columns_rejects_unparseable_timestamp() {
    let r = Store::from_columns(
        vec![1],
        vec!["not a timestamp".to_string()],
        vec!["a".to_string()],
        vec!["c".to_string()],
    );
    assert_eq!(r.unwrap_err(), StoreError::Corrupt);
}

#[test]
fn constructors_take_the_next_id_and_normalize_titles() {
    let mut store = Store::new();
    let e1 = DiaryEntry::from_str_and_option(&Some("Trip".to_string()), "Packed bags", &store);
    assert_eq!(e1.id, 1);
    assert_eq!(e1.title.as_deref(), Some("Trip"));
    store.store_entry(&e1).unwrap();

    let e2 = DiaryEntry::from_str_and_option(&Some(String::new()), "empty title", &store);
    assert_eq!(e2.id, 2);
    assert_eq!(e2.title, None);
    store.store_entry(&e2).unwrap();

    let e3 = DiaryEntry::new("", "also empty", &store);
    assert_eq!(e3.id, 3);
    assert_eq!(e3.title, None);

    let e4 = DiaryEntry::new("Named", "body", &store);
    assert_eq!(e4.id, 3);
    assert_eq!(e4.title.as_deref(), Some("Named"));
}
