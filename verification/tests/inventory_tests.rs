use atlas4d::inventory::{inventory_of, FileEntry, SegmentInfo};
use atlas4d::store::Store;

fn entry(name: &str, size: u64) -> FileEntry {
    FileEntry { name: String::from(name), size_bytes: size }
}

fn info(name: &str, size: u64, cell: &str, bin: i64, binary: bool) -> SegmentInfo {
    SegmentInfo {
        filename: String::from(name),
        size_bytes: size,
        cell: String::from(cell),
        time_bin: bin,
        binary,
    }
}

#[test]
fn inventory_shows_what_each_name_tells() {
    let out = inventory_of(vec![entry("617700169958293503_1700000100.seg", 77)]);
    assert_eq!(out, vec![info("617700169958293503_1700000100.seg", 77, "617700169958293503", 1_700_000_100, true)]);
}

#[test]
fn inventory_is_sorted_by_label_then_bin() {
    let out = inventory_of(vec![
        entry("20_600.seg", 1),
        entry("100_300.seg", 2),
        entry("20_300.jsonl", 3),
        entry("100_-300.seg", 4),
        entry("stray", 5),
    ]);
    assert_eq!(
        out,
        vec![
            info("100_-300.seg", 4, "100", -300, true),
            info("100_300.seg", 2, "100", 300, true),
            info("20_300.jsonl", 3, "20", 300, false),
            info("20_600.seg", 1, "20", 600, true),
            info("stray", 5, "?", 0, false),
        ]
    );
}

#[test]
fn labels_sort_as_strings_not_as_numbers() {
    let out = inventory_of(vec![entry("9_0.seg", 0), entry("10_0.seg", 0), entry("1_0.seg", 0)]);
    let labels: Vec<&str> = out.iter().map(|i| i.cell.as_str()).collect();
    assert_eq!(labels, vec!["1", "10", "9"]);
}

#[test]
fn entries_of_one_label_and_bin_keep_their_order() {
    let out = inventory_of(vec![
        entry("5_300.seg", 1),
        entry("5_300.jsonl", 2),
        entry("5_+300.seg", 3),
        entry("5_0300.seg", 4),
    ]);
    let sizes: Vec<u64> = out.iter().map(|i| i.size_bytes).collect();
    assert_eq!(sizes, vec![1, 2, 3, 4]);
}

#[test]
fn inventory_agrees_with_the_standard_sort() {
    let names = vec![
        "b_2.seg", "a_9.seg", "b_1.seg", "?_0", "a_-1.jsonl", "\u{e9}_3.seg", "z", "ab_0.seg", "a_00.seg", "_5.seg",
        "aa_5.seg", "a_5.seg",
    ];
    let entries: Vec<FileEntry> = names.iter().enumerate().map(|(i, n)| entry(n, i as u64)).collect();
    let mut expected: Vec<SegmentInfo> = inventory_of(entries.clone());
    expected.sort_by_key(|v| v.size_bytes);
    expected.sort_by_key(|v| (v.cell.clone(), v.time_bin));
    assert_eq!(inventory_of(entries), expected);
}

#[test]
fn store_lists_its_segments() {
    let store = Store::new(String::from("data"));
    let out = store.list_segments(vec![entry("2_0.seg", 10), entry("1_0.seg", 20)]);
    assert_eq!(out, vec![info("1_0.seg", 20, "1", 0, true), info("2_0.seg", 10, "2", 0, true)]);
}

#[test]
fn inventory_of_no_file_is_empty() {
    assert_eq!(inventory_of(Vec::new()), Vec::new());
}
