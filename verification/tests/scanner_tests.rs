use space_explorer::scanner::FileEntry;
use space_explorer::scanner::ScanProgress;
use space_explorer::scanner::get_dir_size;
use space_explorer::scanner::scan_directory;
use space_explorer::sorting::sort_entries_desc;
use space_explorer::views::largest_files;

fn entry(path: &str, size: u64, is_dir: bool) -> FileEntry {
    FileEntry { path: path.to_string(), size, created: 1_600_000_000, modified: 1_600_000_100, is_dir }
}

#[test]
fn scan_progress_default_is_zeroed() {
    let p = ScanProgress::default();
    assert_eq!(p.total_files, 0);
    assert_eq!(p.scanned_files, 0);
    assert!(p.current_path.is_none());
    assert_eq!(p.total_size, 0);
}

#[test]
fn scan_empty_directory_finds_nothing() {
    let mut progress = ScanProgress::default();
    let entries = scan_directory(Vec::new(), &mut progress);
    assert!(entries.is_empty());
    assert_eq!(progress.total_files, 0);
    assert_eq!(progress.scanned_files, 0);
    assert_eq!(progress.total_size, 0);
    assert!(progress.current_path.is_none());
}

#[test]
fn scan_sums_sizes_and_counts_children() {
    let children = vec![entry("/r/a", 600, false), entry("/r/b", 300, false), entry("/r/c", 100, true)];
    let mut progress = ScanProgress::default();
    let entries = scan_directory(children, &mut progress);
    assert_eq!(entries.len(), 3);
    assert_eq!(progress.total_files, 3);
    assert_eq!(progress.scanned_files, 3);
    assert!(progress.scanned_files <= progress.total_files);
    assert_eq!(progress.total_size, 1000);
    assert_eq!(progress.current_path.as_deref(), Some("/r/c"));
    assert_eq!(entries[0].path, "/r/a");
    assert_eq!(entries[1].size, 300);
    assert!(entries[2].is_dir);
}

#[test]
fn scan_total_size_equals_entry_sum() {
    let children = vec![entry("/x/one", 7, false), entry("/x/two", 0, false), entry("/x/three", 35, true)];
    let mut progress = ScanProgress::default();
    let entries = scan_directory(children, &mut progress);
    let sum: u64 = entries.iter().map(|e| e.size).sum();
    assert_eq!(progress.total_size, sum);
}

#[test]
fn dir_size_is_sum_of_descendant_file_lengths() {
    let lengths = vec![5u64, 10, 15, 0, 70];
    assert_eq!(get_dir_size(&lengths), 100);
}

#[test]
fn dir_size_of_empty_directory_is_zero() {
    let lengths: Vec<u64> = Vec::new();
    assert_eq!(get_dir_size(&lengths), 0);
}

#[test]
fn sort_orders_by_descending_size() {
    let entries = vec![entry("/a", 10, false), entry("/b", 200, false), entry("/c", 50, true)];
    let sorted = sort_entries_desc(&entries);
    assert_eq!(sorted.len(), 3);
    assert_eq!(sorted[0].path, "/b");
    assert_eq!(sorted[1].path, "/c");
    assert_eq!(sorted[2].path, "/a");
}

#[test]
fn sort_keeps_original_order_on_ties() {
    let entries = vec![
        entry("/first", 5, false),
        entry("/second", 9, false),
        entry("/third", 5, false),
        entry("/fourth", 5, false),
    ];
    let sorted = sort_entries_desc(&entries);
    assert_eq!(sorted[0].path, "/second");
    assert_eq!(sorted[1].path, "/first");
    assert_eq!(sorted[2].path, "/third");
    assert_eq!(sorted[3].path, "/fourth");
}

#[test]
fn largest_files_returns_top_ten_of_fifteen() {
    let mut entries = Vec::new();
    for i in 0..15u64 {
        entries.push(entry(&format!("/f/{}", i), (i + 1) * 10, false));
    }
    let top = largest_files(&entries, 10);
    assert_eq!(top.len(), 10);
    for (k, e) in top.iter().enumerate() {
        assert_eq!(e.size, (15 - k as u64) * 10);
    }
}

#[test]
fn largest_files_excludes_directories_regardless_of_size() {
    let entries = vec![
        entry("/huge_dir", 1_000_000, true),
        entry("/small_file", 10, false),
        entry("/big_file", 500, false),
    ];
    let top = largest_files(&entries, 10);
    assert_eq!(top.len(), 2);
    assert_eq!(top[0].path, "/big_file");
    assert_eq!(top[1].path, "/small_file");
}

#[test]
fn largest_files_with_fewer_than_n_returns_all() {
    let entries = vec![entry("/a", 3, false), entry("/b", 8, false)];
    let top = largest_files(&entries, 10);
    assert_eq!(top.len(), 2);
    assert_eq!(top[0].size, 8);
    assert_eq!(top[1].size, 3);
}

#[test]
fn largest_files_of_nothing_is_empty() {
    let entries: Vec<FileEntry> = Vec::new();
    let top = largest_files(&entries, 10);
    assert!(top.is_empty());
}
