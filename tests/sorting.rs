use dirlist::cli::Args;
use dirlist::sorting::{get_sort_order, has_conflicting_sort_flags, sort_files};
use dirlist::types::{EntryType, FileEntry, SortOrder, TimeFormat, Timestamp};

fn entry(name: &str, kind: EntryType, size: u64, secs: i64) -> FileEntry {
    FileEntry {
        line_number: String::new(),
        name: name.to_string(),
        e_type: kind,
        permissions: "rw-r--r--".to_string(),
        size: String::new(),
        modified: String::new(),
        raw_size: size,
        raw_modified: Timestamp { secs, nanos: 0 },
    }
}

fn names(files: &[FileEntry]) -> Vec<String> {
    files.iter().map(|f| f.name.clone()).collect()
}

fn sample() -> Vec<FileEntry> {
    vec![
        entry("b.txt", EntryType::File, 10, 300),
        entry("A.txt", EntryType::File, 5, 100),
        entry("sub/", EntryType::Dir, 4096, 200),
    ]
}

#[test]
fn name_ascending_folds_case_and_ignores_slash() {
    let mut files = sample();
    sort_files(&mut files, &SortOrder::AlphabeticalOrder);
    assert_eq!(names(&files), vec!["A.txt", "b.txt", "sub/"]);
}

#[test]
fn name_descending() {
    let mut files = sample();
    sort_files(&mut files, &SortOrder::AlphabeticalReverse);
    assert_eq!(names(&files), vec!["sub/", "b.txt", "A.txt"]);
}

#[test]
fn trailing_slash_does_not_change_name_order() {
    let mut files = vec![entry("ab/", EntryType::Dir, 0, 0), entry("ab.c", EntryType::File, 0, 0)];
    sort_files(&mut files, &SortOrder::AlphabeticalOrder);
    assert_eq!(names(&files), vec!["ab/", "ab.c"]);
}

#[test]
fn by_time_and_size() {
    let mut files = sample();
    sort_files(&mut files, &SortOrder::UpToDate);
    assert_eq!(names(&files), vec!["b.txt", "sub/", "A.txt"]);
    sort_files(&mut files, &SortOrder::DownToDate);
    assert_eq!(names(&files), vec!["A.txt", "sub/", "b.txt"]);
    sort_files(&mut files, &SortOrder::LargestSize);
    assert_eq!(names(&files), vec!["sub/", "b.txt", "A.txt"]);
    sort_files(&mut files, &SortOrder::SmallestSize);
    assert_eq!(names(&files), vec!["A.txt", "b.txt", "sub/"]);
}

#[test]
fn nanoseconds_break_second_ties() {
    let mut a = entry("a", EntryType::File, 0, 50);
    a.raw_modified.nanos = 9;
    let b = entry("b", EntryType::File, 0, 50);
    let mut files = vec![a, b];
    sort_files(&mut files, &SortOrder::DownToDate);
    assert_eq!(names(&files), vec!["b", "a"]);
}

#[test]
fn directories_first_and_last_keep_order_within_groups() {
    let mut files = vec![
        entry("f1", EntryType::File, 0, 0),
        entry("d1/", EntryType::Dir, 0, 0),
        entry("f2", EntryType::File, 0, 0),
        entry("d2/", EntryType::Dir, 0, 0),
    ];
    sort_files(&mut files, &SortOrder::DirFirst);
    assert_eq!(names(&files), vec!["d1/", "d2/", "f1", "f2"]);
    sort_files(&mut files, &SortOrder::DirLast);
    assert_eq!(names(&files), vec!["f1", "f2", "d1/", "d2/"]);
}

#[test]
fn sort_is_stable_for_equal_keys() {
    let mut files = vec![
        entry("x", EntryType::File, 7, 0),
        entry("y", EntryType::File, 3, 0),
        entry("z", EntryType::File, 7, 0),
        entry("w", EntryType::File, 3, 0),
    ];
    sort_files(&mut files, &SortOrder::LargestSize);
    assert_eq!(names(&files), vec!["x", "z", "y", "w"]);
}

#[test]
fn sorting_twice_changes_nothing() {
    let orders = [
        SortOrder::UpToDate,
        SortOrder::DownToDate,
        SortOrder::LargestSize,
        SortOrder::SmallestSize,
        SortOrder::AlphabeticalOrder,
        SortOrder::AlphabeticalReverse,
        SortOrder::DirFirst,
        SortOrder::DirLast,
    ];
    for order in orders.iter() {
        let mut once = sample();
        once.push(entry("c", EntryType::File, 10, 100));
        sort_files(&mut once, order);
        let mut twice = once.clone();
        sort_files(&mut twice, order);
        assert_eq!(names(&once), names(&twice));
    }
}

#[test]
fn name_orders_are_reverses_up_to_ties() {
    let base = vec![
        entry("Beta", EntryType::File, 0, 0),
        entry("alpha", EntryType::File, 0, 0),
        entry("beta/", EntryType::Dir, 0, 0),
        entry("gamma", EntryType::File, 0, 0),
    ];
    let mut up = base.clone();
    sort_files(&mut up, &SortOrder::AlphabeticalOrder);
    let mut down = base.clone();
    sort_files(&mut down, &SortOrder::AlphabeticalReverse);
    assert_eq!(names(&up), vec!["alpha", "Beta", "beta/", "gamma"]);
    assert_eq!(names(&down), vec!["gamma", "Beta", "beta/", "alpha"]);
    let key = |f: &FileEntry| f.name.trim_end_matches('/').to_lowercase();
    let mut up_keys: Vec<String> = up.iter().map(key).collect();
    up_keys.reverse();
    let down_keys: Vec<String> = down.iter().map(key).collect();
    assert_eq!(up_keys, down_keys);
}

#[test]
fn empty_list_sorts_to_empty() {
    let mut files: Vec<FileEntry> = Vec::new();
    sort_files(&mut files, &SortOrder::AlphabeticalOrder);
    assert!(files.is_empty());
}

fn no_flags() -> Args {
    Args {
        path: None,
        deep: false,
        grab: None,
        json: false,
        json_export: None,
        no_line_numbers: false,
        octal_perms: false,
        owner_perms: false,
        show_cwd: false,
        include_dirs: None,
        exclude: None,
        time_format: TimeFormat::Local,
        custom_time_format: "%Y-%m-%d %H:%M:%S %Z".to_string(),
        timezone: "UTC".to_string(),
        toggle_clock: false,
        up_to_date: false,
        down_to_date: false,
        largest_size: false,
        smallest_size: false,
        alphabetical_order: false,
        alphabetical_reverse: false,
        dir_first: false,
        dir_last: false,
    }
}

#[test]
fn no_sort_flag_keeps_read_order() {
    let args = no_flags();
    assert_eq!(get_sort_order(&args), None);
    assert!(!has_conflicting_sort_flags(&args));
}

#[test]
fn single_sort_flag() {
    let mut args = no_flags();
    args.dir_last = true;
    assert_eq!(get_sort_order(&args), Some(SortOrder::DirLast));
    assert!(!has_conflicting_sort_flags(&args));
}

#[test]
fn two_sort_flags_first_declared_wins_with_warning() {
    let mut args = no_flags();
    args.largest_size = true;
    args.smallest_size = true;
    assert_eq!(get_sort_order(&args), Some(SortOrder::LargestSize));
    assert!(has_conflicting_sort_flags(&args));
    let mut args = no_flags();
    args.alphabetical_reverse = true;
    args.dir_first = true;
    args.up_to_date = true;
    assert_eq!(get_sort_order(&args), Some(SortOrder::UpToDate));
    assert!(has_conflicting_sort_flags(&args));
}
