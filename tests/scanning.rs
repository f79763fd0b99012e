use dirlist::cli::{scan_config, Args};
use dirlist::display::{
    arrange_listing, listing_outcome, output_mode, table_rows_no_line, table_rows_with_line,
    ListingOutcome, OutputMode,
};
use dirlist::file_ops::{
    add_line_numbers, format_permissions, get_file, scan_set, scan_single_directory,
    should_exclude_file, should_include_file, total_size,
};
use dirlist::types::{
    DirItem, DirListing, EntryType, FileMetadata, PermissionStyle, ScanConfig, SortOrder,
    TimeFormat, TimeSettings, Timestamp,
};

fn meta(size: u64, is_dir: bool) -> FileMetadata {
    FileMetadata {
        size,
        modified: Timestamp { secs: 0, nanos: 0 },
        is_dir,
        mode: 0o644,
        tree_size: None,
    }
}

fn item(name: &str, size: u64, is_dir: bool) -> DirItem {
    DirItem { name: name.to_string(), metadata: Some(meta(size, is_dir)) }
}

fn config() -> ScanConfig {
    ScanConfig {
        pattern: None,
        exclude: None,
        show_line_numbers: true,
        permission_style: PermissionStyle::Rwx,
        time: TimeSettings {
            format: TimeFormat::Iso8601,
            timezone: "UTC".to_string(),
            custom_format: String::new(),
            toggle_clock: false,
        },
        deep: false,
        show_current_dir: false,
    }
}

fn names(files: &[dirlist::types::FileEntry]) -> Vec<String> {
    files.iter().map(|f| f.name.clone()).collect()
}

#[test]
fn include_filter_is_case_insensitive() {
    assert!(should_include_file("Report.TXT", &Some("report".to_string())));
    assert!(!should_include_file("notes.md", &Some("report".to_string())));
    assert!(should_include_file("anything", &None));
}

#[test]
fn exclude_filter_is_case_insensitive() {
    let ex = Some(vec!["tmp".to_string(), "LOG".to_string()]);
    assert!(should_exclude_file("build.log", &ex));
    assert!(should_exclude_file("TMPfile", &ex));
    assert!(!should_exclude_file("main.rs", &ex));
    assert!(!should_exclude_file("main.rs", &None));
}

#[test]
fn scan_builds_entries_in_read_order() {
    let items = vec![item("b.txt", 10, false), item("A.txt", 5, false), item("sub", 4096, true)];
    let files = scan_single_directory(&items, &None, &config());
    assert_eq!(names(&files), vec!["b.txt", "A.txt", "sub/"]);
    assert_eq!(files[0].line_number, "1");
    assert_eq!(files[2].line_number, "3");
    assert_eq!(files[0].size, "  10 B");
    assert_eq!(files[0].raw_size, 10);
    assert_eq!(files[2].e_type, EntryType::Dir);
    assert_eq!(files[1].e_type, EntryType::File);
    assert_eq!(files[1].permissions, "rw-r--r--");
    assert_eq!(files[1].modified, "1970-01-01");
}

#[test]
fn scan_drops_unreadable_and_filtered_entries() {
    let items = vec![
        item("keep_me.rs", 1, false),
        DirItem { name: "gone.rs".to_string(), metadata: None },
        item("skip.tmp", 1, false),
        item("other.txt", 1, false),
        item("also_keep.rs", 1, false),
    ];
    let mut cfg = config();
    cfg.pattern = Some("KEEP".to_string());
    cfg.exclude = Some(vec!["tmp".to_string()]);
    let files = scan_single_directory(&items, &None, &cfg);
    assert_eq!(names(&files), vec!["keep_me.rs", "also_keep.rs"]);
    assert_eq!(files[1].line_number, "2");
}

#[test]
fn exclude_wins_over_include() {
    let items = vec![item("foo_tmp", 1, false), item("foo", 1, false)];
    let mut cfg = config();
    cfg.pattern = Some("foo".to_string());
    cfg.exclude = Some(vec!["TMP".to_string()]);
    let files = scan_single_directory(&items, &None, &cfg);
    assert_eq!(names(&files), vec!["foo"]);
}

#[test]
fn no_match_for_grab_pattern() {
    let items = vec![item("a.txt", 1, false), item("b.txt", 1, false)];
    let mut cfg = config();
    cfg.pattern = Some("foo".to_string());
    let files = scan_single_directory(&items, &None, &cfg);
    assert!(files.is_empty());
    let outcome = listing_outcome(files.len(), cfg.pattern.is_some());
    assert_eq!(outcome, ListingOutcome::NoMatches);
    assert_eq!(outcome.exit_status(), 1);
}

#[test]
fn empty_directory_without_filter_succeeds() {
    let files = scan_single_directory(&Vec::new(), &None, &config());
    let outcome = listing_outcome(files.len(), false);
    assert_eq!(outcome, ListingOutcome::EmptyDirectory);
    assert_eq!(outcome.exit_status(), 0);
    assert_eq!(listing_outcome(3, true), ListingOutcome::Rows);
    assert_eq!(ListingOutcome::Rows.exit_status(), 0);
}

#[test]
fn line_numbers_off_leaves_column_empty() {
    let mut cfg = config();
    cfg.show_line_numbers = false;
    let files = scan_single_directory(&vec![item("a", 1, false)], &None, &cfg);
    assert_eq!(files[0].line_number, "");
}

#[test]
fn current_directory_entry_comes_first() {
    let mut cfg = config();
    cfg.show_current_dir = true;
    let cwd = Some(meta(4096, true));
    let files = scan_single_directory(&vec![item("a", 1, false)], &cwd, &cfg);
    assert_eq!(names(&files), vec!["./", "a"]);
    assert_eq!(files[0].e_type, EntryType::Dir);
    assert_eq!(files[0].line_number, "1");
    assert_eq!(files[1].line_number, "2");
    let without = scan_single_directory(&vec![item("a", 1, false)], &None, &cfg);
    assert_eq!(names(&without), vec!["a"]);
}

#[test]
fn deep_mode_reports_summed_directory_size() {
    let total = total_size(&vec![100, 200]);
    assert_eq!(total, 300);
    let mut d = meta(4096, true);
    d.tree_size = Some(total);
    let items = vec![DirItem { name: "d".to_string(), metadata: Some(d) }];
    let mut cfg = config();
    cfg.deep = true;
    let files = scan_single_directory(&items, &None, &cfg);
    assert_eq!(files[0].name, "d/");
    assert_eq!(files[0].raw_size, 300);
    assert_eq!(files[0].size, " 300 B");
    cfg.deep = false;
    let shallow = scan_single_directory(&items, &None, &cfg);
    assert_eq!(shallow[0].raw_size, 4096);
}

#[test]
fn total_size_saturates() {
    assert_eq!(total_size(&vec![]), 0);
    assert_eq!(total_size(&vec![u64::MAX, 1, 5]), u64::MAX);
}

#[test]
fn permission_styles() {
    assert_eq!(format_permissions(0o750, PermissionStyle::Rwx), "rwxr-x---");
    assert_eq!(format_permissions(0o750, PermissionStyle::Octal), "750");
    assert_eq!(format_permissions(0o550, PermissionStyle::Owner), "read-only");
}

#[test]
fn one_directory_keeps_bare_names() {
    let listings = vec![DirListing { path: "some/dir/".to_string(), items: vec![item("a", 1, false)] }];
    let files = get_file(&listings, &None, &config());
    assert_eq!(names(&files), vec!["a"]);
}

#[test]
fn several_directories_prefix_names() {
    let listings = vec![
        DirListing { path: ".".to_string(), items: vec![item("a", 1, false), item("d", 1, true)] },
        DirListing { path: "other//".to_string(), items: vec![item("b", 1, false)] },
        DirListing { path: "win\\".to_string(), items: vec![item("c", 1, false)] },
    ];
    let files = get_file(&listings, &None, &config());
    assert_eq!(names(&files), vec!["./a", "./d/", "other/b", "win/c"]);
    assert_eq!(files[2].line_number, "1");
}

#[test]
fn scan_set_keeps_existing_unexcluded_directories_in_order() {
    let dirs = vec!["x".to_string(), "missing".to_string(), "cache_dir".to_string(), "y".to_string()];
    let is_dir = vec![true, false, true, true];
    let set = scan_set(".", &dirs, &is_dir, &Some(vec!["cache".to_string()]));
    assert_eq!(set, vec![".".to_string(), "x".to_string(), "y".to_string()]);
    let all = scan_set("/tmp", &dirs, &is_dir, &None);
    assert_eq!(all.len(), 4);
}

#[test]
fn renumbering_follows_final_order() {
    let items = vec![item("b", 1, false), item("a", 2, false), item("c", 3, false)];
    let mut files = scan_single_directory(&items, &None, &config());
    arrange_listing(&mut files, &Some(SortOrder::AlphabeticalOrder), true);
    assert_eq!(names(&files), vec!["a", "b", "c"]);
    let numbers: Vec<String> = files.iter().map(|f| f.line_number.clone()).collect();
    assert_eq!(numbers, vec!["1", "2", "3"]);
    add_line_numbers(&mut files);
    assert_eq!(files[2].line_number, "3");
}

#[test]
fn no_sort_keeps_read_order() {
    let items = vec![item("b", 1, false), item("a", 2, false)];
    let mut files = scan_single_directory(&items, &None, &config());
    arrange_listing(&mut files, &None, false);
    assert_eq!(names(&files), vec!["b", "a"]);
}

#[test]
fn output_modes() {
    assert_eq!(output_mode(false, true), OutputMode::NamesOnly);
    assert_eq!(output_mode(true, true), OutputMode::Json);
    assert_eq!(output_mode(true, false), OutputMode::Table);
}

#[test]
fn table_rows() {
    let files = scan_single_directory(&vec![item("a", 1, false), item("d", 1, true)], &None, &config());
    let with = table_rows_with_line(&files);
    assert_eq!(with[1].e_type, "Dir");
    assert_eq!(with[0].line_number, "1");
    let without = table_rows_no_line(&files);
    assert_eq!(without[0].e_type, "File");
    assert_eq!(without[1].name, "d/");
}

#[test]
fn config_from_options() {
    let args = Args {
        path: None,
        deep: true,
        grab: Some("x".to_string()),
        json: false,
        json_export: None,
        no_line_numbers: true,
        octal_perms: true,
        owner_perms: true,
        show_cwd: true,
        include_dirs: None,
        exclude: None,
        time_format: TimeFormat::Unix,
        custom_time_format: "%Y".to_string(),
        timezone: "Asia/Tokyo".to_string(),
        toggle_clock: true,
        up_to_date: false,
        down_to_date: false,
        largest_size: false,
        smallest_size: false,
        alphabetical_order: false,
        alphabetical_reverse: false,
        dir_first: false,
        dir_last: false,
    };
    let cfg = scan_config(args, "Asia/Tokyo".to_string());
    assert_eq!(cfg.permission_style, PermissionStyle::Octal);
    assert!(!cfg.show_line_numbers);
    assert!(cfg.deep);
    assert!(cfg.show_current_dir);
    assert_eq!(cfg.time.format, TimeFormat::Unix);
    assert_eq!(cfg.pattern, Some("x".to_string()));
}

#[test]
fn name_ascending_listing_of_a_directory() {
    let items = vec![item("b.txt", 10, false), item("A.txt", 5, false), item("sub", 0, true)];
    let mut files = scan_single_directory(&items, &None, &config());
    arrange_listing(&mut files, &Some(SortOrder::AlphabeticalOrder), true);
    assert_eq!(names(&files), vec!["A.txt", "b.txt", "sub/"]);
    assert_eq!(files[0].raw_size, 5);
    assert_eq!(files[2].line_number, "3");
}

#[test]
fn no_directories_give_no_entries() {
    let files = get_file(&Vec::new(), &None, &config());
    assert!(files.is_empty());
}
