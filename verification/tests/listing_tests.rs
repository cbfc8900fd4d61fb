use nls::listing::{
    base_name_of, can_date, gather_entries, decimal_width, directory_long_lines, directory_short_lines, display_name, listing_lines,
    paths_or_current, single_path_line, Entry, Target,
};
use nls::long::{
    access_error_message, format_time, long_info, long_info_with, FileStat, LocalTime, MAX_TIMESTAMP, MIN_TIMESTAMP,
};
use nls::mode::{file_mode_string, is_hidden};
use nls::order::{keyed_positions, lex_less, list_names, listing_positions};
use nls::text::decimal_string;

fn regular(size: u64, nlink: u64) -> FileStat {
    FileStat {
        mode: 0o100644,
        is_dir: false,
        is_symlink: false,
        nlink,
        uid: 501,
        gid: 20,
        size,
        mtime: 1_720_000_000,
    }
}

fn strings(v: &[&str]) -> Vec<String> {
    v.iter().map(|s| s.to_string()).collect()
}

#[test]
fn test_is_hidden() {
    assert!(is_hidden(".gitignore"));
    assert!(!is_hidden("README.md"));
}

#[test]
fn test_file_mode_string_regular_dir_symlink() {
    // regular file, mode 0o755
    let mode = 0o755;
    assert_eq!(file_mode_string(mode, false, false), "-rwxr-xr-x");
    // directory
    assert_eq!(file_mode_string(mode, true, false), "drwxr-xr-x");
    // symlink (symlink takes precedence)
    assert_eq!(file_mode_string(mode, true, true), "lrwxr-xr-x");
}

#[test]
fn test_file_mode_string_zero_mode() {
    // zero mode should yield all dashes with leading file-type '-'
    assert_eq!(file_mode_string(0, false, false), "----------");
}

#[test]
fn test_list_names_excludes_hidden_and_sorts() {
    let names = list_names(strings(&["b.txt", ".secret", "a.txt"]));
    // list_names sorts the results
    assert_eq!(names, vec!["a.txt".to_string(), "b.txt".to_string()]);
}

#[test]
fn test_long_info_contains_name_and_size() {
    let st = regular(5, 1);
    let out = long_info(&Ok(st), "foo.txt", 0, 0);
    assert!(out.contains("foo.txt"));
    assert!(out.contains('5'));
}

#[test]
fn test_long_info_symlink_prefix_l() {
    let mut st = regular(1, 1);
    st.mode = 0o120777;
    st.is_symlink = true;
    let out = long_info(&Ok(st), "link.txt", 0, 0);
    assert!(out.starts_with('l'));
}

#[test]
fn test_long_info_error_message() {
    let stat: Result<FileStat, String> = Err("No such file or directory (os error 2)".to_string());
    let out = long_info(&stat, "nope", 0, 0);
    assert!(out.contains("nls: cannot access"));
}

#[test]
fn test_long_info_respects_widths() {
    let out_small = long_info(&Ok(regular(1, 1)), "s.txt", 4, 3);
    let out_big = long_info(&Ok(regular(1234, 1)), "b.txt", 4, 3);
    assert!(out_big.contains("1234"));
    assert!(out_small.contains("  1"));
}

#[test]
fn file_mode_string_reads_each_bit() {
    assert_eq!(file_mode_string(0o644, false, false), "-rw-r--r--");
    assert_eq!(file_mode_string(0o001, false, false), "---------x");
    assert_eq!(file_mode_string(0o400, false, false), "-r--------");
    assert_eq!(file_mode_string(0o40755, true, false), "drwxr-xr-x");
    assert_eq!(file_mode_string(0o4777, false, false), "-rwxrwxrwx");
}

#[test]
fn hidden_needs_a_leading_dot() {
    assert!(!is_hidden(""));
    assert!(!is_hidden("a.b"));
    assert!(is_hidden("."));
    assert!(is_hidden(".."));
}

#[test]
fn decimals() {
    assert_eq!(decimal_string(0), "0");
    assert_eq!(decimal_string(7), "7");
    assert_eq!(decimal_string(21643), "21643");
    assert_eq!(decimal_string(u64::MAX), "18446744073709551615");
    assert_eq!(decimal_width(0), 1);
    assert_eq!(decimal_width(1234), 4);
    assert_eq!(decimal_width(u64::MAX), 20);
}

#[test]
fn time_column_recent_and_old() {
    let recent = LocalTime { year: 2026, month: 7, day: 4, hour: 11, minute: 29 };
    assert_eq!(format_time(&recent, 2026), " 7/ 4  11:29");
    let early = LocalTime { year: 2026, month: 12, day: 31, hour: 1, minute: 2 };
    assert_eq!(format_time(&early, 2026), "12/31  01:02");
    let old = LocalTime { year: 1970, month: 1, day: 1, hour: 9, minute: 0 };
    assert_eq!(format_time(&old, 2026), " 1/ 1 (1970)");
    // both forms have the same width
    assert_eq!(format_time(&recent, 2026).chars().count(), 12);
    assert_eq!(format_time(&old, 2026).chars().count(), 12);
    // a date of a later year than the current one shows its time
    assert_eq!(format_time(&recent, 2025), " 7/ 4  11:29");
    let ancient = LocalTime { year: -45, month: 3, day: 15, hour: 12, minute: 0 };
    assert_eq!(format_time(&ancient, 2026), "  3/15 (-45)");
}

#[test]
fn long_line_matches_the_documented_layout() {
    let recent = LocalTime { year: 2026, month: 7, day: 4, hour: 11, minute: 29 };
    let line = long_info_with(
        &regular(21643, 1),
        Some("km".to_string()),
        Some("staff".to_string()),
        &recent,
        2026,
        "Cargo.lock",
        0,
        0,
    );
    assert_eq!(line, "-rw-r--r--  1 km staff  21643  7/ 4  11:29 Cargo.lock");
    let old = LocalTime { year: 1970, month: 1, day: 1, hour: 9, minute: 0 };
    let line = long_info_with(
        &regular(0, 1),
        Some("km".to_string()),
        Some("staff".to_string()),
        &old,
        2026,
        "an_old_file",
        0,
        0,
    );
    assert_eq!(line, "-rw-r--r--  1 km staff      0  1/ 1 (1970) an_old_file");
}

#[test]
fn long_line_falls_back_to_numeric_ids_and_respects_widths() {
    let t = LocalTime { year: 2026, month: 10, day: 12, hour: 0, minute: 5 };
    let mut st = regular(1234567, 15);
    st.mode = 0o40755;
    st.is_dir = true;
    let line = long_info_with(&st, None, None, &t, 2026, "docs/", 4, 3);
    assert_eq!(line, "drwxr-xr-x  15 501 20 1234567 10/12  00:05 docs/");
}

#[test]
fn access_error_format() {
    assert_eq!(
        access_error_message("x", "No such file or directory (os error 2)"),
        "nls: cannot access 'x': No such file or directory (os error 2)"
    );
    let stat: Result<FileStat, String> = Err("denied".to_string());
    assert_eq!(long_info(&stat, "nope", 0, 0), "nls: cannot access 'nope': denied");
}

#[test]
fn long_info_uses_the_local_calendar() {
    let out = long_info(&Ok(regular(5, 1)), "foo.txt", 0, 0);
    assert!(out.starts_with("-rw-r--r--  1 "));
    assert!(out.ends_with(" foo.txt"));
    assert!(out.contains('/'));
}

#[test]
fn sorting_ignores_case_and_keeps_ties_in_order() {
    assert_eq!(list_names(strings(&["B1", "a2"])), strings(&["a2", "B1"]));
    assert_eq!(
        list_names(strings(&["Zeta", "alpha", ".hidden", "beta", "ALPHA", "Beta"])),
        strings(&["alpha", "ALPHA", "beta", "Beta", "Zeta"])
    );
    assert_eq!(list_names(Vec::new()), Vec::<String>::new());
    assert_eq!(list_names(strings(&[".a", ".b"])), Vec::<String>::new());
    assert_eq!(listing_positions(&strings(&["c", ".x", "a", "b"])), vec![2, 3, 0]);
}

#[test]
fn lexicographic_order_by_code_point() {
    assert!(lex_less("a", "b"));
    assert!(lex_less("a", "ab"));
    assert!(!lex_less("ab", "a"));
    assert!(!lex_less("a", "a"));
    assert!(lex_less("B", "a"));
    assert!(lex_less("z", "é"));
}

#[test]
fn display_names() {
    assert_eq!(display_name("src", true), "src/");
    assert_eq!(display_name("a.txt", false), "a.txt");
}

#[test]
fn base_names() {
    assert_eq!(base_name_of("dir/sub/file.txt"), "file.txt");
    assert_eq!(base_name_of("file.txt"), "file.txt");
    assert_eq!(base_name_of("dir/sub/"), "sub");
    assert_eq!(base_name_of("/"), "/");
    assert_eq!(base_name_of(".."), "..");
}

#[test]
fn default_path_is_current_directory() {
    assert_eq!(paths_or_current(Vec::new()), strings(&["."]));
    assert_eq!(paths_or_current(strings(&["a", "b"])), strings(&["a", "b"]));
}

fn sample_entries() -> Vec<Entry> {
    let mut dir = regular(480, 15);
    dir.mode = 0o40755;
    dir.is_dir = true;
    vec![
        Entry { name: "src".to_string(), stat: Ok(dir) },
        Entry { name: ".git".to_string(), stat: Ok(dir) },
        Entry { name: "Cargo.lock".to_string(), stat: Ok(regular(1234567, 1)) },
        Entry { name: "broken".to_string(), stat: Err("gone".to_string()) },
    ]
}

#[test]
fn short_directory_listing() {
    let lines = directory_short_lines(&sample_entries());
    assert_eq!(lines, strings(&["broken", "Cargo.lock", "src/"]));
}

#[test]
fn long_directory_listing_aligns_columns() {
    let lines = directory_long_lines(&sample_entries());
    assert_eq!(lines.len(), 3);
    assert_eq!(lines[0], "nls: cannot access 'broken': gone");
    assert!(lines[1].starts_with("-rw-r--r--  1 "));
    assert!(lines[1].contains(" 1234567 "));
    assert!(lines[1].ends_with(" Cargo.lock"));
    assert!(lines[2].starts_with("drwxr-xr-x 15 "));
    assert!(lines[2].contains("     480 "));
    assert!(lines[2].ends_with(" src/"));
}

#[test]
fn listing_of_each_kind_of_target() {
    let err = Target::Directory(Err("Permission denied (os error 13)".to_string()));
    match listing_lines("d", &err, false) {
        Err(m) => assert_eq!(m, "nls: cannot access 'd': Permission denied (os error 13)"),
        Ok(_) => panic!("an unreadable directory is an error"),
    }
    let dir = Target::Directory(Ok(sample_entries()));
    assert_eq!(listing_lines("d", &dir, false).unwrap(), strings(&["broken", "Cargo.lock", "src/"]));
    assert_eq!(listing_lines("d", &dir, true).unwrap().len(), 3);
    let file = Target::Other(Ok(regular(5, 1)));
    assert_eq!(listing_lines("a/b/c.txt", &file, false).unwrap(), strings(&["c.txt"]));
    let long = listing_lines("a/b/c.txt", &file, true).unwrap();
    assert_eq!(long.len(), 1);
    assert!(long[0].starts_with("-rw-r--r-- 1 "));
    assert!(long[0].ends_with(" c.txt"));
    let missing = Target::Other(Err("No such file or directory (os error 2)".to_string()));
    assert_eq!(listing_lines("nope", &missing, false).unwrap(), strings(&["nope"]));
    assert_eq!(
        single_path_line("x/nope", &Err("No such file or directory (os error 2)".to_string()), true),
        "nls: cannot access 'nope': No such file or directory (os error 2)"
    );
}

#[test]
fn long_info_dates_chrono_extremes() {
    let mut st = regular(1, 1);
    st.mtime = MAX_TIMESTAMP;
    let out = long_info(&Ok(st), "far", 0, 0);
    // a year after the current one shows the time of day
    assert!(out.contains(':'));
    assert!(out.ends_with(" far"));
    st.mtime = MIN_TIMESTAMP;
    let out = long_info(&Ok(st), "early", 0, 0);
    assert!(out.contains("(-262143)") || out.contains("(-262144)"));
    assert!(out.ends_with(" early"));
}

#[test]
fn short_listing_needs_no_date() {
    let mut st = regular(1, 1);
    st.mtime = i64::MAX;
    let file = Target::Other(Ok(st));
    assert_eq!(listing_lines("x/y", &file, false).unwrap(), strings(&["y"]));
    let hidden_far = vec![
        Entry { name: ".far".to_string(), stat: Ok(st) },
        Entry { name: "near".to_string(), stat: Ok(regular(2, 1)) },
    ];
    let lines = directory_long_lines(&hidden_far);
    assert_eq!(lines.len(), 1);
    assert!(lines[0].ends_with(" near"));
}

#[test]
fn base_names_follow_path_components() {
    assert_eq!(base_name_of("foo.txt/."), "foo.txt");
    assert_eq!(base_name_of("foo.txt/.//"), "foo.txt");
    assert_eq!(base_name_of("foo.txt/.."), "foo.txt/..");
    assert_eq!(base_name_of("."), ".");
    assert_eq!(base_name_of("./"), "./");
    assert_eq!(base_name_of("./a"), "a");
    assert_eq!(base_name_of("/."), "/.");
    assert_eq!(base_name_of("a//b"), "b");
    assert_eq!(base_name_of(""), "");
    assert_eq!(base_name_of("..."), "...");
}

#[test]
fn sorting_by_given_keys() {
    let names = strings(&["x", "y", ".z", "w"]);
    assert_eq!(keyed_positions(&names, &strings(&["b", "a", "0", "b"])), vec![1, 0, 3]);
    assert_eq!(keyed_positions(&names, &strings(&["b", "b", "b", "a"])), vec![3, 0, 1]);
    assert_eq!(keyed_positions(&names, &strings(&["c", "bb", "a", "b"])), vec![3, 1, 0]);
}

#[test]
fn unreadable_entries_fail_short_listings_only() {
    let reads = vec![
        Ok(Entry { name: "a".to_string(), stat: Ok(regular(1, 1)) }),
        Err("Input/output error (os error 5)".to_string()),
        Ok(Entry { name: "b".to_string(), stat: Ok(regular(2, 1)) }),
        Err("second".to_string()),
    ];
    let dup = |v: &Vec<Result<Entry, String>>| -> Vec<Result<Entry, String>> {
        v.iter()
            .map(|r| match r {
                Ok(e) => Ok(Entry { name: e.name.clone(), stat: e.stat.clone() }),
                Err(m) => Err(m.clone()),
            })
            .collect()
    };
    match gather_entries(dup(&reads), false) {
        Err(m) => assert_eq!(m, "Input/output error (os error 5)"),
        Ok(_) => panic!("a short listing fails on an unreadable entry"),
    }
    let kept = gather_entries(reads, true).unwrap();
    let names: Vec<String> = kept.iter().map(|e| e.name.clone()).collect();
    assert_eq!(names, strings(&["a", "b"]));
}

#[test]
fn dating_is_checked_only_where_shown() {
    let mut far = regular(1, 1);
    far.mtime = MAX_TIMESTAMP + 1;
    let other = Target::Other(Ok(far));
    assert!(can_date(&other, false));
    assert!(!can_date(&other, true));
    let hidden = Target::Directory(Ok(vec![
        Entry { name: ".far".to_string(), stat: Ok(far) },
        Entry { name: "near".to_string(), stat: Ok(regular(2, 1)) },
    ]));
    assert!(can_date(&hidden, true));
    let shown = Target::Directory(Ok(vec![Entry { name: "far".to_string(), stat: Ok(far) }]));
    assert!(!can_date(&shown, true));
    let mut early = regular(1, 1);
    early.mtime = MIN_TIMESTAMP;
    assert!(can_date(&Target::Other(Ok(early)), true));
}
