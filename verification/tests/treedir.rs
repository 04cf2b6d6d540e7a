use treedir::error::{FileTimeError, IoErrorKind};
use treedir::error::{file_time_error_message, io_error_message};
use treedir::file::{get_file_size, get_files, get_files_oos, FileKind, FsTree, GetFile};
use treedir::render::{get_file_icon, print_file, render_sub_files, render_tree};
use treedir::util::{append_level, hidden_check, parse_file_size, Sort};

fn leaf(name: &str, hidden: bool, created: u64, size: u64) -> FsTree {
    FsTree::Leaf {
        name: name.to_string(),
        hidden,
        kind: FileKind::File,
        created,
        size,
    }
}

fn dir(name: &str, hidden: bool, created: u64, entries: Vec<FsTree>) -> FsTree {
    FsTree::Dir {
        name: name.to_string(),
        hidden,
        created,
        listing: Some(entries),
    }
}

fn unreadable_dir(name: &str) -> FsTree {
    FsTree::Dir {
        name: name.to_string(),
        hidden: false,
        created: 0,
        listing: None,
    }
}

fn root_info(g: GetFile) -> treedir::file::FileInfo {
    match g {
        GetFile::File(f) => f,
        GetFile::Size(_) => panic!("expected a materialized entry"),
    }
}

#[test]
fn format_size_boundary_units() {
    assert_eq!(parse_file_size(1023), "1023.00 B");
    assert_eq!(parse_file_size(1024), "1.00 KB");
    assert_eq!(parse_file_size(1024 * 1024), "1.00 MB");
    assert_eq!(parse_file_size(0), "0.00 B");
}

#[test]
fn format_size_fractions_and_large_units() {
    assert_eq!(parse_file_size(1536), "1.50 KB");
    assert_eq!(parse_file_size(123456), "120.56 KB");
    assert_eq!(parse_file_size(1024 * 1024 * 1024), "1.00 GB");
    assert_eq!(parse_file_size(1024u64.pow(4)), "1.00 TB");
    assert_eq!(parse_file_size(1024u64.pow(5)), "1.00 PB");
    assert_eq!(parse_file_size(u64::MAX), "16384.00 PB");
}

#[test]
fn unreadable_child_contributes_zero_not_an_error() {
    let t = dir(
        "top",
        false,
        7,
        vec![
            unreadable_dir("locked"),
            leaf("a", false, 1, 100),
            leaf("b", false, 2, 200),
        ],
    );
    let f = root_info(get_files(&t, 1, 1, false));
    assert_eq!(f.file_size, 300);
    let msg = io_error_message(&IoErrorKind::PermissionDenied, "/top/locked", "");
    assert_eq!(msg, "The program doesn't have permission to access /top/locked");
}

#[test]
fn walk_scenario_hidden_excluded_and_rollup_line() {
    // root `a` holds `f1` (50 bytes), hidden `.f2` (50 bytes), and `b/`
    // holding `f3` (100 bytes); walked to one level without hidden entries.
    let t = dir(
        "a",
        false,
        1,
        vec![
            leaf("f1", false, 5, 50),
            leaf(".f2", true, 6, 50),
            dir("b", false, 7, vec![leaf("f3", false, 8, 100)]),
        ],
    );
    let f = root_info(get_files(&t, 1, 1, false));
    assert_eq!(f.file_size, 150);
    let lines = render_tree(&t, 1, false, &Sort::NameASC, false);
    assert_eq!(lines, vec!["[D] b (100.00 B)", "[F] f1 (50.00 B)"]);
}

#[test]
fn size_is_depth_independent() {
    let t = dir(
        "r",
        false,
        0,
        vec![
            dir("x", false, 1, vec![leaf("f", false, 2, 10), dir("y", false, 3, vec![leaf("g", false, 4, 20)])]),
            leaf("h", false, 5, 5),
        ],
    );
    for levels in [0u8, 1, 2, 3, 9] {
        let f = root_info(get_files(&t, 1, levels, false));
        assert_eq!(f.file_size, 35);
    }
}

#[test]
fn depth_floor_gives_flat_rollups_with_full_totals() {
    let t = dir(
        "r",
        false,
        0,
        vec![dir("x", false, 1, vec![leaf("f", false, 2, 10)]), leaf("h", false, 3, 5)],
    );
    let f = root_info(get_files(&t, 1, 0, false));
    assert_eq!(f.file_size, 15);
    let subs = f.sub_files.expect("root materializes its children");
    assert_eq!(subs.len(), 2);
    for child in &subs {
        match child {
            GetFile::File(c) => assert!(c.sub_files.is_none()),
            GetFile::Size(_) => panic!("no bare sizes at the depth floor"),
        }
    }
}

#[test]
fn hidden_filtering_is_all_or_nothing() {
    let t = dir(
        "r",
        false,
        0,
        vec![
            dir("secret", true, 1, vec![leaf("f", false, 2, 100), leaf("g", false, 3, 200)]),
            leaf("plain", false, 4, 50),
        ],
    );
    let shown = root_info(get_files(&t, 1, 3, true));
    assert_eq!(shown.file_size, 350);
    let filtered = root_info(get_files(&t, 1, 3, false));
    assert_eq!(filtered.file_size, 50);
    assert_eq!(filtered.sub_files.map(|s| s.len()), Some(1));
}

#[test]
fn sort_reverses_between_directions_without_ties() {
    let t = dir(
        "r",
        false,
        0,
        vec![
            leaf("cherry", false, 3, 30),
            leaf("apple", false, 1, 10),
            leaf("banana", false, 2, 20),
        ],
    );
    let asc = render_tree(&t, 1, false, &Sort::NameASC, false);
    let mut dec = render_tree(&t, 1, false, &Sort::NameDEC, false);
    dec.reverse();
    assert_eq!(asc, dec);
    assert_eq!(
        asc,
        vec!["[F] apple (10.00 B)", "[F] banana (20.00 B)", "[F] cherry (30.00 B)"]
    );
    let size_dec = render_tree(&t, 1, false, &Sort::SizeDEC, false);
    assert_eq!(
        size_dec,
        vec!["[F] cherry (30.00 B)", "[F] banana (20.00 B)", "[F] apple (10.00 B)"]
    );
    let date_asc = render_tree(&t, 1, false, &Sort::DateASC, false);
    assert_eq!(
        date_asc,
        vec!["[F] apple (10.00 B)", "[F] banana (20.00 B)", "[F] cherry (30.00 B)"]
    );
}

#[test]
fn sort_is_stable_on_ties() {
    let t = dir(
        "r",
        false,
        0,
        vec![leaf("zeta", false, 1, 10), leaf("alpha", false, 2, 10), leaf("mid", false, 3, 10)],
    );
    let by_size = render_tree(&t, 1, false, &Sort::SizeASC, false);
    assert_eq!(
        by_size,
        vec!["[F] zeta (10.00 B)", "[F] alpha (10.00 B)", "[F] mid (10.00 B)"]
    );
}

#[test]
fn deep_render_indents_and_orders_depth_first() {
    let t = dir(
        "r",
        false,
        0,
        vec![
            dir("b", false, 1, vec![leaf("inner", false, 2, 10)]),
            leaf("a", false, 3, 5),
        ],
    );
    let lines = render_tree(&t, 2, false, &Sort::NameASC, false);
    assert_eq!(
        lines,
        vec!["[F] a (5.00 B)", "[D] b (10.00 B)", " \u{2514}[F] inner (10.00 B)"]
    );
}

#[test]
fn failed_subwalk_stays_a_bare_size_and_renders_nothing() {
    let t = dir(
        "r",
        false,
        0,
        vec![unreadable_dir("gone"), leaf("a", false, 1, 5)],
    );
    // below the cutoff the unreadable directory comes back as a bare size
    let f = root_info(get_files(&t, 1, 3, false));
    let subs = f.sub_files.expect("root materializes its children");
    assert!(subs.iter().any(|c| matches!(c, GetFile::Size(0))));
    let lines = render_tree(&t, 3, false, &Sort::NameASC, false);
    assert_eq!(lines, vec!["[F] a (5.00 B)"]);
}

#[test]
fn rollup_sums_below_the_cutoff() {
    let t = dir(
        "top",
        false,
        0,
        vec![
            leaf("f", false, 1, 1),
            dir("d", false, 2, vec![leaf("g", true, 3, 7), leaf("h", false, 4, 2)]),
        ],
    );
    assert_eq!(get_files_oos(&t, false), 3);
    assert_eq!(get_files_oos(&t, true), 10);
    assert_eq!(get_files_oos(&leaf("f", false, 1, 9), true), 0);
}

#[test]
fn meta_error_entries_are_skipped() {
    let t = dir(
        "r",
        false,
        0,
        vec![
            FsTree::MetaError { name: "broken".to_string() },
            leaf("ok", false, 1, 40),
        ],
    );
    let f = root_info(get_files(&t, 1, 1, false));
    assert_eq!(f.file_size, 40);
    assert_eq!(f.sub_files.map(|s| s.len()), Some(1));
}

#[test]
fn sizes_saturate_instead_of_wrapping() {
    let t = dir(
        "r",
        false,
        0,
        vec![leaf("a", false, 1, u64::MAX), leaf("b", false, 2, 100)],
    );
    let f = root_info(get_files(&t, 1, 1, false));
    assert_eq!(f.file_size, u64::MAX);
    assert_eq!(get_files_oos(&t, false), u64::MAX);
}

#[test]
fn walking_a_plain_file_or_unreadable_root_yields_a_bare_size() {
    match get_files(&leaf("f", false, 1, 9), 1, 1, false) {
        GetFile::Size(s) => assert_eq!(s, 0),
        GetFile::File(_) => panic!("a plain file is not walked as a directory"),
    }
    match get_files(&unreadable_dir("x"), 1, 1, false) {
        GetFile::Size(s) => assert_eq!(s, 0),
        GetFile::File(_) => panic!("an unreadable root is not materialized"),
    }
}

#[test]
fn error_messages_name_the_path_and_cause() {
    assert_eq!(
        io_error_message(&IoErrorKind::NotFound, "/nope", ""),
        "The specified path /nope probably doesn't exist"
    );
    assert_eq!(
        io_error_message(&IoErrorKind::Other, "/d", "device error"),
        "Could not read directory \"/d\" due to the error:\ndevice error"
    );
    let e = FileTimeError::ElapsedError { detail: "clock skew".to_string() };
    assert_eq!(
        file_time_error_message(&e, "/f"),
        "Could not get elapsed time for file \"/f\" due to the error:\nclock skew"
    );
    let e = FileTimeError::IoError { kind: IoErrorKind::NotFound, detail: String::new() };
    assert_eq!(
        file_time_error_message(&e, "/f"),
        "The specified path /f probably doesn't exist"
    );
}

#[test]
fn icons_match_kind_and_terminal() {
    assert_eq!(get_file_icon(&FileKind::Directory, false), "[D]");
    assert_eq!(get_file_icon(&FileKind::File, false), "[F]");
    assert_eq!(get_file_icon(&FileKind::Symlink, false), "[S]");
    assert_eq!(get_file_icon(&FileKind::Unknown, false), "[?]");
    assert_eq!(get_file_icon(&FileKind::Directory, true), "\u{1F4C1}");
    assert_eq!(get_file_icon(&FileKind::File, true), "\u{1F4C4}");
    assert_eq!(get_file_icon(&FileKind::Symlink, true), "\u{1F517}");
    assert_eq!(get_file_icon(&FileKind::Unknown, true), "\u{2753}");
}

#[test]
fn indentation_grows_with_level() {
    assert_eq!(append_level(&1), "");
    assert_eq!(append_level(&2), " \u{2514}");
    assert_eq!(append_level(&4), "   \u{2514}");
}

#[test]
fn print_file_joins_indent_icon_name_and_size() {
    let t = dir("r", false, 0, vec![leaf("notes.txt", false, 1, 2048)]);
    let f = root_info(get_files(&t, 1, 1, false));
    let subs = f.sub_files.expect("root materializes its children");
    match &subs[0] {
        GetFile::File(child) => {
            assert_eq!(print_file(child, false), "[F] notes.txt (2.00 KB)");
            assert_eq!(print_file(child, true), "\u{1F4C4} notes.txt (2.00 KB)");
        }
        GetFile::Size(_) => panic!("a file entry is materialized"),
    }
}

#[test]
fn hidden_check_is_the_skip_decision() {
    assert!(hidden_check(true, false));
    assert!(!hidden_check(true, true));
    assert!(!hidden_check(false, false));
    assert!(!hidden_check(false, true));
}

#[test]
fn get_file_size_reads_either_outcome() {
    assert_eq!(get_file_size(&GetFile::Size(17)), 17);
    let f = root_info(get_files(&dir("r", false, 0, vec![leaf("a", false, 1, 4)]), 1, 1, false));
    assert_eq!(get_file_size(&GetFile::File(f)), 4);
}

#[test]
fn render_sub_files_appends_to_the_given_lines() {
    let t = dir("r", false, 0, vec![leaf("a", false, 1, 4)]);
    let f = root_info(get_files(&t, 1, 1, false));
    let subs = f.sub_files.expect("root materializes its children");
    let mut out = vec!["header".to_string()];
    render_sub_files(&subs, &Sort::NameASC, false, 1, &mut out);
    assert_eq!(out, vec!["header", "[F] a (4.00 B)"]);
}
