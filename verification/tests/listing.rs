use lsr::collect::collect_entries;
use lsr::flags::Flags;
use lsr::layout::{longest_len, render_filenames, render_filenames_to_terminal};
use lsr::longfmt::{
    display_id, format_long_entry, get_bit, mtime_display, owner_display, push_permissions,
    render_long, EntryMetadata, FileKind, LongEntry,
};
use lsr::sort::{sort_by_mod_time, sort_names_ci, sort_names_lex, TimedName};
use lsr::text::to_decimal;
use lsr::walker::{render_listing, render_tree, DirTree, TreeEntry};

fn s(x: &str) -> String {
    x.to_string()
}

fn meta(kind: FileKind, mode: u32, size: u64, mtime: i64, blocks: u64) -> EntryMetadata {
    EntryMetadata {
        kind,
        mode,
        nlink: 1,
        uid: 0,
        gid: 0,
        size,
        mtime,
        blocks,
        symlink_target: None,
    }
}

#[test]
fn default_listing_hides_and_sorts_case_insensitively() {
    // A directory holding [".hidden", "b.txt", "A.txt"], no flags.
    let raw = vec![s(".hidden"), s("b.txt"), s("A.txt")];
    let mut names = collect_entries(&raw, false);
    sort_names_ci(&mut names);
    assert_eq!(names, vec![s("A.txt"), s("b.txt")]);
}

#[test]
fn show_all_prepends_dot_and_dot_dot() {
    let raw = vec![s(".hidden"), s("b.txt"), s("A.txt")];
    let mut names = collect_entries(&raw, true);
    sort_names_ci(&mut names);
    assert_eq!(
        names,
        vec![s("."), s(".."), s(".hidden"), s("A.txt"), s("b.txt")]
    );
}

#[test]
fn empty_directory_lists_nothing() {
    let raw: Vec<String> = vec![];
    let mut names = collect_entries(&raw, false);
    sort_names_ci(&mut names);
    assert!(names.is_empty());
    let lines = render_filenames(&names, Some(80));
    assert!(lines.is_empty());
    let entries: Vec<LongEntry> = vec![];
    let long = render_long(&entries);
    assert_eq!(long, vec![s("total 0")]);
}

#[test]
fn recursive_walk_emits_headers_in_order() {
    // root/{a.txt, sub/{c.txt}}
    let sub = DirTree {
        path: s("root/sub"),
        entries: vec![TreeEntry { name: s("c.txt"), meta: None, subtree: None }],
    };
    let root = DirTree {
        path: s("root"),
        entries: vec![
            TreeEntry { name: s("a.txt"), meta: None, subtree: None },
            TreeEntry { name: s("sub"), meta: None, subtree: Some(Box::new(sub)) },
        ],
    };
    let mut flags = Flags::new();
    flags.toggle_on('R');
    let lines = render_tree(&root, &flags, Some(80));
    assert_eq!(
        lines,
        vec![
            s("root:"),
            s("a.txt  sub  "),
            s(""),
            s("root/sub:"),
            s("c.txt  "),
            s(""),
        ]
    );
}

#[test]
fn case_insensitive_sort_is_stable_for_equal_keys() {
    // All three names fold to "ab": their input order must survive.
    let mut names = vec![s("AB"), s("ab"), s("Ab")];
    sort_names_ci(&mut names);
    assert_eq!(names, vec![s("AB"), s("ab"), s("Ab")]);
}

#[test]
fn case_insensitive_sort_orders_by_folded_key() {
    let mut names = vec![s("b"), s("A")];
    sort_names_ci(&mut names);
    assert_eq!(names, vec![s("A"), s("b")]);
    // Raw codepoint order would put "B" (0x42) before "a" (0x61); the
    // folded keys order them the other way around.
    let mut mixed = vec![s("B"), s("a")];
    sort_names_ci(&mut mixed);
    assert_eq!(mixed, vec![s("a"), s("B")]);
}

#[test]
fn lexicographic_sort_uses_codepoints() {
    let mut names = vec![s("b"), s("A"), s("Z")];
    sort_names_lex(&mut names);
    assert_eq!(names, vec![s("A"), s("Z"), s("b")]);
}

#[test]
fn time_sort_is_newest_first_with_name_tiebreak() {
    let mut v = vec![
        TimedName { name: s("old"), mtime: 10 },
        TimedName { name: s("new"), mtime: 20 },
        TimedName { name: s("zame"), mtime: 15 },
        TimedName { name: s("same"), mtime: 15 },
    ];
    sort_by_mod_time(&mut v);
    let names: Vec<String> = v.iter().map(|t| t.name.clone()).collect();
    assert_eq!(names, vec![s("new"), s("same"), s("zame"), s("old")]);
    for w in v.windows(2) {
        assert!(w[0].mtime >= w[1].mtime);
    }
}

#[test]
fn single_line_mode_when_everything_fits() {
    let names = vec![s("aa"), s("bb")];
    let lines = render_filenames(&names, Some(8));
    assert_eq!(lines, vec![s("aa  bb  ")]);
}

#[test]
fn grid_mode_when_line_would_overflow() {
    // Total rendered width is 15 > 9, so the grid is used:
    // 2 columns of 2 rows, filled column-major.
    let names = vec![s("aaa"), s("bbb"), s("ccc")];
    let lines = render_filenames(&names, Some(9));
    assert_eq!(lines, vec![s("aaa  ccc  "), s("bbb  ")]);
}

#[test]
fn grid_pads_to_the_column_width() {
    // First column holds "a" and "ccc", so "a" is padded to width 3.
    let names = vec![s("a"), s("ccc"), s("dd"), s("e")];
    let lines = render_filenames(&names, Some(8));
    assert_eq!(lines, vec![s("a    dd  "), s("ccc  e   ")]);
}

#[test]
fn unknown_width_falls_back_to_one_name_per_line() {
    let names = vec![s("one"), s("two")];
    let lines = render_filenames(&names, None);
    assert_eq!(lines, vec![s("one"), s("two")]);
}

#[test]
fn render_to_terminal_yields_some_layout() {
    let names = vec![s("a")];
    let lines = render_filenames_to_terminal(&names);
    assert_eq!(lines.len(), 1);
    assert!(lines[0].starts_with("a"));
}

#[test]
fn longest_len_measures_the_longest_name() {
    let names = vec![s("a"), s("abc"), s("ab")];
    assert_eq!(longest_len(&names), 3);
    let none: Vec<String> = vec![];
    assert_eq!(longest_len(&none), 0);
}

#[test]
fn permissions_render_rwx_by_bit() {
    // 0o755: rwxr-xr-x.
    let mut out = String::new();
    push_permissions(0o755, &mut out);
    assert_eq!(out, s("rwxr-xr-x"));
    let mut out2 = String::new();
    push_permissions(0, &mut out2);
    assert_eq!(out2, s("---------"));
    let mut out3 = String::new();
    push_permissions(0o644, &mut out3);
    assert_eq!(out3, s("rw-r--r--"));
}

#[test]
fn get_bit_tests_single_positions() {
    assert!(get_bit(0b100, 2));
    assert!(!get_bit(0b100, 1));
    assert!(get_bit(1 << 8, 8));
}

#[test]
fn decimal_rendering() {
    assert_eq!(to_decimal(0), s("0"));
    assert_eq!(to_decimal(7), s("7"));
    assert_eq!(to_decimal(1234567890), s("1234567890"));
}

#[test]
fn epoch_seconds_format_as_month_day_time() {
    assert_eq!(mtime_display(0), s("Jan  1 00:00"));
    assert_eq!(mtime_display(1000000000), s("Sep  9 01:46"));
    assert_eq!(mtime_display(-1), s("?"));
}

#[test]
fn identity_falls_back_to_the_numeric_id() {
    assert_eq!(display_id(None, 42), s("42"));
    assert_eq!(display_id(Some(s("bob")), 42), s("bob"));
    // Whatever the machine's user database says, the lookup never fails.
    let shown = owner_display(4294901760);
    assert!(!shown.is_empty());
}

#[test]
fn long_entry_line_is_assembled_exactly() {
    let m = meta(FileKind::Regular, 0o644, 5, 0, 8);
    let line = format_long_entry(
        &s("f.txt"),
        &m,
        &s("alice"),
        &s("staff"),
        &s("Jan  1 00:00"),
    );
    assert_eq!(line, s("-rw-r--r-- 1 alice staff    5  Jan  1 00:00 f.txt"));
}

#[test]
fn long_entry_line_marks_symlinks() {
    let mut m = meta(FileKind::Symlink, 0o777, 1, 0, 0);
    m.symlink_target = Some(s("target/path"));
    let line = format_long_entry(&s("link"), &m, &s("o"), &s("g"), &s("Jan  1 00:00"));
    assert_eq!(line, s("lrwxrwxrwx 1 o g    1  Jan  1 00:00 link -> target/path"));
}

#[test]
fn long_listing_totals_blocks_and_marks_missing_metadata() {
    let entries = vec![
        LongEntry { name: s("a"), meta: Some(meta(FileKind::Regular, 0o644, 1, 0, 3)) },
        LongEntry { name: s("gone"), meta: None },
        LongEntry { name: s("b"), meta: Some(meta(FileKind::Directory, 0o755, 2, 0, 4)) },
    ];
    let lines = render_long(&entries);
    assert_eq!(lines.len(), 4);
    assert_eq!(lines[0], s("total 3"));
    assert_eq!(lines[2], s("?????????? gone"));
    assert!(lines[1].ends_with(" a"));
    assert!(lines[3].starts_with("d"));
    assert!(lines[3].ends_with(" b"));
}

#[test]
fn listing_respects_the_time_sort_flag() {
    let entries = vec![
        TreeEntry {
            name: s("older"),
            meta: Some(meta(FileKind::Regular, 0o644, 1, 100, 0)),
            subtree: None,
        },
        TreeEntry {
            name: s("newer"),
            meta: Some(meta(FileKind::Regular, 0o644, 1, 200, 0)),
            subtree: None,
        },
    ];
    let mut flags = Flags::new();
    flags.toggle_on('t');
    let lines = render_listing(&entries, &flags, Some(80));
    assert_eq!(lines, vec![s("newer  older  ")]);
}

#[test]
fn walk_skips_hidden_directories_without_show_all() {
    let hidden = DirTree {
        path: s("root/.git"),
        entries: vec![TreeEntry { name: s("HEAD"), meta: None, subtree: None }],
    };
    let root = DirTree {
        path: s("root"),
        entries: vec![
            TreeEntry { name: s(".git"), meta: None, subtree: Some(Box::new(hidden)) },
            TreeEntry { name: s("src"), meta: None, subtree: None },
        ],
    };
    let flags = Flags::new();
    let lines = render_tree(&root, &flags, Some(80));
    assert_eq!(lines, vec![s("root:"), s("src  "), s("")]);
}

#[test]
fn unknown_flag_characters_are_rejected() {
    let mut flags = Flags::new();
    assert!(!flags.try_toggle_on('z'));
    assert!(!flags.long_format);
    assert!(!flags.recursive);
    assert!(!flags.show_all);
    assert!(!flags.reverse);
    assert!(!flags.sort_by_time);
    assert!(flags.try_toggle_on('l'));
    assert!(flags.long_format);
    assert!(flags.try_toggle_on('a'));
    assert!(flags.show_all);
    assert!(flags.try_toggle_on('r'));
    assert!(flags.reverse);
}

#[test]
fn flags_start_cleared() {
    let flags = Flags::new();
    assert!(!flags.long_format);
    assert!(!flags.recursive);
    assert!(!flags.show_all);
    assert!(!flags.reverse);
    assert!(!flags.sort_by_time);
}
