use git_sizes::aggregate::{aggregate, key_of, parent_directory, AggregateError};
use git_sizes::index::{hash_key, KeyIndex};
use git_sizes::objects::{
    id_index, lookup_path, parse_association, parse_associations, rev_list_args, Association,
    ParseError,
};
use git_sizes::pipeline::{build_report, orphan_warning, requested_ids, Report, ReportError};
use git_sizes::report::{layout_line, render_line, render_report, sort_entries};
use git_sizes::sizes::{parse_size_line, parse_sizes, parse_u64, SizeLine};
use git_sizes::table::SizeEntry;
use git_sizes::Opt;

fn strings(v: &[&str]) -> Vec<String> {
    v.iter().map(|s| s.to_string()).collect()
}

fn assocs(v: &[&str]) -> Vec<Association> {
    parse_associations(&strings(v)).unwrap()
}

fn report(history: &[&str], sizes: &[&str], directories: bool) -> Report {
    build_report(&assocs(history), &strings(sizes), directories).unwrap()
}

fn entry(key: &str, size: u64) -> SizeEntry {
    SizeEntry { key: key.to_string(), size }
}

fn pairs(v: &[SizeEntry]) -> Vec<(String, u64)> {
    v.iter().map(|e| (e.key.clone(), e.size)).collect()
}

#[test]
fn rev_list_args_without_filters() {
    assert_eq!(rev_list_args(&vec![]), strings(&["rev-list", "--all", "--objects"]));
}

#[test]
fn rev_list_args_with_filters() {
    assert_eq!(
        rev_list_args(&strings(&["src", "docs/a.md"])),
        strings(&["rev-list", "--all", "--objects", "--", "src", "docs/a.md"])
    );
}

#[test]
fn association_splits_at_first_space() {
    let a = parse_association("abc dir/with space.txt").unwrap();
    assert_eq!(a.id, "abc");
    assert_eq!(a.path, "dir/with space.txt");
    let root = parse_association("abc ").unwrap();
    assert_eq!(root.path, "");
    assert!(parse_association("abc").is_none());
}

#[test]
fn history_line_without_space_is_fatal() {
    let r = parse_associations(&strings(&["a x.txt", "b", "c"]));
    assert_eq!(r.err(), Some(ParseError::MissingSeparator { line: 1 }));
}

#[test]
fn last_association_wins() {
    let a = assocs(&["abc old/b.txt", "def c.txt", "abc a/b.txt"]);
    let ids = id_index(&a);
    assert_eq!(lookup_path(&a, &ids, &"abc".to_string()).unwrap(), "a/b.txt");
    assert_eq!(lookup_path(&a, &ids, &"def".to_string()).unwrap(), "c.txt");
    assert!(lookup_path(&a, &ids, &"zzz".to_string()).is_none());
}

#[test]
fn requested_ids_are_distinct_in_first_order() {
    let a = assocs(&["b x", "a y", "b z", "c w"]);
    assert_eq!(requested_ids(&a), strings(&["b", "a", "c"]));
}

#[test]
fn decimal_sizes() {
    assert_eq!(parse_u64("0"), Some(0));
    assert_eq!(parse_u64("42"), Some(42));
    assert_eq!(parse_u64("18446744073709551615"), Some(u64::MAX));
    assert_eq!(parse_u64("18446744073709551616"), None);
    assert_eq!(parse_u64(""), None);
    assert_eq!(parse_u64("+5"), None);
    assert_eq!(parse_u64("-5"), None);
    assert_eq!(parse_u64("4x"), None);
}

#[test]
fn size_line_kinds() {
    match parse_size_line("deadbeef blob 42") {
        SizeLine::Blob(e) => {
            assert_eq!(e.key, "deadbeef");
            assert_eq!(e.size, 42);
        }
        _ => panic!("expected a blob"),
    }
    assert!(matches!(parse_size_line("abc tree 30"), SizeLine::Other));
    assert!(matches!(parse_size_line("abc commit x"), SizeLine::Other));
    assert!(matches!(parse_size_line("abc missing"), SizeLine::Malformed));
    assert!(matches!(parse_size_line("abc blob 1 2"), SizeLine::Malformed));
    assert!(matches!(parse_size_line("abc blob x"), SizeLine::InvalidSize));
}

#[test]
fn size_table_errors() {
    let r = parse_sizes(&strings(&["a blob 1", "b tree 2", "c blob"]));
    assert_eq!(r.err(), Some(ParseError::MalformedSizeLine { line: 2 }));
    let r = parse_sizes(&strings(&["a blob 1", "c blob -3"]));
    assert_eq!(r.err(), Some(ParseError::InvalidSize { line: 1 }));
}

#[test]
fn size_table_keeps_blobs_once() {
    let t = parse_sizes(&strings(&["a blob 1", "t tree 9", "b blob 2", "a blob 3"])).unwrap();
    assert_eq!(pairs(&t), vec![("a".to_string(), 3), ("b".to_string(), 2)]);
}

#[test]
fn parents() {
    assert_eq!(parent_directory("a/b/c.txt"), Some("a/b".to_string()));
    assert_eq!(parent_directory("a/b.txt"), Some("a".to_string()));
    assert_eq!(parent_directory("README"), None);
    assert_eq!(key_of(&"a/b.txt".to_string(), false), Some("a/b.txt".to_string()));
    assert_eq!(key_of(&"a/b.txt".to_string(), true), Some("a".to_string()));
    assert_eq!(key_of(&"README".to_string(), true), None);
}

#[test]
fn aggregate_per_file_and_per_directory() {
    let a = assocs(&["1 d/x", "2 d/y", "3 e/z", "4 d", "5 top"]);
    let sizes = vec![entry("1", 10), entry("2", 20), entry("3", 5), entry("5", 7), entry("9", 1)];
    let files = aggregate(&a, &sizes, false).unwrap();
    assert_eq!(
        pairs(&files.totals),
        vec![
            ("d/x".to_string(), 10),
            ("d/y".to_string(), 20),
            ("e/z".to_string(), 5),
            ("top".to_string(), 7)
        ]
    );
    assert!(files.orphans.is_empty());
    let dirs = aggregate(&a, &sizes, true).unwrap();
    assert_eq!(pairs(&dirs.totals), vec![("d".to_string(), 30), ("e".to_string(), 5)]);
    assert_eq!(dirs.orphans, strings(&["top"]));
}

#[test]
fn aggregate_overflow() {
    let a = assocs(&["1 d/x", "2 d/y"]);
    let sizes = vec![entry("1", u64::MAX), entry("2", 1)];
    assert!(aggregate(&a, &sizes, false).is_ok());
    assert_eq!(aggregate(&a, &sizes, true).err(), Some(AggregateError::SizeOverflow));
    let r = build_report(&a, &strings(&["1 blob 18446744073709551615", "2 blob 1"]), true);
    assert_eq!(r.err(), Some(ReportError::SizeOverflow));
}

#[test]
fn report_error_from_size_lookup() {
    let r = build_report(&assocs(&["1 x"]), &strings(&["1 blob"]), false);
    assert_eq!(r.err(), Some(ReportError::Parse(ParseError::MalformedSizeLine { line: 0 })));
}

#[test]
fn stable_sort_by_size() {
    let v = vec![entry("a", 5), entry("b", 1), entry("c", 5), entry("d", 0), entry("e", 1)];
    assert_eq!(
        pairs(&sort_entries(&v)),
        vec![
            ("d".to_string(), 0),
            ("b".to_string(), 1),
            ("e".to_string(), 1),
            ("a".to_string(), 5),
            ("c".to_string(), 5)
        ]
    );
    assert!(sort_entries(&vec![]).is_empty());
}

#[test]
fn line_layout() {
    assert_eq!(layout_line("42 B", "x.txt"), "42 B      x.txt");
    assert_eq!(layout_line("1234567890123", "y"), "1234567890123y");
    assert_eq!(layout_line("", ""), "          ");
}

#[test]
fn rendered_sizes_come_from_bytesize() {
    assert_eq!(render_line(&entry("x.txt", 42)), "42 B      x.txt");
    assert_eq!(render_line(&entry("big.bin", 2048)), "2.0 kiB   big.bin");
    assert_eq!(render_line(&entry("e", 1023)), "1023 B    e");
}

#[test]
fn report_is_sorted_ascending() {
    let lines = render_report(&vec![entry("b", 300), entry("a", 100), entry("c", 200)]);
    assert_eq!(lines, strings(&["100 B     a", "200 B     c", "300 B     b"]));
}

#[test]
fn single_blob_line() {
    let r = report(&["deadbeef x.txt"], &["deadbeef blob 42"], false);
    assert_eq!(r.lines, strings(&["42 B      x.txt"]));
}

#[test]
fn recurring_identifier_counted_once() {
    let r = report(
        &["abc old/b.txt", "abc a/b.txt"],
        &["abc blob 100", "abc blob 300"],
        false,
    );
    assert_eq!(r.lines, strings(&["300 B     a/b.txt"]));
}

#[test]
fn distinct_blobs_at_one_path_add_up() {
    let r = report(
        &["aaa a/b.txt", "bbb a/b.txt"],
        &["aaa blob 100", "bbb blob 300"],
        false,
    );
    assert_eq!(r.lines, strings(&["400 B     a/b.txt"]));
}

#[test]
fn top_level_file_in_directory_mode() {
    let r = report(&["aaa README"], &["aaa blob 10"], true);
    assert!(r.lines.is_empty());
    assert_eq!(r.orphans, strings(&["README"]));
    assert_eq!(orphan_warning(&r.orphans[0]), "File has no parent directory: README");
}

#[test]
fn trees_and_commits_are_skipped() {
    let r = report(
        &["t1 ", "t2 src", "b1 src/main.rs"],
        &["t1 tree 50", "t2 tree 40", "b1 blob 77"],
        false,
    );
    assert_eq!(r.lines, strings(&["77 B      src/main.rs"]));
}

#[test]
fn conservation_on_a_sample() {
    let history = ["1 a/x", "2 a/y", "3 b/z", "4 c", "5 a/x"];
    let sizes = ["1 blob 10", "2 blob 20", "3 blob 30", "4 blob 40", "5 blob 50", "6 blob 60"];
    let a = assocs(&history);
    let t = parse_sizes(&strings(&sizes)).unwrap();
    let files = aggregate(&a, &t, false).unwrap();
    let sum: u64 = files.totals.iter().map(|e| e.size).sum();
    assert_eq!(sum, 150);
}

#[test]
fn directory_collapse_on_a_sample() {
    let history = ["1 a/x", "2 a/y", "3 a/b/z", "4 c"];
    let sizes = ["1 blob 10", "2 blob 20", "3 blob 30", "4 blob 40"];
    let a = assocs(&history);
    let t = parse_sizes(&strings(&sizes)).unwrap();
    let files = aggregate(&a, &t, false).unwrap();
    let dirs = aggregate(&a, &t, true).unwrap();
    for d in ["a", "a/b"] {
        let per_file: u64 = files
            .totals
            .iter()
            .filter(|e| parent_directory(&e.key).as_deref() == Some(d))
            .map(|e| e.size)
            .sum();
        let dir_total = dirs.totals.iter().find(|e| e.key == d).unwrap().size;
        assert_eq!(per_file, dir_total);
    }
    assert_eq!(dirs.orphans, strings(&["c"]));
}

#[test]
fn report_lines_ascend_and_repeat() {
    let history = ["1 a/x", "2 a/y", "3 b/z"];
    let sizes = ["3 blob 3000", "1 blob 10", "2 blob 2000"];
    let first = report(&history, &sizes, false);
    let second = report(&history, &sizes, false);
    assert_eq!(first.lines, second.lines);
    assert_eq!(
        first.lines,
        strings(&["10 B      a/x", "2.0 kiB   a/y", "2.9 kiB   b/z"])
    );
}

#[test]
fn empty_history() {
    let r = report(&[], &[], false);
    assert!(r.lines.is_empty());
    assert!(r.orphans.is_empty());
}

#[test]
fn options_hold_mode_and_filters() {
    let o = Opt { directories: true, paths: strings(&["src"]) };
    assert!(o.directories);
    assert_eq!(o.paths, strings(&["src"]));
}

#[test]
fn index_finds_last_position() {
    let mut ix = KeyIndex::new();
    for k in ["a", "b", "a", "0123456789abcdef0123", "x0123456789abcdef0123"] {
        ix.push(k.to_string());
    }
    assert_eq!(ix.find_last(&"a".to_string()), Some(2));
    assert_eq!(ix.find_last(&"b".to_string()), Some(1));
    assert_eq!(ix.find_last(&"0123456789abcdef0123".to_string()), Some(3));
    assert_eq!(ix.find_last(&"x0123456789abcdef0123".to_string()), Some(4));
    assert_eq!(ix.find_last(&"c".to_string()), None);
    assert_eq!(hash_key("0123456789abcdef0123"), hash_key("x0123456789abcdef0123"));
    assert_eq!(hash_key(""), 0);
    assert_eq!(hash_key("a"), 97);
    assert_eq!(hash_key("ab"), 97 * 31 + 98);
}

#[test]
fn many_objects() {
    let n = 20000;
    let history: Vec<String> = (0..n).map(|i| format!("{:040x} d{}/f{}", i, i % 7, i)).collect();
    let sizes: Vec<String> = (0..n).map(|i| format!("{:040x} blob {}", i, i)).collect();
    let a = parse_associations(&history).unwrap();
    assert_eq!(requested_ids(&a).len(), n);
    let r = build_report(&a, &sizes, true).unwrap();
    assert_eq!(r.lines.len(), 7);
    let files = build_report(&a, &sizes, false).unwrap();
    assert_eq!(files.lines.len(), n);
    assert!(files.lines[0].ends_with("d0/f0"));
}
