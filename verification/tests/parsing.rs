use quick_commit::changes::{ChangeSet, Kind};
use quick_commit::parser::{kind_of, parse, parse_status, ParseError, Parser};

fn names(items: &Vec<String>) -> Vec<&str> {
    items.iter().map(|s| s.as_str()).collect()
}

fn entries(list: &[&str]) -> Vec<String> {
    list.iter().map(|s| s.to_string()).collect()
}

#[test]
fn empty_report_is_fetch_empty() {
    assert_eq!(parse(b""), Err(ParseError::FetchEmpty));
}

#[test]
fn report_of_three_kinds() {
    let cs = parse(b"M  src/main.rs\0A  foo.bar\0D  bar.foo\0").unwrap();
    assert_eq!(cs.modified().count(), 1);
    assert_eq!(names(cs.modified().items()), vec!["main.rs"]);
    assert_eq!(cs.added().count(), 1);
    assert_eq!(names(cs.added().items()), vec!["foo.bar"]);
    assert_eq!(cs.deleted().count(), 1);
    assert_eq!(names(cs.deleted().items()), vec!["bar.foo"]);
    assert_eq!(cs.renamed().count(), 0);
    assert!(cs.renamed().items().is_empty());
    assert_eq!(cs.total(), 3);
}

#[test]
fn rename_keeps_both_basenames() {
    let cs = parse(b"R  new/path.txt\0old/path.txt").unwrap();
    assert_eq!(cs.renamed().count(), 1);
    assert_eq!(names(cs.renamed().items()), vec!["path.txt", "path.txt"]);
    assert_eq!(cs.modified().count(), 0);
    assert_eq!(cs.added().count(), 0);
    assert_eq!(cs.deleted().count(), 0);
    assert_eq!(cs.total(), 1);
}

#[test]
fn rename_stores_new_name_before_old_name() {
    let cs = parse(b"R  docs/NEW.md\0docs/OLD.md\0").unwrap();
    assert_eq!(names(cs.renamed().items()), vec!["NEW.md", "OLD.md"]);
}

#[test]
fn dangling_rename_is_malformed() {
    assert_eq!(parse(b"R  LICENSE.bak\0"), Err(ParseError::MalformedRecord));
    assert_eq!(parse(b"R  LICENSE.bak"), Err(ParseError::MalformedRecord));
    assert_eq!(parse(b"M  a\0R  b\0"), Err(ParseError::MalformedRecord));
}

#[test]
fn short_record_is_malformed() {
    assert_eq!(parse(b"M \0"), Err(ParseError::MalformedRecord));
    assert_eq!(parse(b"M"), Err(ParseError::MalformedRecord));
    assert_eq!(parse(b"??\0"), Err(ParseError::MalformedRecord));
    assert_eq!(parse(b"M  a\0xy\0A  b\0"), Err(ParseError::MalformedRecord));
}

#[test]
fn record_of_three_characters_has_an_empty_name() {
    let cs = parse(b"M  \0").unwrap();
    assert_eq!(cs.modified().count(), 1);
    assert_eq!(names(cs.modified().items()), vec![""]);
}

#[test]
fn lone_nul_is_one_empty_record() {
    assert_eq!(parse(b"\0"), Err(ParseError::MalformedRecord));
}

#[test]
fn only_one_trailing_nul_is_stripped() {
    assert_eq!(parse(b"M  a\0\0"), Err(ParseError::MalformedRecord));
    assert!(parse(b"M  a\0").is_ok());
}

#[test]
fn report_without_trailing_nul_is_read() {
    let with = parse(b"M  a\0A  b\0").unwrap();
    let without = parse(b"M  a\0A  b").unwrap();
    assert_eq!(with, without);
    assert_eq!(without.total(), 2);
}

#[test]
fn short_entry_behind_a_rename_is_a_path() {
    let cs = parse(b"R  b\0a\0").unwrap();
    assert_eq!(names(cs.renamed().items()), vec!["b", "a"]);
    let cs = parse(b"R  b\0\0").unwrap();
    assert_eq!(names(cs.renamed().items()), vec!["b", ""]);
}

#[test]
fn entry_behind_a_rename_is_not_read_as_a_record() {
    let cs = parse(b"R  new.txt\0M  old.txt\0").unwrap();
    assert_eq!(cs.modified().count(), 0);
    assert_eq!(names(cs.renamed().items()), vec!["new.txt", "M  old.txt"]);
    assert_eq!(cs.total(), 1);
}

#[test]
fn invalid_utf8_is_decode_error() {
    assert_eq!(parse(b"M  \xff\0"), Err(ParseError::DecodeError));
    assert_eq!(parse(b"\xc3"), Err(ParseError::DecodeError));
    assert_eq!(parse(b"\xc3\0"), Err(ParseError::DecodeError));
}

#[test]
fn decoding_comes_before_records() {
    assert_eq!(parse(b"M\0A  \xff\xfe"), Err(ParseError::DecodeError));
    assert_eq!(parse(b"R  a\0b\0R  \x80"), Err(ParseError::DecodeError));
}

#[test]
fn unknown_codes_are_passed_over() {
    let cs = parse(b"?? notes.txt\0!! target\0 M foo.foo\0U  both\0C  copy\0").unwrap();
    assert_eq!(cs.total(), 0);
    assert!(cs.modified().items().is_empty());
    assert!(cs.added().items().is_empty());
    assert!(cs.deleted().items().is_empty());
    assert!(cs.renamed().items().is_empty());
}

#[test]
fn only_the_first_column_is_read() {
    let cs = parse(b" M worktree.rs\0MM both.rs\0AD gone.rs\0 D lost.rs\0").unwrap();
    assert_eq!(names(cs.modified().items()), vec!["both.rs"]);
    assert_eq!(names(cs.added().items()), vec!["gone.rs"]);
    assert_eq!(cs.deleted().count(), 0);
    assert_eq!(cs.total(), 2);
}

#[test]
fn lower_case_codes_are_not_honoured() {
    let cs = parse(b"m  a\0a  b\0d  c\0r  d\0").unwrap();
    assert_eq!(cs.total(), 0);
}

#[test]
fn mixed_sample_report() {
    let report = b"R  LICENSE.bak\0LICENSE\0MM src/main.rs\0A  foo.bar\0D  bar.foo\0M  bar.bar\0 M foo.foo\0R  path/path/path/foobar\0path/foobar";
    let cs = parse(report).unwrap();
    assert_eq!(cs.modified().count(), 2);
    assert_eq!(names(cs.modified().items()), vec!["main.rs", "bar.bar"]);
    assert_eq!(cs.added().count(), 1);
    assert_eq!(names(cs.added().items()), vec!["foo.bar"]);
    assert_eq!(cs.deleted().count(), 1);
    assert_eq!(names(cs.deleted().items()), vec!["bar.foo"]);
    assert_eq!(cs.renamed().count(), 2);
    assert_eq!(
        names(cs.renamed().items()),
        vec!["LICENSE.bak", "LICENSE", "foobar", "foobar"]
    );
    assert_eq!(cs.total(), 6);
}

#[test]
fn total_counts_recognized_records() {
    let report = b"M  a\0?? b\0R  c\0d\0A  e\0 M f\0D  g\0R  h\0i\0";
    let cs = parse(report).unwrap();
    assert_eq!(cs.total(), 5);
    assert_eq!(
        cs.total(),
        (cs.modified().count() + cs.added().count() + cs.deleted().count() + cs.renamed().count())
            as u128
    );
    assert_eq!(cs.modified().items().len(), cs.modified().count());
    assert_eq!(cs.added().items().len(), cs.added().count());
    assert_eq!(cs.deleted().items().len(), cs.deleted().count());
    assert_eq!(cs.renamed().items().len(), 2 * cs.renamed().count());
}

#[test]
fn parsing_twice_gives_the_same_change_set() {
    let report = b"M  a/b\0R  c\0d/e\0A  f\0";
    assert_eq!(parse(report), parse(report));
    let copy = report.to_vec();
    assert_eq!(parse(report), parse(&copy));
    assert_eq!(parse(b"R  x"), parse(b"R  x"));
}

#[test]
fn names_are_last_path_segments() {
    let cs = parse(b"M  a/b/c.rs\0A  top\0D  dir/\0M  /abs\0A  a//b\0").unwrap();
    assert_eq!(names(cs.modified().items()), vec!["c.rs", "abs"]);
    assert_eq!(names(cs.added().items()), vec!["top", "b"]);
    assert_eq!(names(cs.deleted().items()), vec![""]);
}

#[test]
fn names_may_hold_any_characters() {
    let cs = parse("M  docs/r\u{e9}sum\u{e9}.txt\0A  \u{65e5}\u{672c}/\u{8a9e}.md\0D  a b/c d\0".as_bytes())
        .unwrap();
    assert_eq!(names(cs.modified().items()), vec!["r\u{e9}sum\u{e9}.txt"]);
    assert_eq!(names(cs.added().items()), vec!["\u{8a9e}.md"]);
    assert_eq!(names(cs.deleted().items()), vec!["c d"]);
}

#[test]
fn offsets_count_characters() {
    let cs = parse("M\u{e9} x/y\0".as_bytes()).unwrap();
    assert_eq!(names(cs.modified().items()), vec!["y"]);
    let cs = parse("\u{e9}  x\0".as_bytes()).unwrap();
    assert_eq!(cs.total(), 0);
    assert_eq!(parse("\u{e9}\u{e9}\0".as_bytes()), Err(ParseError::MalformedRecord));
    let cs = parse("A\u{e9}\u{e9}\0".as_bytes()).unwrap();
    assert_eq!(names(cs.added().items()), vec![""]);
}

#[test]
fn parse_status_reads_split_entries() {
    let cs = parse_status(entries(&["M  src/main.rs", "A  foo.bar", "D  bar.foo"])).unwrap();
    assert_eq!(names(cs.modified().items()), vec!["main.rs"]);
    assert_eq!(names(cs.added().items()), vec!["foo.bar"]);
    assert_eq!(names(cs.deleted().items()), vec!["bar.foo"]);
    assert_eq!(cs.total(), 3);
}

#[test]
fn parse_status_of_no_entries_is_empty() {
    let cs = parse_status(Vec::new()).unwrap();
    assert_eq!(cs, ChangeSet::new());
    assert_eq!(cs.total(), 0);
}

#[test]
fn parse_status_reports_malformed_entries() {
    assert_eq!(parse_status(entries(&[""])), Err(ParseError::MalformedRecord));
    assert_eq!(parse_status(entries(&["M  a", "R  b"])), Err(ParseError::MalformedRecord));
    assert_eq!(parse_status(entries(&["ab", "M  a"])), Err(ParseError::MalformedRecord));
}

#[test]
fn parse_status_agrees_with_parse() {
    let from_bytes = parse(b"R  a/b\0c/d\0M  e\0").unwrap();
    let from_entries = parse_status(entries(&["R  a/b", "c/d", "M  e"])).unwrap();
    assert_eq!(from_bytes, from_entries);
}

#[test]
fn parser_walks_entry_by_entry() {
    let parser = Parser::new();
    assert!(!parser.awaits_rename_origin());
    let parser = parser.feed("R  new/name").unwrap();
    assert!(parser.awaits_rename_origin());
    let parser = parser.feed("old/name").unwrap();
    assert!(!parser.awaits_rename_origin());
    let parser = parser.feed("A  x").unwrap();
    let cs = parser.finish().unwrap();
    assert_eq!(names(cs.renamed().items()), vec!["name", "name"]);
    assert_eq!(names(cs.added().items()), vec!["x"]);
}

#[test]
fn parser_refuses_short_records_and_dangling_renames() {
    assert_eq!(Parser::new().feed("A "), Err(ParseError::MalformedRecord));
    let waiting = Parser::new().feed("R  a").unwrap();
    assert_eq!(waiting.finish(), Err(ParseError::MalformedRecord));
    assert_eq!(Parser::new().finish(), Ok(ChangeSet::new()));
}

#[test]
fn change_set_records_by_kind() {
    let cs = ChangeSet::new()
        .record(Kind::Modified, "m".to_string())
        .record(Kind::Added, "a".to_string())
        .record(Kind::Deleted, "d".to_string())
        .record(Kind::Added, "b".to_string())
        .record_rename("new".to_string(), "old".to_string());
    assert_eq!(names(cs.category(Kind::Modified).items()), vec!["m"]);
    assert_eq!(names(cs.category(Kind::Added).items()), vec!["a", "b"]);
    assert_eq!(names(cs.category(Kind::Deleted).items()), vec!["d"]);
    assert_eq!(names(cs.category(Kind::Renamed).items()), vec!["new", "old"]);
    assert_eq!(cs.category(Kind::Added).count(), 2);
    assert_eq!(cs.category(Kind::Renamed).count(), 1);
    assert_eq!(cs.total(), 5);
}

#[test]
fn recording_a_rename_with_one_name_changes_nothing() {
    let cs = ChangeSet::new().record(Kind::Renamed, "lonely".to_string());
    assert_eq!(cs, ChangeSet::new());
    assert_eq!(cs.total(), 0);
}

#[test]
fn codes_and_kinds() {
    assert_eq!(kind_of('M'), Some(Kind::Modified));
    assert_eq!(kind_of('A'), Some(Kind::Added));
    assert_eq!(kind_of('D'), Some(Kind::Deleted));
    assert_eq!(kind_of('R'), Some(Kind::Renamed));
    for code in [' ', '?', '!', 'U', 'C', 'T', 'm', 'r', '\0', '/'] {
        assert_eq!(kind_of(code), None);
    }
}
