use quick_commit::changes::{ChangeSet, Kind};
use quick_commit::message::{prepend_summary, summarize, with_trailer, SummaryError};
use quick_commit::parser::{parse, ParseError};
use quick_commit::render::{
    abbreviation_of, header_of, label_of, render_mode, render_status, RenderMode,
};

fn render_bytes(report: &[u8]) -> String {
    render_status(parse(report).unwrap())
}

fn modified(n: usize) -> ChangeSet {
    let mut cs = ChangeSet::new();
    for i in 0..n {
        cs = cs.record(Kind::Modified, format!("f{}", i));
    }
    cs
}

#[test]
fn no_change_renders_empty() {
    assert_eq!(render_status(ChangeSet::new()), "");
    assert_eq!(render_bytes(b"?? foo\0"), "");
}

#[test]
fn single_change_is_one_phrase() {
    assert_eq!(render_bytes(b"A  foo.bar\0"), "Added foo.bar");
    assert_eq!(render_bytes(b"M  src/foo.rs\0"), "Modified foo.rs");
    assert_eq!(render_bytes(b"D  baz\0"), "Deleted baz");
}

#[test]
fn single_rename_names_old_then_new() {
    assert_eq!(render_bytes(b"R  b/new.txt\0a/old.txt\0"), "Renamed old.txt to new.txt");
}

#[test]
fn single_rename_with_equal_names() {
    assert_eq!(
        render_bytes(b"R  new/path.txt\0old/path.txt"),
        "Renamed path.txt to path.txt"
    );
}

#[test]
fn move_among_other_changes() {
    assert_eq!(
        render_bytes(b"R  new/path.txt\0old/path.txt\0M  a\0"),
        "Mod 1, Ren 1\nModified a\nMoved path.txt"
    );
}

#[test]
fn rename_among_other_changes() {
    assert_eq!(
        render_bytes(b"A  x\0R  dir/new.rs\0dir/old.rs\0"),
        "Add 1, Ren 1\nAdded x\nRenamed new.rs => old.rs"
    );
}

#[test]
fn three_kinds_end_to_end() {
    assert_eq!(
        render_bytes(b"M  src/main.rs\0A  foo.bar\0D  bar.foo\0"),
        "Mod 1, Add 1, Del 1\nModified main.rs\nAdded foo.bar\nDeleted bar.foo"
    );
}

#[test]
fn header_joins_the_categories_that_are_not_empty() {
    let cs = parse(b"M  a\0M  b\0A  c\0R  d\0e\0").unwrap();
    assert_eq!(header_of(&cs), "Mod 2, Add 1, Ren 1");
    let cs = parse(b"D  a\0D  b\0").unwrap();
    assert_eq!(header_of(&cs), "Del 2");
    assert_eq!(header_of(&ChangeSet::new()), "");
}

#[test]
fn lines_follow_the_order_of_the_categories() {
    assert_eq!(
        render_bytes(b"R  n\0o\0D  d\0A  a\0M  m\0D  e\0"),
        "Mod 1, Add 1, Del 2, Ren 1\nModified m\nAdded a\nDeleted d\nDeleted e\nRenamed n => o"
    );
}

#[test]
fn eight_changes_have_lines() {
    let text = render_status(modified(8));
    assert_eq!(
        text,
        "Mod 8\nModified f0\nModified f1\nModified f2\nModified f3\nModified f4\nModified f5\nModified f6\nModified f7"
    );
    assert_eq!(text.lines().count(), 9);
}

#[test]
fn nine_changes_have_the_header_alone() {
    assert_eq!(render_status(modified(9)), "Mod 9");
}

#[test]
fn a_rename_counts_once_toward_the_limit() {
    let mut cs = modified(7);
    cs = cs.record_rename("n".to_string(), "o".to_string());
    let text = render_status(cs);
    assert_eq!(text.lines().count(), 9);
    assert!(text.starts_with("Mod 7, Ren 1\n"));
    assert!(text.ends_with("\nRenamed n => o"));
    let mut cs = modified(7);
    cs = cs.record_rename("n".to_string(), "o".to_string());
    cs = cs.record_rename("p".to_string(), "p".to_string());
    assert_eq!(render_status(cs), "Mod 7, Ren 2");
}

#[test]
fn counts_are_written_in_decimal() {
    assert_eq!(render_status(modified(10)), "Mod 10");
    assert_eq!(render_status(modified(123)), "Mod 123");
    let mut cs = modified(1000);
    for i in 0..45 {
        cs = cs.record(Kind::Deleted, format!("d{}", i));
    }
    assert_eq!(render_status(cs), "Mod 1000, Del 45");
}

#[test]
fn rendering_twice_gives_the_same_text() {
    let report = b"M  a\0R  b\0c\0A  d\0";
    assert_eq!(render_bytes(report), render_bytes(report));
    assert_eq!(render_status(modified(4)), render_status(modified(4)));
}

#[test]
fn mode_depends_on_the_total_alone() {
    assert_eq!(render_mode(0), RenderMode::Empty);
    assert_eq!(render_mode(1), RenderMode::Single);
    assert_eq!(render_mode(2), RenderMode::SummaryPlusDetail);
    assert_eq!(render_mode(8), RenderMode::SummaryPlusDetail);
    assert_eq!(render_mode(9), RenderMode::SummaryOnly);
    assert_eq!(render_mode(u128::MAX), RenderMode::SummaryOnly);
}

#[test]
fn labels_and_abbreviations() {
    assert_eq!(label_of(Kind::Modified), "Modified");
    assert_eq!(label_of(Kind::Added), "Added");
    assert_eq!(label_of(Kind::Deleted), "Deleted");
    assert_eq!(label_of(Kind::Renamed), "Renamed");
    assert_eq!(abbreviation_of(Kind::Modified), "Mod");
    assert_eq!(abbreviation_of(Kind::Added), "Add");
    assert_eq!(abbreviation_of(Kind::Deleted), "Del");
    assert_eq!(abbreviation_of(Kind::Renamed), "Ren");
    for kind in [Kind::Modified, Kind::Added, Kind::Deleted, Kind::Renamed] {
        assert_eq!(abbreviation_of(kind), &label_of(kind)[0..3]);
    }
}

#[test]
fn summarize_gives_the_rendered_text() {
    assert_eq!(summarize(b"A  foo.bar\0"), Ok("Added foo.bar".to_string()));
    assert_eq!(
        summarize(b"M  src/main.rs\0A  foo.bar\0D  bar.foo\0"),
        Ok("Mod 1, Add 1, Del 1\nModified main.rs\nAdded foo.bar\nDeleted bar.foo".to_string())
    );
}

#[test]
fn summarize_tells_the_failures_apart() {
    assert_eq!(summarize(b""), Err(SummaryError::Parse(ParseError::FetchEmpty)));
    assert_eq!(summarize(b"?? foo\0"), Err(SummaryError::EmptySummary));
    assert_eq!(summarize(b" M foo\0"), Err(SummaryError::EmptySummary));
    assert_eq!(
        summarize(b"R  LICENSE.bak\0"),
        Err(SummaryError::Parse(ParseError::MalformedRecord))
    );
    assert_eq!(summarize(b"M  \xff"), Err(SummaryError::Parse(ParseError::DecodeError)));
}

#[test]
fn trailer_follows_the_summary() {
    assert_eq!(with_trailer("Added foo.bar"), "Added foo.bar\n\nQuick-committed");
    assert_eq!(with_trailer(""), "\n\nQuick-committed");
}

#[test]
fn summary_goes_in_front_of_the_previous_content() {
    assert_eq!(
        prepend_summary("Added foo.bar", "# Please enter the commit message\n"),
        "Added foo.bar\n# Please enter the commit message\n"
    );
    assert_eq!(prepend_summary("Mod 2", ""), "Mod 2\n");
    assert_eq!(prepend_summary("", "rest"), "\nrest");
}
