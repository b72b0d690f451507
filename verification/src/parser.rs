//! Reads the short, NUL-separated status report into a change set.
//!
//! A report is a run of entries separated by NUL, with at most one NUL at its
//! end. An entry is a record (a status code of two characters, a space, a
//! path) or, directly behind a rename record, the path that the file was
//! renamed from. Only the first character of the code is read: `M`, `A`, `D`
//! and `R` are honoured and every other character, a space too, makes the
//! record one that is passed over. A change that shows only in the second
//! column of the code is therefore not counted. That is intended.
use crate::changes::{ChangeSet, ChangeSetView, Kind};
use crate::text::{
    basename, basename_from, chars_of, lemma_basename_is_last_segment, split, split_text, texts,
    SLASH,
};
use vstd::prelude::*;
use vstd::slice::slice_subrange;
use vstd::string::StringSliceAdditionalSpecFns;
use vstd::utf8::{decode_utf8, valid_utf8};

verus! {

/// The separator between the entries of a report.
pub const NUL: char = '\0';

/// How many characters stand before the path of a record: the two of the
/// status code and one space.
pub const PATH_OFFSET: usize = 3;

/// Why a report could not be read.
#[derive(Clone, Copy, Debug, PartialEq, Eq, Structural)]
pub enum ParseError {
    /// The report holds no bytes at all.
    FetchEmpty,
    /// The report is not well-formed UTF-8.
    DecodeError,
    /// A record is too short to hold a code and a path, or the report ends
    /// with a rename record that no path follows.
    MalformedRecord,
}

/// What the next entry of the report is taken for.
pub enum CursorView {
    /// A record with a status code.
    AwaitingRecord,
    /// The path that the file named `new_name` was renamed from.
    AwaitingRenameOrigin { new_name: Seq<char> },
}

/// The mathematical value of a [`Parser`].
pub struct ParserView {
    /// The changes read so far. A rename is among them once its second
    /// entry has been read.
    pub changes: ChangeSetView,
    pub cursor: CursorView,
}

/// The kind of change that a status code's first character stands for.
pub open spec fn kind_of_code(code: char) -> Option<Kind> {
    if code == 'M' {
        Some(Kind::Modified)
    } else if code == 'A' {
        Some(Kind::Added)
    } else if code == 'D' {
        Some(Kind::Deleted)
    } else if code == 'R' {
        Some(Kind::Renamed)
    } else {
        None
    }
}

/// The state before any entry is read.
pub open spec fn start() -> ParserView {
    ParserView { changes: ChangeSetView::empty(), cursor: CursorView::AwaitingRecord }
}

/// The state after one more entry, or the error that the entry causes.
pub open spec fn feed(state: ParserView, entry: Seq<char>) -> Result<ParserView, ParseError> {
    match state.cursor {
        CursorView::AwaitingRenameOrigin { new_name } => Ok(
            ParserView {
                changes: state.changes.record_rename(new_name, basename(entry)),
                cursor: CursorView::AwaitingRecord,
            },
        ),
        CursorView::AwaitingRecord => if entry.len() < PATH_OFFSET {
            Err(ParseError::MalformedRecord)
        } else {
            let name = basename(entry.skip(PATH_OFFSET as int));
            match kind_of_code(entry[0]) {
                None => Ok(state),
                Some(Kind::Renamed) => Ok(
                    ParserView {
                        changes: state.changes,
                        cursor: CursorView::AwaitingRenameOrigin { new_name: name },
                    },
                ),
                Some(kind) => Ok(
                    ParserView {
                        changes: state.changes.record(kind, name),
                        cursor: CursorView::AwaitingRecord,
                    },
                ),
            }
        },
    }
}

/// The state after all of `entries`, read in order from [`start`], or the
/// error of the first entry that causes one.
pub open spec fn walk(entries: Seq<Seq<char>>) -> Result<ParserView, ParseError>
    decreases entries.len(),
{
    if entries.len() == 0 {
        Ok(start())
    } else {
        match walk(entries.drop_last()) {
            Err(e) => Err(e),
            Ok(state) => feed(state, entries.last()),
        }
    }
}

/// The changes of a state at the end of the report. A rename that still
/// waits for its second entry is an error.
pub open spec fn finish(state: ParserView) -> Result<ChangeSetView, ParseError> {
    match state.cursor {
        CursorView::AwaitingRecord => Ok(state.changes),
        CursorView::AwaitingRenameOrigin { .. } => Err(ParseError::MalformedRecord),
    }
}

/// The change set that a list of entries stands for.
pub open spec fn parse_entries(entries: Seq<Seq<char>>) -> Result<ChangeSetView, ParseError> {
    match walk(entries) {
        Err(e) => Err(e),
        Ok(state) => finish(state),
    }
}

/// The report without the one NUL at its end, if it has one.
pub open spec fn strip_trailing_nul(bytes: Seq<u8>) -> Seq<u8> {
    if bytes.len() > 0 && bytes.last() == 0u8 {
        bytes.drop_last()
    } else {
        bytes
    }
}

/// The entries of a report that holds bytes and is well-formed UTF-8.
pub open spec fn entries_of(bytes: Seq<u8>) -> Seq<Seq<char>> {
    split(decode_utf8(strip_trailing_nul(bytes)), NUL)
}

/// The change set that a report stands for.
pub open spec fn parse_bytes(bytes: Seq<u8>) -> Result<ChangeSetView, ParseError> {
    if bytes.len() == 0 {
        Err(ParseError::FetchEmpty)
    } else if !valid_utf8(strip_trailing_nul(bytes)) {
        Err(ParseError::DecodeError)
    } else {
        parse_entries(entries_of(bytes))
    }
}

/// The mathematical value of what a parse returned.
pub open spec fn outcome(res: Result<ChangeSet, ParseError>) -> Result<ChangeSetView, ParseError> {
    match res {
        Ok(changes) => Ok(changes@),
        Err(e) => Err(e),
    }
}

/// Whether entry `i` is read as a record: the first entry is, and so is
/// each entry that does not stand directly behind a rename record.
pub open spec fn is_record(entries: Seq<Seq<char>>, i: int) -> bool
    decreases i,
{
    if i <= 0 {
        true
    } else {
        !(is_record(entries, i - 1) && is_rename(entries[i - 1]))
    }
}

/// Whether an entry, read as a record, is a rename.
pub open spec fn is_rename(entry: Seq<char>) -> bool {
    entry.len() >= PATH_OFFSET && entry[0] == 'R'
}

/// Whether an entry, read as a record, is counted as a change.
pub open spec fn is_recognized(entry: Seq<char>) -> bool {
    entry.len() >= PATH_OFFSET && kind_of_code(entry[0]) is Some
}

/// How many of the first `n` entries are records that count as a change. A
/// rename and the entry behind it count once.
pub open spec fn recognized_records(entries: Seq<Seq<char>>, n: int) -> nat
    decreases n,
{
    if n <= 0 {
        0
    } else {
        let counted: nat = if is_record(entries, n - 1) && is_recognized(entries[n - 1]) {
            1
        } else {
            0
        };
        recognized_records(entries, n - 1) + counted
    }
}

/// Whether one of the first `n` entries is a record too short to hold a code
/// and a path.
pub open spec fn has_short_record(entries: Seq<Seq<char>>, n: int) -> bool {
    exists|i: int|
        0 <= i < n && is_record(entries, i) && (#[trigger] entries[i]).len() < PATH_OFFSET
}

/// Whether the last entry is a rename record, so that the path the file was
/// renamed from is missing.
pub open spec fn ends_in_rename(entries: Seq<Seq<char>>) -> bool {
    entries.len() > 0 && is_record(entries, entries.len() - 1) && is_rename(entries.last())
}

/// Whether a list of entries cannot be read: one of its records is too
/// short, or it ends in a rename record.
pub open spec fn is_malformed(entries: Seq<Seq<char>>) -> bool {
    has_short_record(entries, entries.len() as int) || ends_in_rename(entries)
}

/// What holds of the state after the first `n` entries.
proof fn lemma_walk_of_prefix(entries: Seq<Seq<char>>, n: int)
    requires
        0 <= n <= entries.len(),
    ensures
        walk(entries.take(n)) is Err <==> has_short_record(entries, n),
        walk(entries.take(n)) matches Err(e) ==> e == ParseError::MalformedRecord,
        walk(entries.take(n)) matches Ok(state) ==> {
            &&& state.changes.wf()
            &&& state.cursor is AwaitingRecord <==> is_record(entries, n)
            &&& state.cursor is AwaitingRecord ==> state.changes.total() == recognized_records(
                entries,
                n,
            )
            &&& state.cursor is AwaitingRenameOrigin ==> state.changes.total() + 1
                == recognized_records(entries, n)
        },
    decreases n,
{
    if n > 0 {
        lemma_walk_of_prefix(entries, n - 1);
        assert(entries.take(n).drop_last() =~= entries.take(n - 1));
        assert(entries.take(n).last() == entries[n - 1]);
        if has_short_record(entries, n - 1) {
            let i = choose|i: int|
                0 <= i < n - 1 && is_record(entries, i) && (#[trigger] entries[i]).len()
                    < PATH_OFFSET;
            assert(0 <= i < n && is_record(entries, i) && entries[i].len() < PATH_OFFSET);
        } else if has_short_record(entries, n) {
            let i = choose|i: int|
                0 <= i < n && is_record(entries, i) && (#[trigger] entries[i]).len() < PATH_OFFSET;
            assert(i == n - 1) by {
                if i < n - 1 {
                    assert(0 <= i < n - 1 && is_record(entries, i) && entries[i].len()
                        < PATH_OFFSET);
                }
            }
        }
        if walk(entries.take(n)) is Err && !has_short_record(entries, n - 1) {
            assert(is_record(entries, n - 1) && entries[n - 1].len() < PATH_OFFSET);
        }
    } else {
        assert(entries.take(0) =~= Seq::<Seq<char>>::empty());
    }
}

/// Every name that the first `n` entries gave is the last segment of a
/// path: it holds no `/`.
proof fn lemma_names_of_prefix(entries: Seq<Seq<char>>, n: int)
    requires
        0 <= n <= entries.len(),
    ensures
        walk(entries.take(n)) matches Ok(state) ==> {
            &&& forall|name: Seq<char>| #[trigger]
                state.changes.holds_name(name) ==> !name.contains(SLASH)
            &&& state.cursor matches CursorView::AwaitingRenameOrigin { new_name }
                ==> !new_name.contains(SLASH)
        },
    decreases n,
{
    if n > 0 {
        lemma_names_of_prefix(entries, n - 1);
        assert(entries.take(n).drop_last() =~= entries.take(n - 1));
        let entry = entries.take(n).last();
        lemma_basename_is_last_segment(entry);
        lemma_basename_is_last_segment(entry.skip(PATH_OFFSET as int));
        if let Ok(before) = walk(entries.take(n - 1)) {
            if let Ok(state) = walk(entries.take(n)) {
                assert forall|name: Seq<char>| #[trigger]
                    state.changes.holds_name(name) implies !name.contains(SLASH) by {
                    if !before.changes.holds_name(name) {
                        let old = before.changes;
                        let new = state.changes;
                        lemma_new_name_is_pushed(old.modified.items, new.modified.items, name);
                        lemma_new_name_is_pushed(old.added.items, new.added.items, name);
                        lemma_new_name_is_pushed(old.deleted.items, new.deleted.items, name);
                        lemma_new_name_is_pushed(old.renamed.items, new.renamed.items, name);
                    }
                }
            }
        }
    } else {
        assert(entries.take(0) =~= Seq::<Seq<char>>::empty());
    }
}

/// Where `after` is `before` with up to two names pushed, a name that is
/// among `after` and not among `before` is one of the names pushed.
proof fn lemma_new_name_is_pushed(before: Seq<Seq<char>>, after: Seq<Seq<char>>, name: Seq<char>)
    requires
        before.len() <= after.len() <= before.len() + 2,
        before =~= after.take(before.len() as int),
    ensures
        after.contains(name) && !before.contains(name) ==> after.len() > before.len() && (name
            == after[before.len() as int] || (after.len() == before.len() + 2 && name
            == after[before.len() as int + 1])),
{
    if after.contains(name) && !before.contains(name) {
        let i = choose|i: int| 0 <= i < after.len() && after[i] == name;
        if i < before.len() {
            assert(before[i] == name);
        }
    }
}

/// Every display name of a change set that was read is the last segment of
/// a path: it holds no `/`.
pub proof fn lemma_names_are_last_segments(entries: Seq<Seq<char>>)
    ensures
        parse_entries(entries) matches Ok(changes) ==> forall|name: Seq<char>| #[trigger]
            changes.holds_name(name) ==> !name.contains(SLASH),
{
    lemma_names_of_prefix(entries, entries.len() as int);
    assert(entries.take(entries.len() as int) =~= entries);
}

/// A list of entries that can be read gives a well-formed change set whose
/// total is the number of records that count as a change, a rename and the
/// entry behind it counted once.
pub proof fn lemma_total_is_recognized_records(entries: Seq<Seq<char>>)
    ensures
        parse_entries(entries) matches Ok(changes) ==> changes.wf() && changes.total()
            == recognized_records(entries, entries.len() as int),
{
    lemma_walk_of_prefix(entries, entries.len() as int);
    assert(entries.take(entries.len() as int) =~= entries);
}

/// A list of entries cannot be read exactly when one of its records is
/// shorter than a code and a path, or its last entry is a rename record.
/// The error is then always [`ParseError::MalformedRecord`].
pub proof fn lemma_malformed_entries(entries: Seq<Seq<char>>)
    ensures
        parse_entries(entries) is Err <==> is_malformed(entries),
        parse_entries(entries) matches Err(e) ==> e == ParseError::MalformedRecord,
{
    let n: int = entries.len() as int;
    lemma_walk_of_prefix(entries, n);
    assert(entries.take(n) =~= entries);
    if n > 0 {
        lemma_walk_of_prefix(entries, n - 1);
        assert(entries.take(n).drop_last() =~= entries.take(n - 1));
        if has_short_record(entries, n - 1) {
            let i = choose|i: int|
                0 <= i < n - 1 && is_record(entries, i) && (#[trigger] entries[i]).len()
                    < PATH_OFFSET;
            assert(0 <= i < n && is_record(entries, i) && entries[i].len() < PATH_OFFSET);
        }
    }
}

/// A report is refused as empty exactly when it holds no byte; as
/// undecodable exactly when it holds bytes that, with one NUL at the end set
/// aside, are not well-formed UTF-8; and as malformed exactly when it can be
/// decoded and its entries cannot be read. Every other report gives a
/// well-formed change set.
pub proof fn lemma_report_errors(bytes: Seq<u8>)
    ensures
        parse_bytes(bytes) == Err::<ChangeSetView, ParseError>(ParseError::FetchEmpty)
            <==> bytes.len() == 0,
        parse_bytes(bytes) == Err::<ChangeSetView, ParseError>(ParseError::DecodeError)
            <==> bytes.len() > 0 && !valid_utf8(strip_trailing_nul(bytes)),
        parse_bytes(bytes) == Err::<ChangeSetView, ParseError>(ParseError::MalformedRecord)
            <==> bytes.len() > 0 && valid_utf8(strip_trailing_nul(bytes)) && is_malformed(
            entries_of(bytes),
        ),
        parse_bytes(bytes) matches Ok(changes) ==> changes.wf(),
{
    if bytes.len() > 0 && valid_utf8(strip_trailing_nul(bytes)) {
        lemma_malformed_entries(entries_of(bytes));
        lemma_total_is_recognized_records(entries_of(bytes));
    }
}

/// Reading is a function of the bytes: two reports with the same bytes give
/// the same outcome, error or change set, with the same counts and the same
/// names in the same order.
pub proof fn lemma_parse_is_deterministic(
    first: Seq<u8>,
    second: Seq<u8>,
    first_result: Result<ChangeSet, ParseError>,
    second_result: Result<ChangeSet, ParseError>,
)
    requires
        first == second,
        outcome(first_result) == parse_bytes(first),
        outcome(second_result) == parse_bytes(second),
    ensures
        outcome(first_result) == outcome(second_result),
{
}

/// The kind of change that a status code's first character stands for, if
/// it stands for one.
pub fn kind_of(code: char) -> (kind: Option<Kind>)
    ensures
        kind == kind_of_code(code),
{
    if code == 'M' {
        Some(Kind::Modified)
    } else if code == 'A' {
        Some(Kind::Added)
    } else if code == 'D' {
        Some(Kind::Deleted)
    } else if code == 'R' {
        Some(Kind::Renamed)
    } else {
        None
    }
}

/// What the next entry of the report is taken for.
#[derive(Debug, PartialEq, Eq)]
pub enum Cursor {
    /// A record with a status code.
    AwaitingRecord,
    /// The path that the file named `new_name` was renamed from.
    AwaitingRenameOrigin { new_name: String },
}

impl View for Cursor {
    type V = CursorView;

    open spec fn view(&self) -> CursorView {
        match self {
            Cursor::AwaitingRecord => CursorView::AwaitingRecord,
            Cursor::AwaitingRenameOrigin { new_name } => CursorView::AwaitingRenameOrigin {
                new_name: new_name@,
            },
        }
    }
}

/// A report in the course of being read, entry by entry.
#[derive(Debug, PartialEq, Eq)]
pub struct Parser {
    changes: ChangeSet,
    cursor: Cursor,
}

impl View for Parser {
    type V = ParserView;

    closed spec fn view(&self) -> ParserView {
        ParserView { changes: self.changes@, cursor: self.cursor@ }
    }
}

impl Parser {
    /// The parser that has read nothing yet.
    pub fn new() -> (parser: Parser)
        ensures
            parser@ == start(),
    {
        Parser { changes: ChangeSet::new(), cursor: Cursor::AwaitingRecord }
    }

    /// Whether the next entry is taken for the path that a file was renamed
    /// from.
    pub fn awaits_rename_origin(&self) -> (waiting: bool)
        ensures
            waiting == self@.cursor is AwaitingRenameOrigin,
    {
        match &self.cursor {
            Cursor::AwaitingRecord => false,
            Cursor::AwaitingRenameOrigin { .. } => true,
        }
    }

    /// Reads one entry.
    pub fn feed(self, entry: &str) -> (res: Result<Parser, ParseError>)
        ensures
            match res {
                Ok(next) => feed(self@, entry@) == Ok::<ParserView, ParseError>(next@),
                Err(e) => feed(self@, entry@) == Err::<ParserView, ParseError>(e),
            },
    {
        let Parser { changes, cursor } = self;
        let chars = chars_of(entry);
        match cursor {
            Cursor::AwaitingRenameOrigin { new_name } => {
                proof {
                    assert(chars@.skip(0) =~= chars@);
                }
                let old_name = basename_from(&chars, 0);
                Ok(
                    Parser {
                        changes: changes.record_rename(new_name, old_name),
                        cursor: Cursor::AwaitingRecord,
                    },
                )
            },
            Cursor::AwaitingRecord => {
                if chars.len() < PATH_OFFSET {
                    return Err(ParseError::MalformedRecord);
                }
                match kind_of(chars[0]) {
                    None => Ok(Parser { changes, cursor: Cursor::AwaitingRecord }),
                    Some(Kind::Renamed) => {
                        let new_name = basename_from(&chars, PATH_OFFSET);
                        Ok(Parser { changes, cursor: Cursor::AwaitingRenameOrigin { new_name } })
                    },
                    Some(kind) => {
                        let name = basename_from(&chars, PATH_OFFSET);
                        Ok(
                            Parser {
                                changes: changes.record(kind, name),
                                cursor: Cursor::AwaitingRecord,
                            },
                        )
                    },
                }
            },
        }
    }

    /// Ends the report and hands out the changes.
    pub fn finish(self) -> (res: Result<ChangeSet, ParseError>)
        ensures
            outcome(res) == finish(self@),
    {
        let Parser { changes, cursor } = self;
        match cursor {
            Cursor::AwaitingRecord => Ok(changes),
            Cursor::AwaitingRenameOrigin { .. } => Err(ParseError::MalformedRecord),
        }
    }
}

/// Reads the entries of a report, already decoded and split, into a change
/// set.
///
/// The result is `Ok` unless a record is shorter than a code and a path or
/// the last entry is a rename record; then it is
/// `Err(ParseError::MalformedRecord)` (see [`lemma_malformed_entries`]).
pub fn parse_status(stat_lns: Vec<String>) -> (res: Result<ChangeSet, ParseError>)
    ensures
        outcome(res) == parse_entries(texts(stat_lns@)),
        res matches Ok(changes) ==> changes@.wf() && changes@.total() == recognized_records(
            texts(stat_lns@),
            stat_lns@.len() as int,
        ),
        res is Err <==> is_malformed(texts(stat_lns@)),
        res matches Err(e) ==> e == ParseError::MalformedRecord,
{
    let ghost entries = texts(stat_lns@);
    let mut parser = Parser::new();
    let mut i: usize = 0;
    proof {
        assert(entries.take(0) =~= Seq::<Seq<char>>::empty());
        lemma_total_is_recognized_records(entries);
        lemma_malformed_entries(entries);
    }
    while i < stat_lns.len()
        invariant
            0 <= i <= stat_lns.len(),
            entries == texts(stat_lns@),
            walk(entries.take(i as int)) == Ok::<ParserView, ParseError>(parser@),
        decreases stat_lns.len() - i,
    {
        proof {
            assert(entries.take(i + 1).drop_last() =~= entries.take(i as int));
            assert(entries.take(i + 1).last() == stat_lns@[i as int]@);
        }
        match parser.feed(stat_lns[i].as_str()) {
            Ok(next) => {
                parser = next;
            },
            Err(e) => {
                proof {
                    lemma_walk_error_stays(entries, i + 1);
                    lemma_malformed_entries(entries);
                }
                return Err(e);
            },
        }
        i = i + 1;
    }
    proof {
        assert(entries.take(i as int) =~= entries);
    }
    parser.finish()
}

/// Once an entry has caused an error, the entries behind it do not undo it.
proof fn lemma_walk_error_stays(entries: Seq<Seq<char>>, n: int)
    requires
        0 <= n <= entries.len(),
        walk(entries.take(n)) is Err,
    ensures
        walk(entries) == walk(entries.take(n)),
    decreases entries.len() - n,
{
    if n == entries.len() {
        assert(entries.take(n) =~= entries);
    } else {
        assert(entries.take(n + 1).drop_last() =~= entries.take(n));
        lemma_walk_error_stays(entries, n + 1);
    }
}

/// Reads a status report.
///
/// The report is refused with `FetchEmpty` if it is empty, with
/// `DecodeError` if it is not well-formed UTF-8, and with `MalformedRecord`
/// if one of its records is too short or its last entry is a rename record
/// (see [`lemma_report_errors`] and [`lemma_malformed_entries`]). Every other
/// report is read.
pub fn parse(bytes: &[u8]) -> (res: Result<ChangeSet, ParseError>)
    ensures
        outcome(res) == parse_bytes(bytes@),
        res == Err::<ChangeSet, ParseError>(ParseError::FetchEmpty) <==> bytes@.len() == 0,
        res == Err::<ChangeSet, ParseError>(ParseError::DecodeError) <==> bytes@.len() > 0
            && !valid_utf8(strip_trailing_nul(bytes@)),
        res == Err::<ChangeSet, ParseError>(ParseError::MalformedRecord) <==> bytes@.len() > 0
            && valid_utf8(strip_trailing_nul(bytes@)) && is_malformed(entries_of(bytes@)),
        res matches Ok(changes) ==> changes@.wf() && changes@.total() == recognized_records(
            entries_of(bytes@),
            entries_of(bytes@).len() as int,
        ),
{
    let n: usize = bytes.len();
    if n == 0 {
        return Err(ParseError::FetchEmpty);
    }
    let body = if bytes[n - 1] == 0u8 {
        slice_subrange(bytes, 0, n - 1)
    } else {
        bytes
    };
    proof {
        assert(body@ =~= strip_trailing_nul(bytes@));
        lemma_report_errors(bytes@);
    }
    match core::str::from_utf8(body) {
        Err(_) => Err(ParseError::DecodeError),
        Ok(text) => {
            proof {
                vstd::utf8::encode_utf8_decode_utf8(text@);
            }
            let entries = split_text(text, NUL);
            parse_status(entries)
        },
    }
}

} // verus!
