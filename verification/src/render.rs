//! Turns a change set into the summary text.
//!
//! What is written depends on the total number of changes alone: nothing
//! for none, one phrase for one, a header of counts for more, and below the
//! header one line for each change as long as there are no more than
//! [`DETAIL_LIMIT`] of them.
use crate::changes::{Category, CategoryView, ChangeSet, ChangeSetView, Kind};
use crate::text::{
    decimal, join, lemma_decimal_is_numeral, lemma_join_covers_parts, lemma_join_push,
    push_decimal, texts,
};
use vstd::prelude::*;
use vstd::string::StringExecFns;

verus! {

/// The largest total for which every change gets a line of its own.
pub const DETAIL_LIMIT: u128 = 8;

/// The form that a summary takes.
#[derive(Clone, Copy, Debug, PartialEq, Eq, Structural)]
pub enum RenderMode {
    /// No change: the empty text.
    Empty,
    /// One change: one phrase.
    Single,
    /// A header of counts and a line for each change.
    SummaryPlusDetail,
    /// A header of counts alone.
    SummaryOnly,
}

/// The form of the summary of a change set with `total` changes.
pub open spec fn mode_of(total: nat) -> RenderMode {
    if total == 0 {
        RenderMode::Empty
    } else if total == 1 {
        RenderMode::Single
    } else if total <= DETAIL_LIMIT {
        RenderMode::SummaryPlusDetail
    } else {
        RenderMode::SummaryOnly
    }
}

/// The name of a kind of change.
pub open spec fn label(kind: Kind) -> Seq<char> {
    match kind {
        Kind::Modified => "Modified"@,
        Kind::Added => "Added"@,
        Kind::Deleted => "Deleted"@,
        Kind::Renamed => "Renamed"@,
    }
}

/// The first three characters of the name of a kind of change.
pub open spec fn abbreviation(kind: Kind) -> Seq<char> {
    label(kind).take(3)
}

/// What stands between two parts of the header.
pub open spec fn part_separator() -> Seq<char> {
    seq![',', ' ']
}

/// What stands between two lines.
pub open spec fn line_separator() -> Seq<char> {
    seq!['\n']
}

/// The header's part for one category: its abbreviation, a space and its
/// count.
pub open spec fn header_part(kind: Kind, category: CategoryView) -> Seq<char> {
    abbreviation(kind).push(' ') + decimal(category.count)
}

/// The header's parts for one category: none if the category is empty.
pub open spec fn header_parts_of(kind: Kind, category: CategoryView) -> Seq<Seq<char>> {
    if category.count == 0 {
        Seq::<Seq<char>>::empty()
    } else {
        seq![header_part(kind, category)]
    }
}

/// The header's parts: one for each category that is not empty, in the
/// order modified, added, deleted, renamed.
pub open spec fn header_parts(changes: ChangeSetView) -> Seq<Seq<char>> {
    header_parts_of(Kind::Modified, changes.modified) + header_parts_of(
        Kind::Added,
        changes.added,
    ) + header_parts_of(Kind::Deleted, changes.deleted) + header_parts_of(
        Kind::Renamed,
        changes.renamed,
    )
}

/// The header line.
pub open spec fn header(changes: ChangeSetView) -> Seq<char> {
    join(header_parts(changes), part_separator())
}

/// The line for one modified, added or deleted file.
pub open spec fn item_line(kind: Kind, name: Seq<char>) -> Seq<char> {
    label(kind).push(' ') + name
}

/// The lines for the files of one category.
pub open spec fn item_lines(kind: Kind, items: Seq<Seq<char>>) -> Seq<Seq<char>> {
    Seq::new(items.len(), |i: int| item_line(kind, items[i]))
}

/// The line for one rename among others. A file whose name did not change
/// was moved.
pub open spec fn rename_line(new_name: Seq<char>, old_name: Seq<char>) -> Seq<char> {
    if new_name == old_name {
        "Moved"@.push(' ') + new_name
    } else {
        label(Kind::Renamed).push(' ') + new_name + " => "@ + old_name
    }
}

/// The lines for the renames: one for each pair of names.
pub open spec fn rename_lines(items: Seq<Seq<char>>) -> Seq<Seq<char>> {
    Seq::new(items.len() / 2, |i: int| rename_line(items[2 * i], items[2 * i + 1]))
}

/// A line for each change, in the order modified, added, deleted, renamed.
pub open spec fn detail_lines(changes: ChangeSetView) -> Seq<Seq<char>> {
    item_lines(Kind::Modified, changes.modified.items) + item_lines(
        Kind::Added,
        changes.added.items,
    ) + item_lines(Kind::Deleted, changes.deleted.items) + rename_lines(changes.renamed.items)
}

/// The phrase for a rename that is the only change: the old name first.
pub open spec fn single_rename(new_name: Seq<char>, old_name: Seq<char>) -> Seq<char> {
    label(Kind::Renamed).push(' ') + old_name + " to "@ + new_name
}

/// The phrase for a change set with one change.
pub open spec fn single_line(changes: ChangeSetView) -> Seq<char> {
    if changes.modified.count > 0 {
        item_line(Kind::Modified, changes.modified.items[0])
    } else if changes.added.count > 0 {
        item_line(Kind::Added, changes.added.items[0])
    } else if changes.deleted.count > 0 {
        item_line(Kind::Deleted, changes.deleted.items[0])
    } else {
        single_rename(changes.renamed.items[0], changes.renamed.items[1])
    }
}

/// The summary of a change set.
pub open spec fn render(changes: ChangeSetView) -> Seq<char> {
    match mode_of(changes.total()) {
        RenderMode::Empty => Seq::<char>::empty(),
        RenderMode::Single => single_line(changes),
        RenderMode::SummaryPlusDetail => join(
            seq![header(changes)] + detail_lines(changes),
            line_separator(),
        ),
        RenderMode::SummaryOnly => header(changes),
    }
}

/// The summary is a function of the change set: two renderings of change
/// sets with the same counts and the same names give the same text.
pub proof fn lemma_render_is_deterministic(
    first: ChangeSet,
    second: ChangeSet,
    first_text: String,
    second_text: String,
)
    requires
        first@ == second@,
        first_text@ == render(first@),
        second_text@ == render(second@),
    ensures
        first_text@ == second_text@,
{
}

/// There is one detail line for each change.
pub proof fn lemma_one_line_for_each_change(changes: ChangeSetView)
    requires
        changes.wf(),
    ensures
        detail_lines(changes).len() == changes.total(),
{
}

/// Parts and a separator without a line break join to a text without one.
proof fn lemma_join_is_one_line(parts: Seq<Seq<char>>, sep: Seq<char>)
    requires
        forall|i: int| 0 <= i < parts.len() ==> !(#[trigger] parts[i]).contains('\n'),
        !sep.contains('\n'),
    ensures
        !join(parts, sep).contains('\n'),
    decreases parts.len(),
{
    if parts.len() > 1 {
        let shorter = parts.drop_last();
        assert forall|i: int| 0 <= i < shorter.len() implies !(#[trigger] shorter[i]).contains(
            '\n',
        ) by {
            assert(shorter[i] == parts[i]);
        }
        lemma_join_is_one_line(shorter, sep);
        let joined = join(parts, sep);
        if joined.contains('\n') {
            let i = choose|i: int| 0 <= i < joined.len() && joined[i] == '\n';
            let head = join(shorter, sep);
            if i < head.len() {
                assert(head[i] == '\n');
            } else if i < head.len() + sep.len() {
                assert(sep[i - head.len()] == '\n');
            } else {
                assert(parts.last()[i - head.len() - sep.len()] == '\n');
            }
        }
    } else if parts.len() == 1 {
        assert(!parts[0].contains('\n'));
    }
}

/// The header's part for a category holds no line break.
proof fn lemma_header_part_is_one_line(kind: Kind, category: CategoryView)
    ensures
        !header_part(kind, category).contains('\n'),
{
    reveal_strlit("Modified");
    reveal_strlit("Added");
    reveal_strlit("Deleted");
    reveal_strlit("Renamed");
    lemma_decimal_is_numeral(category.count);
    let part = header_part(kind, category);
    if part.contains('\n') {
        let j = choose|j: int| 0 <= j < part.len() && part[j] == '\n';
        if j >= 4 {
            assert(decimal(category.count)[j - 4] == '\n');
        }
    }
}

/// The header is one line: it holds no line break.
pub proof fn lemma_header_is_one_line(changes: ChangeSetView)
    ensures
        !header(changes).contains('\n'),
{
    lemma_header_part_is_one_line(Kind::Modified, changes.modified);
    lemma_header_part_is_one_line(Kind::Added, changes.added);
    lemma_header_part_is_one_line(Kind::Deleted, changes.deleted);
    lemma_header_part_is_one_line(Kind::Renamed, changes.renamed);
    let sep = part_separator();
    assert(!sep.contains('\n')) by {
        if sep.contains('\n') {
            let j = choose|j: int| 0 <= j < sep.len() && sep[j] == '\n';
            assert(sep[j] == ',' || sep[j] == ' ');
        }
    }
    lemma_join_is_one_line(header_parts(changes), sep);
}

/// The summary changes its form exactly at the limit: with up to
/// [`DETAIL_LIMIT`] changes (and more than one) it is the header followed by
/// one line for each change, with more it is the header alone.
pub proof fn lemma_detail_threshold(changes: ChangeSetView)
    requires
        changes.wf(),
    ensures
        2 <= changes.total() <= DETAIL_LIMIT ==> render(changes) == join(
            seq![header(changes)] + detail_lines(changes),
            line_separator(),
        ),
        changes.total() == DETAIL_LIMIT ==> mode_of(changes.total())
            == RenderMode::SummaryPlusDetail && detail_lines(changes).len() == DETAIL_LIMIT,
        changes.total() == DETAIL_LIMIT + 1 ==> mode_of(changes.total()) == RenderMode::SummaryOnly
            && render(changes) == header(changes),
        changes.total() > DETAIL_LIMIT ==> render(changes) == header(changes) && !render(
            changes,
        ).contains('\n'),
{
    lemma_header_is_one_line(changes);
}

/// The summary is empty exactly when the change set holds no change.
pub proof fn lemma_render_empty_iff_no_changes(changes: ChangeSetView)
    requires
        changes.wf(),
    ensures
        render(changes).len() == 0 <==> changes.total() == 0,
{
    if changes.total() == 1 {
        assert(single_line(changes).len() > 0);
    } else if changes.total() >= 2 {
        let parts = header_parts(changes);
        let kind = if changes.modified.count > 0 {
            Kind::Modified
        } else if changes.added.count > 0 {
            Kind::Added
        } else if changes.deleted.count > 0 {
            Kind::Deleted
        } else {
            Kind::Renamed
        };
        assert(parts.len() > 0);
        assert(parts[0] == header_part(kind, changes.category(kind)));
        assert(parts[0].len() > 0);
        lemma_join_covers_parts(parts, part_separator(), 0);
        if changes.total() <= DETAIL_LIMIT {
            let lines = seq![header(changes)] + detail_lines(changes);
            assert(lines[0] == header(changes));
            lemma_join_covers_parts(lines, line_separator(), 0);
        }
    }
}

/// The name of a kind of change.
pub fn label_of(kind: Kind) -> (name: &'static str)
    ensures
        name@ == label(kind),
{
    match kind {
        Kind::Modified => "Modified",
        Kind::Added => "Added",
        Kind::Deleted => "Deleted",
        Kind::Renamed => "Renamed",
    }
}

/// The first three characters of the name of a kind of change.
pub fn abbreviation_of(kind: Kind) -> (name: &'static str)
    ensures
        name@ == abbreviation(kind),
{
    proof {
        reveal_strlit("Modified");
        reveal_strlit("Added");
        reveal_strlit("Deleted");
        reveal_strlit("Renamed");
        reveal_strlit("Mod");
        reveal_strlit("Add");
        reveal_strlit("Del");
        reveal_strlit("Ren");
        assert("Mod"@ =~= "Modified"@.take(3));
        assert("Add"@ =~= "Added"@.take(3));
        assert("Del"@ =~= "Deleted"@.take(3));
        assert("Ren"@ =~= "Renamed"@.take(3));
    }
    match kind {
        Kind::Modified => "Mod",
        Kind::Added => "Add",
        Kind::Deleted => "Del",
        Kind::Renamed => "Ren",
    }
}

/// The form of the summary of a change set with `total` changes.
pub fn render_mode(total: u128) -> (mode: RenderMode)
    ensures
        mode == mode_of(total as nat),
{
    if total == 0 {
        RenderMode::Empty
    } else if total == 1 {
        RenderMode::Single
    } else if total <= DETAIL_LIMIT {
        RenderMode::SummaryPlusDetail
    } else {
        RenderMode::SummaryOnly
    }
}

/// Appends the header's part for one category, if the category is not
/// empty, and says whether the header is still empty afterwards.
fn push_header_part(
    out: &mut String,
    first: bool,
    kind: Kind,
    category: &Category,
    Ghost(parts): Ghost<Seq<Seq<char>>>,
) -> (still_first: bool)
    requires
        old(out)@ == join(parts, part_separator()),
        first == (parts.len() == 0),
    ensures
        final(out)@ == join(parts + header_parts_of(kind, category@), part_separator()),
        still_first == ((parts + header_parts_of(kind, category@)).len() == 0),
{
    let n: usize = category.count();
    if n == 0 {
        proof {
            assert(parts + header_parts_of(kind, category@) =~= parts);
        }
        return first;
    }
    if !first {
        out.push(',');
        out.push(' ');
    }
    out.append(abbreviation_of(kind));
    out.push(' ');
    push_decimal(out, n);
    proof {
        let part = header_part(kind, category@);
        assert(parts + header_parts_of(kind, category@) =~= parts.push(part));
        lemma_join_push(parts, part, part_separator());
        if first {
            assert(old(out)@ =~= Seq::<char>::empty());
            assert(out@ =~= part);
        } else {
            assert(out@ =~= old(out)@ + part_separator() + part);
        }
    }
    false
}

/// The header line of a change set.
pub fn header_of(stat: &ChangeSet) -> (out: String)
    ensures
        out@ == header(stat@),
{
    let mut out = String::new();
    let ghost p0 = Seq::<Seq<char>>::empty();
    let first = push_header_part(&mut out, true, Kind::Modified, stat.modified(), Ghost(p0));
    let ghost p1 = p0 + header_parts_of(Kind::Modified, stat@.modified);
    let first = push_header_part(&mut out, first, Kind::Added, stat.added(), Ghost(p1));
    let ghost p2 = p1 + header_parts_of(Kind::Added, stat@.added);
    let first = push_header_part(&mut out, first, Kind::Deleted, stat.deleted(), Ghost(p2));
    let ghost p3 = p2 + header_parts_of(Kind::Deleted, stat@.deleted);
    let _ = push_header_part(&mut out, first, Kind::Renamed, stat.renamed(), Ghost(p3));
    proof {
        assert(p3 + header_parts_of(Kind::Renamed, stat@.renamed) =~= header_parts(stat@));
    }
    out
}

/// Appends a line for each file of a category, each behind a line break.
fn push_item_lines(
    out: &mut String,
    kind: Kind,
    category: &Category,
    Ghost(lines): Ghost<Seq<Seq<char>>>,
)
    requires
        old(out)@ == join(lines, line_separator()),
        lines.len() > 0,
    ensures
        final(out)@ == join(lines + item_lines(kind, category@.items), line_separator()),
{
    let items = category.items();
    let ghost more = item_lines(kind, category@.items);
    let mut i: usize = 0;
    proof {
        assert(lines + more.take(0) =~= lines);
    }
    while i < items.len()
        invariant
            0 <= i <= items.len(),
            lines.len() > 0,
            texts(items@) == category@.items,
            more == item_lines(kind, category@.items),
            out@ == join(lines + more.take(i as int), line_separator()),
        decreases items.len() - i,
    {
        let ghost before = out@;
        out.push('\n');
        out.append(label_of(kind));
        out.push(' ');
        out.append(items[i].as_str());
        proof {
            let line = item_line(kind, items@[i as int]@);
            assert(more[i as int] == line);
            assert((lines + more.take(i as int)).push(line) =~= lines + more.take(i + 1));
            lemma_join_push(lines + more.take(i as int), line, line_separator());
            assert(out@ =~= before + line_separator() + line);
        }
        i = i + 1;
    }
    proof {
        assert(more.take(i as int) =~= more);
    }
}

/// Appends a line for each rename, each behind a line break.
fn push_rename_lines(out: &mut String, category: &Category, Ghost(lines): Ghost<Seq<Seq<char>>>)
    requires
        old(out)@ == join(lines, line_separator()),
        lines.len() > 0,
    ensures
        final(out)@ == join(lines + rename_lines(category@.items), line_separator()),
{
    let items = category.items();
    let ghost more = rename_lines(category@.items);
    let pairs: usize = items.len() / 2;
    let mut i: usize = 0;
    proof {
        assert(lines + more.take(0) =~= lines);
    }
    while i < pairs
        invariant
            0 <= i <= pairs,
            pairs == items.len() / 2,
            lines.len() > 0,
            texts(items@) == category@.items,
            more == rename_lines(category@.items),
            out@ == join(lines + more.take(i as int), line_separator()),
        decreases pairs - i,
    {
        let ghost before = out@;
        let new_name = &items[2 * i];
        let old_name = &items[2 * i + 1];
        out.push('\n');
        if *new_name == *old_name {
            out.append("Moved");
            out.push(' ');
            out.append(new_name.as_str());
        } else {
            out.append(label_of(Kind::Renamed));
            out.push(' ');
            out.append(new_name.as_str());
            out.append(" => ");
            out.append(old_name.as_str());
        }
        proof {
            let line = rename_line(new_name@, old_name@);
            assert(category@.items[2 * i] == new_name@);
            assert(category@.items[2 * i + 1] == old_name@);
            assert(more[i as int] == line);
            assert((lines + more.take(i as int)).push(line) =~= lines + more.take(i + 1));
            lemma_join_push(lines + more.take(i as int), line, line_separator());
            assert(out@ =~= before + line_separator() + line);
        }
        i = i + 1;
    }
    proof {
        assert(more.take(i as int) =~= more);
    }
}

/// The phrase for a change set with one change.
fn single_line_of(stat: &ChangeSet) -> (out: String)
    requires
        stat@.wf(),
        stat@.total() == 1,
    ensures
        out@ == single_line(stat@),
{
    let mut out = String::new();
    if stat.modified().count() > 0 {
        push_single_item(&mut out, Kind::Modified, stat.modified());
    } else if stat.added().count() > 0 {
        push_single_item(&mut out, Kind::Added, stat.added());
    } else if stat.deleted().count() > 0 {
        push_single_item(&mut out, Kind::Deleted, stat.deleted());
    } else {
        let items = stat.renamed().items();
        proof {
            assert(texts(items@)[0] == items@[0]@);
            assert(texts(items@)[1] == items@[1]@);
        }
        out.append(label_of(Kind::Renamed));
        out.push(' ');
        out.append(items[1].as_str());
        out.append(" to ");
        out.append(items[0].as_str());
        proof {
            assert(out@ =~= single_rename(items@[0]@, items@[1]@));
        }
    }
    out
}

/// Appends the phrase for the first file of a category.
fn push_single_item(out: &mut String, kind: Kind, category: &Category)
    requires
        old(out)@.len() == 0,
        category@.items.len() > 0,
    ensures
        final(out)@ == item_line(kind, category@.items[0]),
{
    let items = category.items();
    proof {
        assert(texts(items@)[0] == items@[0]@);
    }
    out.append(label_of(kind));
    out.push(' ');
    out.append(items[0].as_str());
    proof {
        assert(out@ =~= item_line(kind, items@[0]@));
    }
}

/// Writes the summary of a change set.
///
/// The result is empty exactly when the change set holds no change (see
/// [`lemma_render_empty_iff_no_changes`]).
pub fn render_status(stat: ChangeSet) -> (summary: String)
    ensures
        summary@ == render(stat@),
        summary@.len() == 0 <==> stat@.total() == 0,
{
    let total: u128 = stat.total();
    proof {
        lemma_render_empty_iff_no_changes(stat@);
    }
    match render_mode(total) {
        RenderMode::Empty => String::new(),
        RenderMode::Single => single_line_of(&stat),
        RenderMode::SummaryOnly => header_of(&stat),
        RenderMode::SummaryPlusDetail => {
            let mut out = header_of(&stat);
            let ghost l0 = seq![header(stat@)];
            proof {
                assert(join(l0, line_separator()) == header(stat@));
            }
            push_item_lines(&mut out, Kind::Modified, stat.modified(), Ghost(l0));
            let ghost l1 = l0 + item_lines(Kind::Modified, stat@.modified.items);
            push_item_lines(&mut out, Kind::Added, stat.added(), Ghost(l1));
            let ghost l2 = l1 + item_lines(Kind::Added, stat@.added.items);
            push_item_lines(&mut out, Kind::Deleted, stat.deleted(), Ghost(l2));
            let ghost l3 = l2 + item_lines(Kind::Deleted, stat@.deleted.items);
            push_rename_lines(&mut out, stat.renamed(), Ghost(l3));
            proof {
                assert(l3 + rename_lines(stat@.renamed.items) =~= seq![header(stat@)]
                    + detail_lines(stat@));
            }
            out
        },
    }
}

} // verus!
