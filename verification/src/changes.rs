//! The change set: four categories of changed files, each a count and the
//! display names of the files in the order they were reported.
use crate::text::texts;
use vstd::prelude::*;

verus! {

/// What happened to a file.
#[derive(Clone, Copy, Debug, PartialEq, Eq, Structural)]
pub enum Kind {
    Modified,
    Added,
    Deleted,
    Renamed,
}

/// The mathematical value of a [`Category`].
pub struct CategoryView {
    /// How many changes the category holds.
    pub count: nat,
    /// The display names, in the order in which they were recorded.
    pub items: Seq<Seq<char>>,
}

/// The mathematical value of a [`ChangeSet`].
pub struct ChangeSetView {
    pub modified: CategoryView,
    pub added: CategoryView,
    pub deleted: CategoryView,
    pub renamed: CategoryView,
}

impl CategoryView {
    /// The category without changes.
    pub open spec fn empty() -> CategoryView {
        CategoryView { count: 0, items: Seq::empty() }
    }

    /// One change more, with one name.
    pub open spec fn with_name(self, name: Seq<char>) -> CategoryView {
        CategoryView { count: self.count + 1, items: self.items.push(name) }
    }

    /// One change more, stored as the new name followed by the old one.
    pub open spec fn with_pair(self, new_name: Seq<char>, old_name: Seq<char>) -> CategoryView {
        CategoryView { count: self.count + 1, items: self.items.push(new_name).push(old_name) }
    }
}

impl ChangeSetView {
    /// The change set without changes.
    pub open spec fn empty() -> ChangeSetView {
        ChangeSetView {
            modified: CategoryView::empty(),
            added: CategoryView::empty(),
            deleted: CategoryView::empty(),
            renamed: CategoryView::empty(),
        }
    }

    /// The category of the given kind.
    pub open spec fn category(self, kind: Kind) -> CategoryView {
        match kind {
            Kind::Modified => self.modified,
            Kind::Added => self.added,
            Kind::Deleted => self.deleted,
            Kind::Renamed => self.renamed,
        }
    }

    /// The change set after one more modified, added or deleted file. For
    /// `Kind::Renamed` nothing is recorded: a rename needs two names.
    pub open spec fn record(self, kind: Kind, name: Seq<char>) -> ChangeSetView {
        match kind {
            Kind::Modified => ChangeSetView { modified: self.modified.with_name(name), ..self },
            Kind::Added => ChangeSetView { added: self.added.with_name(name), ..self },
            Kind::Deleted => ChangeSetView { deleted: self.deleted.with_name(name), ..self },
            Kind::Renamed => self,
        }
    }

    /// The change set after one more rename.
    pub open spec fn record_rename(self, new_name: Seq<char>, old_name: Seq<char>) -> ChangeSetView {
        ChangeSetView { renamed: self.renamed.with_pair(new_name, old_name), ..self }
    }

    /// Whether `name` is one of the display names of the change set.
    pub open spec fn holds_name(self, name: Seq<char>) -> bool {
        ||| self.modified.items.contains(name)
        ||| self.added.items.contains(name)
        ||| self.deleted.items.contains(name)
        ||| self.renamed.items.contains(name)
    }

    /// The number of changes over all four categories; a rename counts once.
    pub open spec fn total(self) -> nat {
        self.modified.count + self.added.count + self.deleted.count + self.renamed.count
    }

    /// Each count is the number of changes that the items stand for: one
    /// name for each modified, added or deleted file, and a pair of names,
    /// new before old, for each rename.
    pub open spec fn wf(self) -> bool {
        &&& self.modified.items.len() == self.modified.count
        &&& self.added.items.len() == self.added.count
        &&& self.deleted.items.len() == self.deleted.count
        &&& self.renamed.items.len() == 2 * self.renamed.count
    }
}

/// The empty change set is well formed, and recording a change keeps a
/// change set well formed and adds one to its total.
pub proof fn lemma_recording_keeps_wf(cs: ChangeSetView, kind: Kind, name: Seq<char>, old_name: Seq<char>)
    requires
        cs.wf(),
    ensures
        ChangeSetView::empty().wf(),
        ChangeSetView::empty().total() == 0,
        cs.record(kind, name).wf(),
        kind != Kind::Renamed ==> cs.record(kind, name).total() == cs.total() + 1,
        cs.record_rename(name, old_name).wf(),
        cs.record_rename(name, old_name).total() == cs.total() + 1,
{
}

/// One category of changes.
#[derive(Debug, PartialEq, Eq)]
pub struct Category {
    n: usize,
    items: Vec<String>,
}

impl View for Category {
    type V = CategoryView;

    closed spec fn view(&self) -> CategoryView {
        CategoryView { count: self.n as nat, items: texts(self.items@) }
    }
}

impl Category {
    /// How many changes the category holds.
    pub fn count(&self) -> (n: usize)
        ensures
            n == self@.count,
    {
        self.n
    }

    /// The display names, in the order in which they were recorded.
    pub fn items(&self) -> (names: &Vec<String>)
        ensures
            texts(names@) == self@.items,
    {
        &self.items
    }
}

/// The changes of one status report, by category.
///
/// A value of this type is always well formed (see [`ChangeSetView::wf`]):
/// there is no way to build one whose counts and names disagree.
#[derive(Debug, PartialEq, Eq)]
pub struct ChangeSet {
    modified: Category,
    added: Category,
    deleted: Category,
    renamed: Category,
}

impl View for ChangeSet {
    type V = ChangeSetView;

    closed spec fn view(&self) -> ChangeSetView {
        ChangeSetView {
            modified: self.modified@,
            added: self.added@,
            deleted: self.deleted@,
            renamed: self.renamed@,
        }
    }
}

impl ChangeSet {
    #[verifier::type_invariant]
    closed spec fn inv(&self) -> bool {
        self@.wf()
    }

    /// The change set without changes.
    pub fn new() -> (cs: ChangeSet)
        ensures
            cs@ == ChangeSetView::empty(),
    {
        let cs = ChangeSet {
            modified: Category { n: 0, items: Vec::new() },
            added: Category { n: 0, items: Vec::new() },
            deleted: Category { n: 0, items: Vec::new() },
            renamed: Category { n: 0, items: Vec::new() },
        };
        proof {
            assert(cs@.modified.items =~= Seq::<Seq<char>>::empty());
            assert(cs@.added.items =~= Seq::<Seq<char>>::empty());
            assert(cs@.deleted.items =~= Seq::<Seq<char>>::empty());
            assert(cs@.renamed.items =~= Seq::<Seq<char>>::empty());
        }
        cs
    }

    /// Records one modified, added or deleted file under its display name.
    /// A rename takes two names, so `Kind::Renamed` records nothing here:
    /// see [`ChangeSet::record_rename`].
    pub fn record(self, kind: Kind, name: String) -> (cs: ChangeSet)
        ensures
            cs@ == self@.record(kind, name@),
    {
        proof {
            use_type_invariant(&self);
        }
        let ChangeSet { modified, added, deleted, renamed } = self;
        match kind {
            Kind::Modified => ChangeSet { modified: grown(modified, name), added, deleted, renamed },
            Kind::Added => ChangeSet { modified, added: grown(added, name), deleted, renamed },
            Kind::Deleted => ChangeSet { modified, added, deleted: grown(deleted, name), renamed },
            Kind::Renamed => ChangeSet { modified, added, deleted, renamed },
        }
    }

    /// Records one rename: the new display name, then the old one.
    pub fn record_rename(self, new_name: String, old_name: String) -> (cs: ChangeSet)
        ensures
            cs@ == self@.record_rename(new_name@, old_name@),
    {
        proof {
            use_type_invariant(&self);
        }
        let ChangeSet { modified, added, deleted, renamed } = self;
        let Category { n, items } = renamed;
        let mut items = items;
        let ghost before = items@;
        items.push(new_name);
        items.push(old_name);
        let len: usize = items.len();
        proof {
            assert(len == 2 * n + 2);
            assert(texts(items@) =~= texts(before).push(new_name@).push(old_name@));
        }
        ChangeSet { modified, added, deleted, renamed: Category { n: n + 1, items } }
    }

    /// The modified files.
    pub fn modified(&self) -> (c: &Category)
        ensures
            c@ == self@.modified,
    {
        &self.modified
    }

    /// The added files.
    pub fn added(&self) -> (c: &Category)
        ensures
            c@ == self@.added,
    {
        &self.added
    }

    /// The deleted files.
    pub fn deleted(&self) -> (c: &Category)
        ensures
            c@ == self@.deleted,
    {
        &self.deleted
    }

    /// The renamed files: for each rename the new name, then the old one.
    pub fn renamed(&self) -> (c: &Category)
        ensures
            c@ == self@.renamed,
    {
        &self.renamed
    }

    /// The category of the given kind.
    pub fn category(&self, kind: Kind) -> (c: &Category)
        ensures
            c@ == self@.category(kind),
    {
        match kind {
            Kind::Modified => &self.modified,
            Kind::Added => &self.added,
            Kind::Deleted => &self.deleted,
            Kind::Renamed => &self.renamed,
        }
    }

    /// The number of changes over all four categories; a rename counts once.
    ///
    /// Every change set is well formed, and the contract says so for the
    /// callers that need the fact.
    pub fn total(&self) -> (sum: u128)
        ensures
            sum == self@.total(),
            self@.wf(),
    {
        proof {
            use_type_invariant(self);
        }
        self.modified.n as u128 + self.added.n as u128 + self.deleted.n as u128
            + self.renamed.n as u128
    }
}

/// The category with one more change, named `name`.
fn grown(category: Category, name: String) -> (out: Category)
    requires
        category@.items.len() == category@.count,
    ensures
        out@ == category@.with_name(name@),
{
    let Category { n, items } = category;
    let mut items = items;
    let ghost before = items@;
    items.push(name);
    let len: usize = items.len();
    proof {
        assert(len == n + 1);
        assert(texts(items@) =~= texts(before).push(name@));
    }
    Category { n: n + 1, items }
}

} // verus!
