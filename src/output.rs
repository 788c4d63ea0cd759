//! The staged output of a generation run, and the per-file decisions of
//! merging it into a destination.
use vstd::prelude::*;

verus! {

/// What a staged entry holds.
#[derive(Debug, PartialEq, Eq)]
pub enum StagedKind {
    /// A directory.
    Directory,
    /// A file copied byte for byte.
    Bytes(Vec<u8>),
    /// A rendered file.
    Text(String),
}

/// What a staged entry holds, as plain values.
pub enum StagedView {
    Directory,
    Bytes(Seq<u8>),
    Text(Seq<char>),
}

/// The plain view of a staged kind.
pub open spec fn staged_view(k: StagedKind) -> StagedView {
    match k {
        StagedKind::Directory => StagedView::Directory,
        StagedKind::Bytes(b) => StagedView::Bytes(b@),
        StagedKind::Text(t) => StagedView::Text(t@),
    }
}

/// An entry of the staged tree, at its rendered path.
#[derive(Debug, PartialEq, Eq)]
pub struct StagedEntry {
    /// The rendered path, relative to the staging root.
    pub path: String,
    pub kind: StagedKind,
}

/// The staged tree: its entries by ascending depth of their sources, and
/// the rendered path of the base entry.
#[derive(Debug)]
pub struct Output {
    basename: String,
    entries: Vec<StagedEntry>,
}

impl View for Output {
    type V = (Seq<char>, Seq<(Seq<char>, StagedView)>);

    closed spec fn view(&self) -> (Seq<char>, Seq<(Seq<char>, StagedView)>) {
        (
            self.basename@,
            self.entries@.map_values(|e: StagedEntry| (e.path@, staged_view(e.kind))),
        )
    }
}

impl Output {
    /// A staged tree with the given base entry path and entries.
    pub fn new(basename: String, entries: Vec<StagedEntry>) -> (r: Output)
        ensures
            r@ == (basename@, entries@.map_values(|e: StagedEntry| (e.path@, staged_view(e.kind)))),
    {
        Output { basename, entries }
    }

    /// The rendered path of the base entry, relative to the staging root.
    pub fn basename(&self) -> (r: &str)
        ensures
            r@ == self@.0,
    {
        self.basename.as_str()
    }

    /// The staged entries, in the order they are written.
    pub fn entries(&self) -> (r: &Vec<StagedEntry>)
        ensures
            r@.map_values(|e: StagedEntry| (e.path@, staged_view(e.kind))) == self@.1,
    {
        &self.entries
    }

    /// Hands the entries over, consuming the output.
    pub fn into_entries(self) -> (r: (String, Vec<StagedEntry>))
        ensures
            r.0@ == self@.0,
            r.1@.map_values(|e: StagedEntry| (e.path@, staged_view(e.kind))) == self@.1,
    {
        (self.basename, self.entries)
    }
}

/// What merging does with one staged file.
#[derive(Debug, Clone, Copy, PartialEq, Eq, Structural)]
pub enum FileAction {
    /// Absent at the destination: copied, counted created.
    Create,
    /// Present and forced or accepted: replaced, counted overwritten.
    Overwrite,
    /// Present and declined: left untouched, counted skipped.
    Skip,
}

/// The action for a staged file: created where absent at the destination;
/// where present, overwritten when forced, else as the conflict resolver
/// answered (`accepted` is read only then).
pub open spec fn action_of(exists: bool, force: bool, accepted: bool) -> FileAction {
    if !exists {
        FileAction::Create
    } else if force || accepted {
        FileAction::Overwrite
    } else {
        FileAction::Skip
    }
}

/// Whether the conflict resolver must be asked about a staged file.
pub fn needs_resolver(exists: bool, force: bool) -> (r: bool)
    ensures
        r == (exists && !force),
{
    exists && !force
}

/// The action for a staged file, given whether it exists at the
/// destination, the force flag and the resolver's answer.
pub fn merge_action(exists: bool, force: bool, accepted: bool) -> (r: FileAction)
    ensures
        r == action_of(exists, force, accepted),
{
    if !exists {
        FileAction::Create
    } else if force || accepted {
        FileAction::Overwrite
    } else {
        FileAction::Skip
    }
}

/// The files merged so far, by action.
#[derive(Debug, Clone, Copy, PartialEq, Eq, Structural)]
pub struct MergeCounts {
    pub created: u32,
    pub overwritten: u32,
    pub skipped: u32,
}

impl MergeCounts {
    /// No file merged yet.
    pub fn new() -> (r: MergeCounts)
        ensures
            r == (MergeCounts { created: 0, overwritten: 0, skipped: 0 }),
    {
        MergeCounts { created: 0, overwritten: 0, skipped: 0 }
    }

    /// Whether another file can be counted.
    pub fn has_room(&self) -> (r: bool)
        ensures
            r == (self.created < u32::MAX && self.overwritten < u32::MAX && self.skipped < u32::MAX),
    {
        self.created < u32::MAX && self.overwritten < u32::MAX && self.skipped < u32::MAX
    }

    /// Counts one file under its action.
    pub fn record(&mut self, action: FileAction)
        requires
            old(self).created < u32::MAX,
            old(self).overwritten < u32::MAX,
            old(self).skipped < u32::MAX,
        ensures
            *final(self) == match action {
                FileAction::Create => MergeCounts { created: (old(self).created + 1) as u32, ..*old(self) },
                FileAction::Overwrite => MergeCounts {
                    overwritten: (old(self).overwritten + 1) as u32,
                    ..*old(self)
                },
                FileAction::Skip => MergeCounts { skipped: (old(self).skipped + 1) as u32, ..*old(self) },
            },
    {
        match action {
            FileAction::Create => self.created = self.created + 1,
            FileAction::Overwrite => self.overwritten = self.overwritten + 1,
            FileAction::Skip => self.skipped = self.skipped + 1,
        }
    }
}

/// A file absent at the destination is always created; a present one is
/// overwritten when forced, and otherwise overwritten or left untouched as
/// the resolver answers.
pub proof fn lemma_merge_policy(force: bool, accepted: bool)
    ensures
        action_of(false, force, accepted) == FileAction::Create,
        action_of(true, true, accepted) == FileAction::Overwrite,
        action_of(true, false, false) == FileAction::Skip,
        action_of(true, false, true) == FileAction::Overwrite,
{
}

} // verus!
