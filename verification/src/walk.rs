//! The walk through the directories of a workspace.
use vstd::multiset::Multiset;
use vstd::prelude::*;

use crate::workspace;
use crate::workspace::{check_entry, EntryAction};

verus! {

/// A walk: the directories that are still to be read. `P` is how the file system names an entry.
#[derive(Debug)]
pub struct Walk<P> {
    pub pending: Vec<P>,
}

/// What becomes of the directories that are still to be read, and of the entry `path` itself: a
/// directory is read later, and a Mojom file is handed out.
pub open spec fn entry_step<P>(pending: Seq<P>, path: P, action: EntryAction) -> (
    Seq<P>,
    Option<P>,
) {
    match action {
        EntryAction::Descend => (pending.push(path), None),
        EntryAction::Parse => (pending, Some(path)),
        EntryAction::Skip => (pending, None),
    }
}

impl<P> Walk<P> {
    /// A walk that starts at `root`.
    pub fn new(root: P) -> (r: Walk<P>)
        ensures
            r.pending@ == seq![root],
    {
        let mut pending: Vec<P> = Vec::new();
        pending.push(root);
        proof {
            assert(pending@ =~= seq![root]);
        }
        Walk { pending }
    }

    /// Takes the next directory that is to be read: the one that was found last.
    pub fn next(&mut self) -> (r: Option<P>)
        ensures
            match r {
                Some(directory) => {
                    &&& old(self).pending@.len() > 0
                    &&& directory == old(self).pending@.last()
                    &&& final(self).pending@ == old(self).pending@.drop_last()
                },
                None => old(self).pending@.len() == 0 && final(self).pending@.len() == 0,
            },
    {
        self.pending.pop()
    }

    /// Takes an entry of the directory that is read, and hands it out if it is a Mojom file.
    pub fn entry(&mut self, path: P, is_dir: bool, is_file: bool, name: &str) -> (r: Option<P>)
        ensures
            (final(self).pending@, r) == entry_step(
                old(self).pending@,
                path,
                workspace::entry_action(is_dir, is_file, name@),
            ),
    {
        match check_entry(is_dir, is_file, name) {
            EntryAction::Descend => {
                self.pending.push(path);
                None
            },
            EntryAction::Parse => Some(path),
            EntryAction::Skip => None,
        }
    }
}

/// An entry of a directory, with its own entries if it is a directory.
pub struct Entry {
    pub is_dir: bool,
    pub is_file: bool,
    pub name: Seq<char>,
    pub inner: Seq<Entry>,
}

/// What is done with an entry.
pub open spec fn action(e: Entry) -> EntryAction {
    workspace::entry_action(e.is_dir, e.is_file, e.name)
}

/// The Mojom files among `es` and below them. What is in a directory for build results does not
/// count.
pub open spec fn files_below(es: Seq<Entry>) -> Multiset<Entry>
    decreases es,
{
    if es.len() == 0 {
        Multiset::empty()
    } else {
        let e = es.last();
        files_below(es.drop_last()).add(
            match action(e) {
                EntryAction::Descend => files_below(e.inner),
                EntryAction::Parse => Multiset::singleton(e),
                EntryAction::Skip => Multiset::empty(),
            },
        )
    }
}

/// What a walk does with the entries `es` of one directory: the directories that are to be read
/// after them, and the files that it hands out.
pub open spec fn read_entries(pending: Seq<Entry>, es: Seq<Entry>) -> (Seq<Entry>, Seq<Entry>)
    decreases es.len(),
{
    if es.len() == 0 {
        (pending, Seq::empty())
    } else {
        let before = read_entries(pending, es.drop_last());
        let step = entry_step(before.0, es.last(), action(es.last()));
        match step.1 {
            Some(file) => (step.0, before.1.push(file)),
            None => (step.0, before.1),
        }
    }
}

/// The number of entries among `es` and below them.
pub open spec fn size(es: Seq<Entry>) -> nat
    decreases es,
{
    if es.len() == 0 {
        0
    } else {
        size(es.drop_last()) + size(es.last().inner) + 1
    }
}

/// Reading a directory leaves fewer entries to be read.
pub proof fn lemma_read_size(pending: Seq<Entry>, es: Seq<Entry>)
    ensures
        size(read_entries(pending, es).0) <= size(pending) + size(es),
    decreases es.len(),
{
    if es.len() > 0 {
        lemma_read_size(pending, es.drop_last());
        let before = read_entries(pending, es.drop_last()).0;
        assert(before.push(es.last()).drop_last() =~= before);
    }
}

/// The files that a walk hands out, in their order, where the directories `pending` are still to
/// be read.
pub open spec fn walked(pending: Seq<Entry>) -> Seq<Entry>
    decreases size(pending),
{
    if pending.len() == 0 {
        Seq::empty()
    } else {
        let read = read_entries(pending.drop_last(), pending.last().inner);
        proof {
            lemma_read_size(pending.drop_last(), pending.last().inner);
        }
        read.1 + walked(read.0)
    }
}

/// The Mojom files below the directories `pending`.
spec fn files_pending(pending: Seq<Entry>) -> Multiset<Entry>
    decreases pending.len(),
{
    if pending.len() == 0 {
        Multiset::empty()
    } else {
        files_pending(pending.drop_last()).add(files_below(pending.last().inner))
    }
}

/// Reading the entries of a directory neither loses a file nor finds one twice.
proof fn lemma_read_entries(pending: Seq<Entry>, es: Seq<Entry>)
    ensures
        ({
            let read = read_entries(pending, es);
            read.1.to_multiset().add(files_pending(read.0)) == files_pending(pending).add(
                files_below(es),
            )
        }),
    decreases es.len(),
{
    broadcast use vstd::seq_lib::group_to_multiset_ensures;

    if es.len() == 0 {
        assert(read_entries(pending, es).1.to_multiset() =~= Multiset::empty());
        assert(Multiset::<Entry>::empty().add(files_pending(pending)) =~= files_pending(
            pending,
        ).add(Multiset::empty()));
    } else {
        let e = es.last();
        lemma_read_entries(pending, es.drop_last());
        let before = read_entries(pending, es.drop_last());
        let read = read_entries(pending, es);
        let sum = before.1.to_multiset().add(files_pending(before.0));
        match action(e) {
            EntryAction::Descend => {
                assert(before.0.push(e).drop_last() =~= before.0);
                assert(read.1.to_multiset().add(files_pending(read.0)) =~= sum.add(
                    files_below(e.inner),
                ));
            },
            EntryAction::Parse => {
                assert(read.1.to_multiset() =~= before.1.to_multiset().insert(e));
                assert(read.1.to_multiset().add(files_pending(read.0)) =~= sum.add(
                    Multiset::singleton(e),
                ));
            },
            EntryAction::Skip => {
                assert(sum =~= sum.add(Multiset::empty()));
            },
        }
        assert(read.1.to_multiset().add(files_pending(read.0)) =~= files_pending(pending).add(
            files_below(es),
        ));
    }
}

proof fn lemma_walked(pending: Seq<Entry>)
    ensures
        walked(pending).to_multiset() == files_pending(pending),
    decreases size(pending),
{
    broadcast use vstd::seq_lib::group_to_multiset_ensures;

    if pending.len() == 0 {
        assert(walked(pending).to_multiset() =~= Multiset::empty());
    } else {
        let rest = pending.drop_last();
        let es = pending.last().inner;
        let read = read_entries(rest, es);
        lemma_read_size(rest, es);
        lemma_walked(read.0);
        lemma_read_entries(rest, es);
        vstd::seq_lib::lemma_multiset_commutative(read.1, walked(read.0));
    }
}

/// A walk hands out every Mojom file below its start once, but for those in directories for
/// build results, and nothing else.
pub proof fn walk_finds_every_file_once(root: Entry)
    ensures
        walked(seq![root]).to_multiset() == files_below(root.inner),
{
    let start = seq![root];
    lemma_walked(start);
    assert(start.drop_last() =~= Seq::<Entry>::empty());
    assert(files_pending(start.drop_last()) == Multiset::<Entry>::empty());
    assert(files_pending(start) =~= files_below(root.inner));
}

} // verus!
