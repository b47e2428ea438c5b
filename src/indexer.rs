//! Workspace capture: which paths are skipped and how a directory's entries
//! are formed from what its children produced. The walk itself, reading
//! files and listing directories, is the caller's.
use vstd::prelude::*;

use crate::object_store::{object_id, ObjectStore, ObjectType};
use crate::objects::directory::{
    entries_bytes, hashes_decode, lemma_sort_order_independent, sort_by_name, unique_names, Directory,
    DirectoryEntry, EntryMode, EntrySpec,
};

verus! {

/// The name of the repository control directory.
pub open spec fn control_dir_name() -> Seq<char> {
    ".jogen"@
}

/// What indexing one child of a directory produced.
pub struct IndexedChild {
    /// The child's file name.
    pub name: String,
    /// Whether the child is a directory.
    pub is_dir: bool,
    /// The child's object hash; none when the child was skipped.
    pub hash: Option<String>,
}

/// The entry a child contributes, if it was not skipped.
pub open spec fn child_entry(c: IndexedChild) -> Option<EntrySpec> {
    match c.hash {
        Some(h) => Some(
            EntrySpec {
                mode: if c.is_dir { EntryMode::Directory } else { EntryMode::File },
                name: c.name@,
                hash: h@,
            },
        ),
        None => None,
    }
}

/// The entries that children contribute, in the order they were listed.
pub open spec fn children_entries(cs: Seq<IndexedChild>) -> Seq<EntrySpec>
    decreases cs.len(),
{
    if cs.len() == 0 {
        seq![]
    } else {
        match child_entry(cs.last()) {
            Some(e) => children_entries(cs.drop_last()).push(e),
            None => children_entries(cs.drop_last()),
        }
    }
}

/// Captures a workspace into objects of a store.
pub struct Indexer<'a> {
    store: &'a ObjectStore,
}

impl<'a> Indexer<'a> {
    pub fn new(store: &'a ObjectStore) -> (r: Self)
        ensures
            r.store() == store,
    {
        Indexer { store }
    }

    /// The store that captured objects go to.
    pub closed spec fn store(&self) -> &'a ObjectStore {
        self.store
    }

    pub fn object_store(&self) -> (r: &'a ObjectStore)
        ensures
            r == self.store(),
    {
        self.store
    }

    /// Whether a path whose last component is `name` is skipped: the
    /// repository control directory is never captured.
    pub fn is_skipped(name: &str) -> (r: bool)
        ensures
            r == (name@ == control_dir_name()),
    {
        let c = crate::text::chars_of(name);
        assert(c@.subrange(0, c@.len() as int) == c@);
        crate::text::chars_eq(&c, 0, c.len(), ".jogen")
    }

    /// The directory formed from its children: one entry for each child
    /// that was not skipped, a directory entry for a subdirectory and a file
    /// entry otherwise.
    pub fn directory_of(children: Vec<IndexedChild>) -> (r: Directory)
        ensures
            r@ == children_entries(children@),
    {
        let ghost cs = children@;
        let mut dir = Directory::new();
        let mut rest = children;
        let mut i: usize = 0;
        let n = rest.len();
        assert(cs.subrange(0, 0) =~= Seq::<IndexedChild>::empty());
        while i < n
            invariant
                i <= n == cs.len(),
                rest@ == cs.subrange(i as int, n as int),
                dir@ == children_entries(cs.subrange(0, i as int)),
            decreases n - i,
        {
            let child = rest.remove(0);
            assert(child == cs[i as int]);
            assert(cs.subrange(0, i + 1).drop_last() =~= cs.subrange(0, i as int));
            assert(rest@ =~= cs.subrange(i + 1, n as int));
            match child.hash {
                Some(h) => {
                    let mode = if child.is_dir { EntryMode::Directory } else { EntryMode::File };
                    dir.add_entry(DirectoryEntry { mode, name: child.name, hash: h });
                },
                None => {},
            }
            i = i + 1;
        }
        assert(cs.subrange(0, n as int) =~= cs);
        dir
    }
}

/// Indexing a directory does not depend on the order in which its children
/// are listed: children that contribute the same entries, each name once,
/// give the same directory payload, the same outcome of encoding it, and so
/// the same directory hash.
pub proof fn lemma_index_order_independent(a: Seq<IndexedChild>, b: Seq<IndexedChild>)
    requires
        children_entries(a).to_multiset() == children_entries(b).to_multiset(),
        unique_names(children_entries(a)),
        unique_names(children_entries(b)),
    ensures
        hashes_decode(children_entries(a)) == hashes_decode(children_entries(b)),
        entries_bytes(sort_by_name(children_entries(a))) == entries_bytes(sort_by_name(children_entries(b))),
        object_id(ObjectType::Directory, entries_bytes(sort_by_name(children_entries(a)))) == object_id(
            ObjectType::Directory,
            entries_bytes(sort_by_name(children_entries(b))),
        ),
{
    lemma_sort_order_independent(children_entries(a), children_entries(b));
}

} // verus!
