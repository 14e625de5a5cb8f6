//! Trees: ordered snapshots of named entries, and the canonical entry order.

use vstd::prelude::*;

use crate::hash::{bytes_eq, clone_bytes, ObjectId};

verus! {

/// The kind of a tree entry: regular file, executable file, symbolic link,
/// sub-tree, or external link (a reference to another repository).
#[derive(Clone, Copy, Debug, PartialEq, Eq, Structural)]
pub enum EntryMode {
    Blob,
    BlobExecutable,
    Link,
    Tree,
    Commit,
}

impl EntryMode {
    /// True when the entry names a sub-tree.
    pub fn is_tree(&self) -> (r: bool)
        ensures
            r == (*self is Tree),
    {
        matches!(self, EntryMode::Tree)
    }

    /// True when the entry names anything but a sub-tree.
    pub fn is_no_tree(&self) -> (r: bool)
        ensures
            r == !(*self is Tree),
    {
        !matches!(self, EntryMode::Tree)
    }
}

/// The mathematical value of a tree entry: its name, kind and content hash.
#[verifier::ext_equal]
pub struct EntryModel {
    pub name: Seq<u8>,
    pub mode: EntryMode,
    pub oid: Seq<u8>,
}

/// One named entry of a tree. The name is a byte string free of path
/// separators; entries of one tree are unique by name and pre-sorted by
/// the canonical tree-entry order.
pub struct TreeEntry {
    pub filename: Vec<u8>,
    pub mode: EntryMode,
    pub oid: ObjectId,
}

impl View for TreeEntry {
    type V = EntryModel;

    open spec fn view(&self) -> EntryModel {
        EntryModel { name: self.filename@, mode: self.mode, oid: self.oid@ }
    }
}

impl Clone for TreeEntry {
    fn clone(&self) -> (r: Self)
        ensures
            r@ == self@,
    {
        TreeEntry { filename: clone_bytes(&self.filename), mode: self.mode, oid: self.oid.clone() }
    }
}

/// The mathematical value of a sequence of entries.
pub open spec fn entries_model(s: Seq<TreeEntry>) -> Seq<EntryModel> {
    Seq::new(s.len(), |i: int| s[i]@)
}

/// A tree object: an ordered sequence of entries.
pub struct Tree {
    pub entries: Vec<TreeEntry>,
}

impl View for Tree {
    type V = Seq<EntryModel>;

    open spec fn view(&self) -> Seq<EntryModel> {
        entries_model(self.entries@)
    }
}

impl Clone for Tree {
    fn clone(&self) -> (r: Self)
        ensures
            r@ == self@,
    {
        let mut entries: Vec<TreeEntry> = Vec::new();
        let mut i: usize = 0;
        while i < self.entries.len()
            invariant
                i <= self.entries.len(),
                entries@.len() == i,
                forall|j: int| 0 <= j < i ==> entries@[j]@ == self.entries@[j]@,
            decreases self.entries.len() - i,
        {
            entries.push(self.entries[i].clone());
            i += 1;
        }
        proof {
            assert(entries_model(entries@) =~= self@);
        }
        Tree { entries }
    }
}

impl Tree {
    /// The well-known empty tree, the stand-in for "no tree at all".
    pub fn empty() -> (t: Tree)
        ensures
            t@ == Seq::<EntryModel>::empty(),
    {
        proof {
            assert(entries_model(Seq::<TreeEntry>::empty()) =~= Seq::<EntryModel>::empty());
        }
        Tree { entries: Vec::new() }
    }
}

/// The key an entry is ordered by: its name, with a trailing separator
/// appended when the entry is a sub-tree. This makes files and directories
/// interleave exactly as the canonical tree-entry order demands.
pub open spec fn entry_key(e: EntryModel) -> Seq<u8> {
    if e.mode is Tree {
        e.name.push(0x2f)
    } else {
        e.name
    }
}

/// Strict lexicographic order on byte strings.
pub open spec fn lex_lt(a: Seq<u8>, b: Seq<u8>) -> bool
    decreases a.len(),
{
    b.len() > 0 && (a.len() == 0 || a[0] < b[0] || (a[0] == b[0] && lex_lt(
        a.drop_first(),
        b.drop_first(),
    )))
}

/// The canonical tree-entry order: lexicographic on the entries' keys.
pub open spec fn entry_lt(a: EntryModel, b: EntryModel) -> bool {
    lex_lt(entry_key(a), entry_key(b))
}

/// Entries strictly increasing under the canonical order.
pub open spec fn tree_sorted(s: Seq<EntryModel>) -> bool {
    forall|i: int, j: int| 0 <= i < j < s.len() ==> entry_lt(#[trigger] s[i], #[trigger] s[j])
}

/// Decides `lex_lt` on the suffixes of two byte strings starting at `i`.
fn lex_lt_from(a: &Vec<u8>, b: &Vec<u8>, i: usize) -> (r: bool)
    requires
        i <= a.len(),
        i <= b.len(),
    ensures
        r == lex_lt(a@.skip(i as int), b@.skip(i as int)),
    decreases a.len() - i,
{
    proof {
        if i < a.len() {
            assert(a@.skip(i as int).drop_first() =~= a@.skip(i as int + 1));
        }
        if i < b.len() {
            assert(b@.skip(i as int).drop_first() =~= b@.skip(i as int + 1));
        }
    }
    if i == b.len() {
        false
    } else if i == a.len() {
        true
    } else if a[i] < b[i] {
        true
    } else if a[i] > b[i] {
        false
    } else {
        lex_lt_from(a, b, i + 1)
    }
}

/// The entry's ordering key as a fresh byte string.
fn entry_key_bytes(e: &TreeEntry) -> (k: Vec<u8>)
    ensures
        k@ == entry_key(e@),
{
    let mut k = clone_bytes(&e.filename);
    if e.mode.is_tree() {
        k.push(0x2f);
    }
    k
}

/// Decides the canonical tree-entry order.
pub fn entry_sorts_before(a: &TreeEntry, b: &TreeEntry) -> (r: bool)
    ensures
        r == entry_lt(a@, b@),
{
    let ka = entry_key_bytes(a);
    let kb = entry_key_bytes(b);
    proof {
        assert(ka@.skip(0) =~= ka@);
        assert(kb@.skip(0) =~= kb@);
    }
    lex_lt_from(&ka, &kb, 0)
}

} // verus!
