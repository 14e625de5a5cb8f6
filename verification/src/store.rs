//! The object store: the fallible lookup from a content hash to a decoded
//! tree, and the well-formedness the engine asks of the forest behind it.

use vstd::prelude::*;

use crate::hash::{bytes_eq, ObjectId};
use crate::tree::{tree_sorted, EntryModel, Tree};

verus! {

/// The forest a store can produce: decoded tree entries by content hash.
pub type TreeMap = Map<Seq<u8>, Seq<EntryModel>>;

/// `r` ranks the forest: every sub-tree a stored tree references ranks
/// strictly below the tree that references it.
pub open spec fn rank_ok(m: TreeMap, r: Map<Seq<u8>, nat>) -> bool {
    forall|o: Seq<u8>, i: int|
        #![trigger m[o][i]]
        m.dom().contains(o) && 0 <= i < m[o].len() && m[o][i].mode is Tree && m.dom().contains(
            m[o][i].oid,
        ) ==> r[m[o][i].oid] < r[o]
}

/// The forest has no reference cycles: some ranking witnesses it. Content
/// addressing guarantees this of any store built from real objects.
pub open spec fn acyclic(m: TreeMap) -> bool {
    exists|r: Map<Seq<u8>, nat>| rank_ok(m, r)
}

/// Some ranking of an acyclic forest.
pub open spec fn the_rank(m: TreeMap) -> Map<Seq<u8>, nat> {
    choose|r: Map<Seq<u8>, nat>| rank_ok(m, r)
}

pub proof fn lemma_the_rank(m: TreeMap)
    requires
        acyclic(m),
    ensures
        rank_ok(m, the_rank(m)),
{
}

/// How deep a walk through `e` can descend, measured by the ranking `r`.
pub open spec fn entry_rank(m: TreeMap, r: Map<Seq<u8>, nat>, e: EntryModel) -> nat {
    if e.mode is Tree && m.dom().contains(e.oid) {
        r[e.oid] + 1
    } else {
        0
    }
}

/// How deep a walk through any entry of `s` can descend.
pub open spec fn seq_rank(m: TreeMap, r: Map<Seq<u8>, nat>, s: Seq<EntryModel>) -> nat
    decreases s.len(),
{
    if s.len() == 0 {
        0
    } else {
        let head = entry_rank(m, r, s[0]);
        let rest = seq_rank(m, r, s.drop_first());
        if head > rest {
            head
        } else {
            rest
        }
    }
}

pub proof fn lemma_seq_rank_skip(m: TreeMap, r: Map<Seq<u8>, nat>, s: Seq<EntryModel>, i: int)
    requires
        0 <= i < s.len(),
    ensures
        seq_rank(m, r, s.skip(i + 1)) <= seq_rank(m, r, s.skip(i)),
        entry_rank(m, r, s[i]) <= seq_rank(m, r, s.skip(i)),
{
    assert(s.skip(i).drop_first() =~= s.skip(i + 1));
    assert(s.skip(i)[0] == s[i]);
}

pub proof fn lemma_seq_rank_le(m: TreeMap, r: Map<Seq<u8>, nat>, s: Seq<EntryModel>, bound: nat)
    requires
        forall|i: int| 0 <= i < s.len() ==> entry_rank(m, r, #[trigger] s[i]) <= bound,
    ensures
        seq_rank(m, r, s) <= bound,
    decreases s.len(),
{
    if s.len() > 0 {
        assert forall|i: int| 0 <= i < s.drop_first().len() implies entry_rank(
            m,
            r,
            #[trigger] s.drop_first()[i],
        ) <= bound by {
            assert(s.drop_first()[i] == s[i + 1]);
        }
        lemma_seq_rank_le(m, r, s.drop_first(), bound);
    }
}

/// A stored tree's walk never descends deeper than the tree's own rank.
pub proof fn lemma_subtree_rank(m: TreeMap, r: Map<Seq<u8>, nat>, o: Seq<u8>)
    requires
        rank_ok(m, r),
        m.dom().contains(o),
    ensures
        seq_rank(m, r, m[o]) <= r[o],
{
    assert forall|i: int| 0 <= i < m[o].len() implies entry_rank(m, r, #[trigger] m[o][i])
        <= r[o] by {
        if m[o][i].mode is Tree && m.dom().contains(m[o][i].oid) {
            assert(r[m[o][i].oid] < r[o]);
        }
    }
    lemma_seq_rank_le(m, r, m[o], r[o]);
}

/// What the engine asks of the forest behind a store: no reference cycles,
/// and every stored tree already sorted by the canonical entry order.
pub open spec fn store_ok(m: TreeMap) -> bool {
    acyclic(m) && forall|o: Seq<u8>| #[trigger] m.dom().contains(o) ==> tree_sorted(m[o])
}

/// The lookup capability the engine drives: a fallible map from content
/// hash to decoded tree. Absence is a normal outcome for the store itself;
/// the engine escalates it to an error only where a structural reference
/// inside a tree fails to resolve.
pub trait ObjectStore {
    /// The forest this store can decode.
    spec fn trees(&self) -> TreeMap;

    /// Fetch and decode the tree identified by `oid`: exactly the stored
    /// entries when the store holds the hash, nothing otherwise.
    fn find_tree(&self, oid: &ObjectId) -> (r: Option<Tree>)
        ensures
            r is Some <==> self.trees().dom().contains(oid@),
            r matches Some(t) ==> t@ == self.trees()[oid@],
    ;
}

/// Whether `o` identifies one of the stored trees; the first pair wins.
pub open spec fn lookup_has(objs: Seq<(ObjectId, Tree)>, o: Seq<u8>) -> bool
    decreases objs.len(),
{
    objs.len() > 0 && (objs[0].0@ == o || lookup_has(objs.drop_first(), o))
}

/// The entries stored under `o`; the first pair wins.
pub open spec fn lookup_entries(objs: Seq<(ObjectId, Tree)>, o: Seq<u8>) -> Seq<EntryModel>
    decreases objs.len(),
{
    if objs.len() == 0 {
        Seq::empty()
    } else if objs[0].0@ == o {
        objs[0].1@
    } else {
        lookup_entries(objs.drop_first(), o)
    }
}

/// An in-memory object store: a list of (hash, tree) pairs.
pub struct MemoryStore {
    pub objects: Vec<(ObjectId, Tree)>,
}

impl MemoryStore {
    fn find_from(&self, oid: &ObjectId, i: usize) -> (r: Option<Tree>)
        requires
            i <= self.objects.len(),
        ensures
            r is Some <==> lookup_has(self.objects@.skip(i as int), oid@),
            r matches Some(t) ==> t@ == lookup_entries(self.objects@.skip(i as int), oid@),
        decreases self.objects.len() - i,
    {
        proof {
            if i < self.objects.len() {
                assert(self.objects@.skip(i as int).drop_first() =~= self.objects@.skip(
                    i as int + 1,
                ));
            }
        }
        if i == self.objects.len() {
            None
        } else {
            let pair = &self.objects[i];
            if bytes_eq(&pair.0.bytes, &oid.bytes) {
                Some(pair.1.clone())
            } else {
                self.find_from(oid, i + 1)
            }
        }
    }
}

impl ObjectStore for MemoryStore {
    open spec fn trees(&self) -> TreeMap {
        Map::new(
            |o: Seq<u8>| lookup_has(self.objects@, o),
            |o: Seq<u8>| lookup_entries(self.objects@, o),
        )
    }

    fn find_tree(&self, oid: &ObjectId) -> (r: Option<Tree>) {
        proof {
            assert(self.objects@.skip(0) =~= self.objects@);
        }
        self.find_from(oid, 0)
    }
}

} // verus!
