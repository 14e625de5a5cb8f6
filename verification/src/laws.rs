//! The laws the diff engine obeys, proved of the run its contract speaks
//! about: identity, additivity from the empty tree and its mirror image,
//! ordering of modifications, and the shape of a type change.

use vstd::prelude::*;

use crate::changes::{
    addition_event, cancelled_at, deletion_event, diff_run, modification_event, path_event,
    run_agrees, takes_source, takes_target, DiffEnd, DiffRun, Error,
};
use crate::record::{bump, Action, ChangeModel, EventModel};
use crate::store::{
    acyclic, lemma_seq_rank_skip, lemma_subtree_rank, lemma_the_rank, seq_rank, the_rank, TreeMap,
};
use crate::tree::EntryModel;

verus! {

/// The change records inside a notification log, in order, with the path
/// mutations dropped.
pub open spec fn change_events(evs: Seq<EventModel>) -> Seq<ChangeModel>
    decreases evs.len(),
{
    if evs.len() == 0 {
        Seq::empty()
    } else {
        let rest = change_events(evs.drop_first());
        match evs[0] {
            EventModel::Change(c, _) => seq![c] + rest,
            EventModel::Path { .. } => rest,
        }
    }
}

/// Extracting changes distributes over concatenation of logs.
pub proof fn lemma_change_events_add(a: Seq<EventModel>, b: Seq<EventModel>)
    ensures
        change_events(a + b) == change_events(a) + change_events(b),
    decreases a.len(),
{
    if a.len() == 0 {
        assert(a + b =~= b);
        assert(change_events(a) + change_events(b) =~= change_events(b));
    } else {
        assert((a + b).drop_first() =~= a.drop_first() + b);
        lemma_change_events_add(a.drop_first(), b);
        assert((a + b)[0] == a[0]);
        match a[0] {
            EventModel::Change(c, _) => {
                assert(seq![c] + (change_events(a.drop_first()) + change_events(b)) =~= (seq![c]
                    + change_events(a.drop_first())) + change_events(b));
            },
            EventModel::Path { .. } => {},
        }
    }
}

/// A log of one path mutation and one change holds exactly that change.
proof fn lemma_change_events_pair(p: EventModel, c: ChangeModel, a: Action)
    requires
        p is Path,
    ensures
        change_events(seq![p, EventModel::Change(c, a)]) == seq![c],
{
    let s = seq![p, EventModel::Change(c, a)];
    let tail = seq![EventModel::Change(c, a)];
    assert(s.drop_first() =~= tail);
    assert(tail.drop_first() =~= Seq::<EventModel>::empty());
    assert(change_events(Seq::<EventModel>::empty()) =~= Seq::<ChangeModel>::empty());
    assert(tail[0] == EventModel::Change(c, a));
    assert(change_events(tail) =~= seq![c] + change_events(tail.drop_first()));
    assert(seq![c] + Seq::<ChangeModel>::empty() =~= seq![c]);
    assert(s[0] == p);
    assert(change_events(s) =~= change_events(s.drop_first()));
}

/// Every entry reachable from `s` through the forest `m`, depth first:
/// each entry, then — for a sub-tree the forest resolves — everything
/// reachable inside it, then the rest of the level.
pub open spec fn flatten(m: TreeMap, s: Seq<EntryModel>) -> Seq<EntryModel>
    decreases seq_rank(m, the_rank(m), s), s.len(),
        when acyclic(m)
{
    if s.len() == 0 {
        Seq::empty()
    } else {
        let sub = if s[0].mode is Tree && m.dom().contains(s[0].oid) {
            ({
                proof {
                    lemma_the_rank(m);
                    lemma_subtree_rank(m, the_rank(m), s[0].oid);
                    lemma_seq_rank_skip(m, the_rank(m), s, 0);
                    assert(s.skip(0) =~= s);
                }
                flatten(m, m[s[0].oid])
            })
        } else {
            Seq::empty()
        };
        seq![s[0]] + sub + flatten(m, s.drop_first())
    }
}

/// Every sub-tree reachable from `s` resolves in the forest `m`.
pub open spec fn closed(m: TreeMap, s: Seq<EntryModel>) -> bool
    decreases seq_rank(m, the_rank(m), s), s.len(),
        when acyclic(m)
{
    if s.len() == 0 {
        true
    } else {
        let head_ok = if s[0].mode is Tree {
            if m.dom().contains(s[0].oid) {
                ({
                    proof {
                        lemma_the_rank(m);
                        lemma_subtree_rank(m, the_rank(m), s[0].oid);
                        lemma_seq_rank_skip(m, the_rank(m), s, 0);
                        assert(s.skip(0) =~= s);
                    }
                    closed(m, m[s[0].oid])
                })
            } else {
                false
            }
        } else {
            true
        };
        head_ok && closed(m, s.drop_first())
    }
}

/// `c` reports the addition of the entry `e`.
pub open spec fn is_addition_of(c: ChangeModel, e: EntryModel) -> bool {
    c matches ChangeModel::Addition { entry_mode, oid, .. } && entry_mode == e.mode && oid == e.oid
}

/// `c` reports the deletion of the entry `e`.
pub open spec fn is_deletion_of(c: ChangeModel, e: EntryModel) -> bool {
    c matches ChangeModel::Deletion { entry_mode, oid, .. } && entry_mode == e.mode && oid == e.oid
}

/// The changes `cs` are exactly one addition per entry of `flat`, in order.
pub open spec fn all_additions_of(cs: Seq<ChangeModel>, flat: Seq<EntryModel>) -> bool {
    cs.len() == flat.len() && forall|i: int|
        0 <= i < cs.len() ==> is_addition_of(#[trigger] cs[i], flat[i])
}

/// The changes `cs` are exactly one deletion per entry of `flat`, in order.
pub open spec fn all_deletions_of(cs: Seq<ChangeModel>, flat: Seq<EntryModel>) -> bool {
    cs.len() == flat.len() && forall|i: int|
        0 <= i < cs.len() ==> is_deletion_of(#[trigger] cs[i], flat[i])
}

proof fn lemma_all_additions_concat(
    c0: ChangeModel,
    e0: EntryModel,
    cs1: Seq<ChangeModel>,
    f1: Seq<EntryModel>,
    cs2: Seq<ChangeModel>,
    f2: Seq<EntryModel>,
)
    requires
        is_addition_of(c0, e0),
        all_additions_of(cs1, f1),
        all_additions_of(cs2, f2),
    ensures
        all_additions_of(seq![c0] + cs1 + cs2, seq![e0] + f1 + f2),
{
    let cs = seq![c0] + cs1 + cs2;
    let fs = seq![e0] + f1 + f2;
    assert forall|i: int| 0 <= i < cs.len() implies is_addition_of(#[trigger] cs[i], fs[i]) by {
        if i == 0 {
            assert(cs[0] == c0);
            assert(fs[0] == e0);
        } else if i < 1 + cs1.len() {
            assert(cs[i] == cs1[i - 1]);
            assert(fs[i] == f1[i - 1]);
        } else {
            assert(cs[i] == cs2[i - 1 - cs1.len()]);
            assert(fs[i] == f2[i - 1 - f1.len()]);
        }
    }
}

proof fn lemma_all_deletions_concat(
    c0: ChangeModel,
    e0: EntryModel,
    cs1: Seq<ChangeModel>,
    f1: Seq<EntryModel>,
    cs2: Seq<ChangeModel>,
    f2: Seq<EntryModel>,
)
    requires
        is_deletion_of(c0, e0),
        all_deletions_of(cs1, f1),
        all_deletions_of(cs2, f2),
    ensures
        all_deletions_of(seq![c0] + cs1 + cs2, seq![e0] + f1 + f2),
{
    let cs = seq![c0] + cs1 + cs2;
    let fs = seq![e0] + f1 + f2;
    assert forall|i: int| 0 <= i < cs.len() implies is_deletion_of(#[trigger] cs[i], fs[i]) by {
        if i == 0 {
            assert(cs[0] == c0);
            assert(fs[0] == e0);
        } else if i < 1 + cs1.len() {
            assert(cs[i] == cs1[i - 1]);
            assert(fs[i] == f1[i - 1]);
        } else {
            assert(cs[i] == cs2[i - 1 - cs1.len()]);
            assert(fs[i] == f2[i - 1 - f1.len()]);
        }
    }
}

/// Additivity from empty: diffing the empty tree against `t` completes
/// and emits exactly one addition per entry of the recursive flattening
/// of `t`, in flattening order — no deletion, no modification.
pub proof fn lemma_additive_from_empty(m: TreeMap, t: Seq<EntryModel>, id: u64)
    requires
        acyclic(m),
        closed(m, t),
    ensures
        diff_run(m, Seq::empty(), t, id).end is Completed,
        all_additions_of(change_events(diff_run(m, Seq::empty(), t, id).events), flatten(m, t)),
    decreases seq_rank(m, the_rank(m), t), t.len(),
{
    let run = diff_run(m, Seq::empty(), t, id);
    let none = Seq::<EntryModel>::empty();
    if t.len() == 0 {
        assert(change_events(run.events) =~= Seq::<ChangeModel>::empty());
        assert(flatten(m, t) =~= Seq::<EntryModel>::empty());
    } else {
        assert(!takes_source(none, t));
        assert(takes_target(none, t));
        let e = t[0];
        let c0 = ChangeModel::Addition { entry_mode: e.mode, oid: e.oid, path_id: id };
        let head = seq![path_event(e, id), addition_event(e, id)];
        let id1 = bump(id);
        lemma_change_events_pair(path_event(e, id), c0, Action::Continue);
        lemma_the_rank(m);
        lemma_seq_rank_skip(m, the_rank(m), t, 0);
        assert(t.skip(0) =~= t);
        if e.mode is Tree {
            assert(m.dom().contains(e.oid));
            lemma_subtree_rank(m, the_rank(m), e.oid);
            let sub = diff_run(m, none, m[e.oid], id1);
            lemma_additive_from_empty(m, m[e.oid], id1);
            let rest = diff_run(m, none, t.drop_first(), sub.next_id);
            lemma_additive_from_empty(m, t.drop_first(), sub.next_id);
            assert(run.events == head + sub.events + rest.events);
            lemma_change_events_add(head + sub.events, rest.events);
            lemma_change_events_add(head, sub.events);
            assert(change_events(run.events) =~= seq![c0] + change_events(sub.events)
                + change_events(rest.events));
            assert(flatten(m, t) == seq![e] + flatten(m, m[e.oid]) + flatten(m, t.drop_first()));
            lemma_all_additions_concat(
                c0,
                e,
                change_events(sub.events),
                flatten(m, m[e.oid]),
                change_events(rest.events),
                flatten(m, t.drop_first()),
            );
        } else {
            let rest = diff_run(m, none, t.drop_first(), id1);
            lemma_additive_from_empty(m, t.drop_first(), id1);
            assert(run.events == head + rest.events);
            lemma_change_events_add(head, rest.events);
            assert(change_events(run.events) =~= seq![c0] + Seq::<ChangeModel>::empty()
                + change_events(rest.events));
            assert(flatten(m, t) == seq![e] + Seq::<EntryModel>::empty() + flatten(
                m,
                t.drop_first(),
            ));
            lemma_all_additions_concat(
                c0,
                e,
                Seq::empty(),
                Seq::empty(),
                change_events(rest.events),
                flatten(m, t.drop_first()),
            );
        }
    }
}

/// Symmetry of kind: diffing `t` against the empty tree completes and
/// emits exactly one deletion per entry of the recursive flattening of
/// `t`, in flattening order, mirroring the additive case.
pub proof fn lemma_deletions_to_empty(m: TreeMap, t: Seq<EntryModel>, id: u64)
    requires
        acyclic(m),
        closed(m, t),
    ensures
        diff_run(m, t, Seq::empty(), id).end is Completed,
        all_deletions_of(change_events(diff_run(m, t, Seq::empty(), id).events), flatten(m, t)),
    decreases seq_rank(m, the_rank(m), t), t.len(),
{
    let run = diff_run(m, t, Seq::empty(), id);
    let none = Seq::<EntryModel>::empty();
    if t.len() == 0 {
        assert(change_events(run.events) =~= Seq::<ChangeModel>::empty());
        assert(flatten(m, t) =~= Seq::<EntryModel>::empty());
    } else {
        assert(takes_source(t, none));
        let e = t[0];
        let c0 = ChangeModel::Deletion { entry_mode: e.mode, oid: e.oid, path_id: id };
        let head = seq![path_event(e, id), deletion_event(e, id)];
        let id1 = bump(id);
        lemma_change_events_pair(path_event(e, id), c0, Action::Continue);
        lemma_the_rank(m);
        lemma_seq_rank_skip(m, the_rank(m), t, 0);
        assert(t.skip(0) =~= t);
        if e.mode is Tree {
            assert(m.dom().contains(e.oid));
            lemma_subtree_rank(m, the_rank(m), e.oid);
            let sub = diff_run(m, m[e.oid], none, id1);
            lemma_deletions_to_empty(m, m[e.oid], id1);
            let rest = diff_run(m, t.drop_first(), none, sub.next_id);
            lemma_deletions_to_empty(m, t.drop_first(), sub.next_id);
            assert(run.events == head + sub.events + rest.events);
            lemma_change_events_add(head + sub.events, rest.events);
            lemma_change_events_add(head, sub.events);
            assert(change_events(run.events) =~= seq![c0] + change_events(sub.events)
                + change_events(rest.events));
            assert(flatten(m, t) == seq![e] + flatten(m, m[e.oid]) + flatten(m, t.drop_first()));
            lemma_all_deletions_concat(
                c0,
                e,
                change_events(sub.events),
                flatten(m, m[e.oid]),
                change_events(rest.events),
                flatten(m, t.drop_first()),
            );
        } else {
            let rest = diff_run(m, t.drop_first(), none, id1);
            lemma_deletions_to_empty(m, t.drop_first(), id1);
            assert(run.events == head + rest.events);
            lemma_change_events_add(head, rest.events);
            assert(change_events(run.events) =~= seq![c0] + Seq::<ChangeModel>::empty()
                + change_events(rest.events));
            assert(flatten(m, t) == seq![e] + Seq::<EntryModel>::empty() + flatten(
                m,
                t.drop_first(),
            ));
            lemma_all_deletions_concat(
                c0,
                e,
                Seq::empty(),
                Seq::empty(),
                change_events(rest.events),
                flatten(m, t.drop_first()),
            );
        }
    }
}

/// `c` reports the modification turning `l` into `r`.
pub open spec fn is_modification_of(c: ChangeModel, l: EntryModel, r: EntryModel) -> bool {
    c matches ChangeModel::Modification {
        previous_entry_mode,
        previous_oid,
        entry_mode,
        oid,
        ..
    } && previous_entry_mode == l.mode && previous_oid == l.oid && entry_mode == r.mode && oid
        == r.oid
}

/// The positions where two same-length levels disagree, as (source,
/// target) pairs, in order.
pub open spec fn expected_mods(lhs: Seq<EntryModel>, rhs: Seq<EntryModel>) -> Seq<
    (EntryModel, EntryModel),
>
    decreases lhs.len(),
{
    if lhs.len() == 0 || rhs.len() == 0 {
        Seq::empty()
    } else {
        let rest = expected_mods(lhs.drop_first(), rhs.drop_first());
        if lhs[0] != rhs[0] {
            seq![(lhs[0], rhs[0])] + rest
        } else {
            rest
        }
    }
}

/// The changes `cs` are exactly one modification per pair of `pairs`, in
/// order.
pub open spec fn all_modifications_of(
    cs: Seq<ChangeModel>,
    pairs: Seq<(EntryModel, EntryModel)>,
) -> bool {
    cs.len() == pairs.len() && forall|i: int|
        0 <= i < cs.len() ==> is_modification_of(#[trigger] cs[i], pairs[i].0, pairs[i].1)
}

proof fn lemma_all_modifications_cons(
    c0: ChangeModel,
    p0: (EntryModel, EntryModel),
    cs2: Seq<ChangeModel>,
    pairs2: Seq<(EntryModel, EntryModel)>,
)
    requires
        is_modification_of(c0, p0.0, p0.1),
        all_modifications_of(cs2, pairs2),
    ensures
        all_modifications_of(seq![c0] + cs2, seq![p0] + pairs2),
{
    let cs = seq![c0] + cs2;
    let ps = seq![p0] + pairs2;
    assert forall|i: int| 0 <= i < cs.len() implies is_modification_of(
        #[trigger] cs[i],
        ps[i].0,
        ps[i].1,
    ) by {
        if i == 0 {
            assert(cs[0] == c0);
            assert(ps[0] == p0);
        } else {
            assert(cs[i] == cs2[i - 1]);
            assert(ps[i] == pairs2[i - 1]);
        }
    }
}

/// Ordering independence of output grouping: where two same-length levels
/// carry the same names position by position and disagree only at plain,
/// non-tree entries, the diff completes and emits exactly one modification
/// per disagreeing position, in position order — however many unchanged
/// entries lie between them.
pub proof fn lemma_matched_modifications(
    m: TreeMap,
    lhs: Seq<EntryModel>,
    rhs: Seq<EntryModel>,
    id: u64,
)
    requires
        acyclic(m),
        lhs.len() == rhs.len(),
        forall|i: int| 0 <= i < lhs.len() ==> (#[trigger] lhs[i]).name == rhs[i].name,
        forall|i: int|
            0 <= i < lhs.len() ==> ((#[trigger] lhs[i]) != rhs[i] ==> !(lhs[i].mode is Tree) && !(
            rhs[i].mode is Tree)),
    ensures
        diff_run(m, lhs, rhs, id).end is Completed,
        all_modifications_of(
            change_events(diff_run(m, lhs, rhs, id).events),
            expected_mods(lhs, rhs),
        ),
    decreases lhs.len(),
{
    let run = diff_run(m, lhs, rhs, id);
    if lhs.len() == 0 {
        assert(change_events(run.events) =~= Seq::<ChangeModel>::empty());
    } else {
        let l = lhs[0];
        let r = rhs[0];
        assert(l.name == r.name);
        assert(!takes_source(lhs, rhs));
        assert(!takes_target(lhs, rhs));
        assert forall|i: int| 0 <= i < lhs.drop_first().len() implies (#[trigger] lhs.drop_first()[i]).name
            == rhs.drop_first()[i].name by {
            assert(lhs.drop_first()[i] == lhs[i + 1]);
            assert(rhs.drop_first()[i] == rhs[i + 1]);
        }
        assert forall|i: int| 0 <= i < lhs.drop_first().len() implies ((
        #[trigger] lhs.drop_first()[i]) != rhs.drop_first()[i] ==> !(lhs.drop_first()[i].mode
            is Tree) && !(rhs.drop_first()[i].mode is Tree)) by {
            assert(lhs.drop_first()[i] == lhs[i + 1]);
            assert(rhs.drop_first()[i] == rhs[i + 1]);
        }
        // none of the sub-tree arms can fire: a disagreeing position is
        // non-tree on both sides, an agreeing one has equal hashes
        if l.mode is Tree && r.mode is Tree && l.oid != r.oid {
            assert(l != r);
            assert(false);
        }
        if !(l.mode is Tree) && r.mode is Tree {
            assert(l != r);
            assert(false);
        }
        if l.mode is Tree && !(r.mode is Tree) {
            assert(l != r);
            assert(false);
        }
        let changed = l.oid != r.oid || l.mode != r.mode;
        let id1 = if changed {
            bump(id)
        } else {
            id
        };
        let rest = diff_run(m, lhs.drop_first(), rhs.drop_first(), id1);
        lemma_matched_modifications(m, lhs.drop_first(), rhs.drop_first(), id1);
        if changed {
            assert(l != r);
            let c0 = ChangeModel::Modification {
                previous_entry_mode: l.mode,
                previous_oid: l.oid,
                entry_mode: r.mode,
                oid: r.oid,
                path_id: id,
            };
            let head = seq![path_event(l, id), modification_event(l, r, id)];
            lemma_change_events_pair(path_event(l, id), c0, Action::Continue);
            assert(run.events == head + rest.events);
            lemma_change_events_add(head, rest.events);
            assert(change_events(run.events) =~= seq![c0] + change_events(rest.events));
            assert(expected_mods(lhs, rhs) == seq![(l, r)] + expected_mods(
                lhs.drop_first(),
                rhs.drop_first(),
            ));
            lemma_all_modifications_cons(
                c0,
                (l, r),
                change_events(rest.events),
                expected_mods(lhs.drop_first(), rhs.drop_first()),
            );
        } else {
            assert(l =~= r);
            assert(run.events == Seq::<EventModel>::empty() + rest.events);
            assert(run.events =~= rest.events);
            assert(expected_mods(lhs, rhs) == expected_mods(lhs.drop_first(), rhs.drop_first()));
        }
    }
}

/// Type-change path: where one name is a plain entry in the source and a
/// sub-tree in the target, the walk completes and emits the deletion of
/// the old entry followed by exactly one addition per flattened entry of
/// the new sub-tree — and never a modification.
pub proof fn lemma_type_change(m: TreeMap, l: EntryModel, r: EntryModel, id: u64)
    requires
        acyclic(m),
        l.name == r.name,
        !(l.mode is Tree),
        r.mode is Tree,
        m.dom().contains(r.oid),
        closed(m, m[r.oid]),
    ensures
        diff_run(m, seq![l], seq![r], id).end is Completed,
        change_events(diff_run(m, seq![l], seq![r], id).events).len() == 1 + flatten(
            m,
            m[r.oid],
        ).len(),
        is_deletion_of(change_events(diff_run(m, seq![l], seq![r], id).events)[0], l),
        all_additions_of(
            change_events(diff_run(m, seq![l], seq![r], id).events).drop_first(),
            flatten(m, m[r.oid]),
        ),
{
    let lhs = seq![l];
    let rhs = seq![r];
    let run = diff_run(m, lhs, rhs, id);
    assert(lhs[0] == l && rhs[0] == r);
    assert(!takes_source(lhs, rhs));
    assert(!takes_target(lhs, rhs));
    let c0 = ChangeModel::Deletion { entry_mode: l.mode, oid: l.oid, path_id: id };
    let head = seq![path_event(l, id), deletion_event(l, id)];
    lemma_change_events_pair(path_event(l, id), c0, Action::Continue);
    let id1 = bump(id);
    let sub = diff_run(m, Seq::empty(), m[r.oid], id1);
    lemma_additive_from_empty(m, m[r.oid], id1);
    let rest = diff_run(m, lhs.drop_first(), rhs.drop_first(), sub.next_id);
    assert(lhs.drop_first() =~= Seq::<EntryModel>::empty());
    assert(rhs.drop_first() =~= Seq::<EntryModel>::empty());
    assert(rest.events == Seq::<EventModel>::empty() && rest.end is Completed);
    assert(run.events == head + sub.events + rest.events);
    assert(run.events =~= head + sub.events);
    lemma_change_events_add(head, sub.events);
    assert(change_events(run.events) =~= seq![c0] + change_events(sub.events));
    let cs = change_events(run.events);
    assert(cs[0] == c0);
    assert(cs.drop_first() =~= change_events(sub.events));
}

/// The number of path-component mutations in a log.
pub open spec fn path_count(evs: Seq<EventModel>) -> nat
    decreases evs.len(),
{
    if evs.len() == 0 {
        0
    } else {
        (if evs[0] is Path {
            1nat
        } else {
            0nat
        }) + path_count(evs.drop_first())
    }
}

proof fn lemma_path_count_add(a: Seq<EventModel>, b: Seq<EventModel>)
    ensures
        path_count(a + b) == path_count(a) + path_count(b),
    decreases a.len(),
{
    if a.len() == 0 {
        assert(a + b =~= b);
    } else {
        assert((a + b).drop_first() =~= a.drop_first() + b);
        lemma_path_count_add(a.drop_first(), b);
        assert((a + b)[0] == a[0]);
    }
}

/// The path mutations in `evs` carry the identities `id`, `id + 1`, ... in
/// order: each one is fresh, none is ever reused.
pub open spec fn ids_fresh_from(evs: Seq<EventModel>, id: u64) -> bool
    decreases evs.len(),
{
    if evs.len() == 0 {
        true
    } else {
        match evs[0] {
            EventModel::Path { id: pid, .. } => pid == id && id < u64::MAX && ids_fresh_from(
                evs.drop_first(),
                (id + 1) as u64,
            ),
            EventModel::Change(..) => ids_fresh_from(evs.drop_first(), id),
        }
    }
}

proof fn lemma_ids_fresh_concat(a: Seq<EventModel>, b: Seq<EventModel>, id: u64)
    requires
        ids_fresh_from(a, id),
        id + path_count(a) <= u64::MAX,
        ids_fresh_from(b, (id + path_count(a)) as u64),
    ensures
        ids_fresh_from(a + b, id),
    decreases a.len(),
{
    if a.len() == 0 {
        assert(a + b =~= b);
    } else {
        assert((a + b).drop_first() =~= a.drop_first() + b);
        assert((a + b)[0] == a[0]);
        match a[0] {
            EventModel::Path { .. } => {
                lemma_ids_fresh_concat(a.drop_first(), b, (id + 1) as u64);
            },
            EventModel::Change(..) => {
                lemma_ids_fresh_concat(a.drop_first(), b, id);
            },
        }
    }
}

proof fn lemma_path_count_pair(p: EventModel, c: EventModel)
    requires
        p is Path,
        c is Change,
    ensures
        path_count(seq![p, c]) == 1,
{
    let s = seq![p, c];
    let t = seq![c];
    assert(s.drop_first() =~= t);
    assert(t.drop_first() =~= Seq::<EventModel>::empty());
    assert(path_count(Seq::<EventModel>::empty()) == 0);
    assert(path_count(t) == 0);
}

proof fn lemma_ids_fresh_pair(name: Seq<u8>, c: EventModel, id: u64)
    requires
        c is Change,
        id < u64::MAX,
    ensures
        ids_fresh_from(seq![EventModel::Path { name, id }, c], id),
{
    let p = EventModel::Path { name, id };
    let s = seq![p, c];
    let t = seq![c];
    assert(s.drop_first() =~= t);
    assert(t.drop_first() =~= Seq::<EventModel>::empty());
    assert(ids_fresh_from(Seq::<EventModel>::empty(), (id + 1) as u64));
    assert(ids_fresh_from(t, (id + 1) as u64));
}

/// Fresh identities: as long as the counter has room, the walk hands out
/// ascending identities, exactly one per path-component mutation — an
/// identity is never reused within a call — and the counter ends at its
/// start plus the number of mutations.
pub proof fn lemma_identities_fresh(m: TreeMap, lhs: Seq<EntryModel>, rhs: Seq<EntryModel>, id: u64)
    requires
        acyclic(m),
        id + path_count(diff_run(m, lhs, rhs, id).events) <= u64::MAX,
    ensures
        ids_fresh_from(diff_run(m, lhs, rhs, id).events, id),
        diff_run(m, lhs, rhs, id).next_id == id + path_count(diff_run(m, lhs, rhs, id).events),
    decreases seq_rank(m, the_rank(m), lhs) + seq_rank(m, the_rank(m), rhs), lhs.len() + rhs.len(),
{
    let none = Seq::<EntryModel>::empty();
    let run = diff_run(m, lhs, rhs, id);
    lemma_the_rank(m);
    if lhs.len() == 0 && rhs.len() == 0 {
    } else if takes_source(lhs, rhs) || takes_target(lhs, rhs) {
        let e = if takes_source(lhs, rhs) {
            lhs[0]
        } else {
            rhs[0]
        };
        let ev = if takes_source(lhs, rhs) {
            deletion_event(e, id)
        } else {
            addition_event(e, id)
        };
        let head = seq![path_event(e, id), ev];
        lemma_path_count_pair(path_event(e, id), ev);
        if takes_source(lhs, rhs) {
            lemma_seq_rank_skip(m, the_rank(m), lhs, 0);
            assert(lhs.skip(0) =~= lhs);
        } else {
            lemma_seq_rank_skip(m, the_rank(m), rhs, 0);
            assert(rhs.skip(0) =~= rhs);
        }
        if e.mode is Tree && !m.dom().contains(e.oid) {
            assert(run.events == head);
            assert(id < u64::MAX);
            lemma_ids_fresh_pair(e.name, ev, id);
        } else {
            let id1 = bump(id);
            let sub = if e.mode is Tree {
                if takes_source(lhs, rhs) {
                    diff_run(m, m[e.oid], none, id1)
                } else {
                    diff_run(m, none, m[e.oid], id1)
                }
            } else {
                DiffRun { events: Seq::empty(), next_id: id1, end: DiffEnd::Completed }
            };
            let rest = if takes_source(lhs, rhs) {
                diff_run(m, lhs.drop_first(), rhs, sub.next_id)
            } else {
                diff_run(m, lhs, rhs.drop_first(), sub.next_id)
            };
            if e.mode is Tree {
                if sub.end is Missing {
                    assert(run.events == head + sub.events && run.next_id == sub.next_id);
                } else {
                    assert(run.events == head + sub.events + rest.events && run.next_id
                        == rest.next_id);
                }
            } else {
                assert(run.events == head + sub.events + rest.events && run.next_id
                    == rest.next_id) by {
                    assert(head + Seq::<EventModel>::empty() + rest.events =~= head + rest.events);
                }
            }
            if e.mode is Tree {
                lemma_subtree_rank(m, the_rank(m), e.oid);
                lemma_path_count_add(head, sub.events);
                if sub.end is Missing {
                    assert(path_count(run.events) == 1 + path_count(sub.events));
                } else {
                    lemma_path_count_add(head + sub.events, rest.events);
                    assert(path_count(run.events) == 1 + path_count(sub.events) + path_count(
                        rest.events,
                    ));
                }
                if takes_source(lhs, rhs) {
                    lemma_identities_fresh(m, m[e.oid], none, id1);
                } else {
                    lemma_identities_fresh(m, none, m[e.oid], id1);
                }
                assert(id < u64::MAX);
                lemma_ids_fresh_pair(e.name, ev, id);
                if !(sub.end is Missing) {
                    if takes_source(lhs, rhs) {
                        lemma_identities_fresh(m, lhs.drop_first(), rhs, sub.next_id);
                    } else {
                        lemma_identities_fresh(m, lhs, rhs.drop_first(), sub.next_id);
                    }
                    lemma_ids_fresh_concat(sub.events, rest.events, id1);
                    lemma_ids_fresh_concat(head, sub.events + rest.events, id);
                    assert(head + (sub.events + rest.events) =~= head + sub.events + rest.events);
                } else {
                    lemma_ids_fresh_concat(head, sub.events, id);
                }
            } else {
                lemma_path_count_add(head, rest.events);
                assert(head + rest.events =~= head + sub.events + rest.events);
                assert(path_count(run.events) == 1 + path_count(rest.events));
                assert(id < u64::MAX);
                lemma_ids_fresh_pair(e.name, ev, id);
                if takes_source(lhs, rhs) {
                    lemma_identities_fresh(m, lhs.drop_first(), rhs, id1);
                } else {
                    lemma_identities_fresh(m, lhs, rhs.drop_first(), id1);
                }
                lemma_ids_fresh_concat(head, rest.events, id);
            }
        }
    } else {
        let l = lhs[0];
        let r = rhs[0];
        let changed = l.oid != r.oid || l.mode != r.mode;
        let kind_changed = (l.mode is Tree) != (r.mode is Tree);
        let ev = if kind_changed {
            deletion_event(l, id)
        } else {
            modification_event(l, r, id)
        };
        let head = if changed {
            seq![path_event(l, id), ev]
        } else {
            Seq::<EventModel>::empty()
        };
        let id1 = if changed {
            bump(id)
        } else {
            id
        };
        if changed {
            lemma_path_count_pair(path_event(l, id), ev);
        } else {
            assert(path_count(head) == 0);
        }
        lemma_seq_rank_skip(m, the_rank(m), lhs, 0);
        lemma_seq_rank_skip(m, the_rank(m), rhs, 0);
        assert(lhs.skip(0) =~= lhs);
        assert(rhs.skip(0) =~= rhs);
        let arm_tt = l.mode is Tree && r.mode is Tree && l.oid != r.oid;
        let arm_nt = !(l.mode is Tree) && r.mode is Tree;
        let arm_tn = l.mode is Tree && !(r.mode is Tree);
        let missing_lookup = (arm_tt && (!m.dom().contains(l.oid) || !m.dom().contains(r.oid)))
            || (arm_nt && !m.dom().contains(r.oid)) || (arm_tn && !m.dom().contains(l.oid));
        if missing_lookup {
            assert(changed);
            assert(run.events == head && run.next_id == id1);
            assert(id < u64::MAX);
            lemma_ids_fresh_pair(l.name, ev, id);
        } else {
            let sub = if arm_tt {
                diff_run(m, m[l.oid], m[r.oid], id1)
            } else if arm_nt {
                diff_run(m, none, m[r.oid], id1)
            } else if arm_tn {
                diff_run(m, m[l.oid], none, id1)
            } else {
                DiffRun { events: Seq::empty(), next_id: id1, end: DiffEnd::Completed }
            };
            let rest = diff_run(m, lhs.drop_first(), rhs.drop_first(), sub.next_id);
            if sub.end is Missing {
                assert(run.events == head + sub.events && run.next_id == sub.next_id);
            } else {
                assert(run.events == head + sub.events + rest.events && run.next_id
                    == rest.next_id);
            }
            lemma_path_count_add(head, sub.events);
            if sub.end is Missing {
                assert(path_count(run.events) == path_count(head) + path_count(sub.events));
            } else {
                lemma_path_count_add(head + sub.events, rest.events);
                assert(path_count(run.events) == path_count(head) + path_count(sub.events)
                    + path_count(rest.events));
            }
            if arm_tt {
                lemma_subtree_rank(m, the_rank(m), l.oid);
                lemma_subtree_rank(m, the_rank(m), r.oid);
                lemma_identities_fresh(m, m[l.oid], m[r.oid], id1);
            } else if arm_nt {
                lemma_subtree_rank(m, the_rank(m), r.oid);
                lemma_identities_fresh(m, none, m[r.oid], id1);
            } else if arm_tn {
                lemma_subtree_rank(m, the_rank(m), l.oid);
                lemma_identities_fresh(m, m[l.oid], none, id1);
            }
            if changed {
                assert(id < u64::MAX);
                lemma_ids_fresh_pair(l.name, ev, id);
            } else {
                assert(ids_fresh_from(head, id));
            }
            if !(sub.end is Missing) {
                lemma_identities_fresh(m, lhs.drop_first(), rhs.drop_first(), sub.next_id);
                lemma_ids_fresh_concat(sub.events, rest.events, id1);
                lemma_ids_fresh_concat(head, sub.events + rest.events, id);
                assert(head + (sub.events + rest.events) =~= head + sub.events + rest.events);
            } else {
                lemma_ids_fresh_concat(head, sub.events, id);
            }
        }
    }
}

/// Completion: when every sub-tree reachable from either side resolves in
/// the forest, the walk runs to the end of both levels — the lookup error
/// arises exactly on forests with an unresolved reachable reference.
pub proof fn lemma_closed_completes(m: TreeMap, lhs: Seq<EntryModel>, rhs: Seq<EntryModel>, id: u64)
    requires
        acyclic(m),
        closed(m, lhs),
        closed(m, rhs),
    ensures
        diff_run(m, lhs, rhs, id).end is Completed,
    decreases seq_rank(m, the_rank(m), lhs) + seq_rank(m, the_rank(m), rhs), lhs.len() + rhs.len(),
{
    let none = Seq::<EntryModel>::empty();
    lemma_the_rank(m);
    if lhs.len() == 0 && rhs.len() == 0 {
    } else if takes_source(lhs, rhs) {
        let e = lhs[0];
        let id1 = bump(id);
        lemma_seq_rank_skip(m, the_rank(m), lhs, 0);
        assert(lhs.skip(0) =~= lhs);
        if e.mode is Tree {
            assert(m.dom().contains(e.oid));
            lemma_subtree_rank(m, the_rank(m), e.oid);
            lemma_closed_completes(m, m[e.oid], none, id1);
            let sub = diff_run(m, m[e.oid], none, id1);
            lemma_closed_completes(m, lhs.drop_first(), rhs, sub.next_id);
        } else {
            lemma_closed_completes(m, lhs.drop_first(), rhs, id1);
        }
    } else if takes_target(lhs, rhs) {
        let e = rhs[0];
        let id1 = bump(id);
        lemma_seq_rank_skip(m, the_rank(m), rhs, 0);
        assert(rhs.skip(0) =~= rhs);
        if e.mode is Tree {
            assert(m.dom().contains(e.oid));
            lemma_subtree_rank(m, the_rank(m), e.oid);
            lemma_closed_completes(m, none, m[e.oid], id1);
            let sub = diff_run(m, none, m[e.oid], id1);
            lemma_closed_completes(m, lhs, rhs.drop_first(), sub.next_id);
        } else {
            lemma_closed_completes(m, lhs, rhs.drop_first(), id1);
        }
    } else {
        let l = lhs[0];
        let r = rhs[0];
        let changed = l.oid != r.oid || l.mode != r.mode;
        let id1 = if changed {
            bump(id)
        } else {
            id
        };
        lemma_seq_rank_skip(m, the_rank(m), lhs, 0);
        lemma_seq_rank_skip(m, the_rank(m), rhs, 0);
        assert(lhs.skip(0) =~= lhs);
        assert(rhs.skip(0) =~= rhs);
        if l.mode is Tree && r.mode is Tree && l.oid != r.oid {
            assert(m.dom().contains(l.oid));
            assert(m.dom().contains(r.oid));
            lemma_subtree_rank(m, the_rank(m), l.oid);
            lemma_subtree_rank(m, the_rank(m), r.oid);
            lemma_closed_completes(m, m[l.oid], m[r.oid], id1);
            let sub = diff_run(m, m[l.oid], m[r.oid], id1);
            lemma_closed_completes(m, lhs.drop_first(), rhs.drop_first(), sub.next_id);
        } else if !(l.mode is Tree) && r.mode is Tree {
            assert(m.dom().contains(r.oid));
            lemma_subtree_rank(m, the_rank(m), r.oid);
            lemma_closed_completes(m, none, m[r.oid], id1);
            let sub = diff_run(m, none, m[r.oid], id1);
            lemma_closed_completes(m, lhs.drop_first(), rhs.drop_first(), sub.next_id);
        } else if l.mode is Tree && !(r.mode is Tree) {
            assert(m.dom().contains(l.oid));
            lemma_subtree_rank(m, the_rank(m), l.oid);
            lemma_closed_completes(m, m[l.oid], none, id1);
            let sub = diff_run(m, m[l.oid], none, id1);
            lemma_closed_completes(m, lhs.drop_first(), rhs.drop_first(), sub.next_id);
        } else {
            lemma_closed_completes(m, lhs.drop_first(), rhs.drop_first(), id1);
        }
    }
}

/// Completion at the call boundary: a call on a forest where every
/// reachable sub-tree resolves never reports a missing object.
pub proof fn lemma_closed_call_never_fails_lookup(
    m: TreeMap,
    lhs: Seq<EntryModel>,
    rhs: Seq<EntryModel>,
    id: u64,
    pre: Seq<EventModel>,
    post: Seq<EventModel>,
    res: Result<(), Error>,
)
    requires
        acyclic(m),
        closed(m, lhs),
        closed(m, rhs),
        run_agrees(diff_run(m, lhs, rhs, id), pre, post, res),
    ensures
        !(res matches Err(Error::NotFound(_))),
{
    lemma_closed_completes(m, lhs, rhs, id);
}

/// Identity: diffing any tree against itself — the same entries, so the
/// same content hash at every level — emits nothing at all, completes, and
/// never touches the identity counter.
pub proof fn lemma_identity_no_events(m: TreeMap, t: Seq<EntryModel>, id: u64)
    requires
        acyclic(m),
    ensures
        diff_run(m, t, t, id).events == Seq::<EventModel>::empty(),
        diff_run(m, t, t, id).end is Completed,
        diff_run(m, t, t, id).next_id == id,
    decreases t.len(),
{
    if t.len() == 0 {
    } else {
        assert(!takes_source(t, t));
        assert(!takes_target(t, t));
        lemma_identity_no_events(m, t.drop_first(), id);
        assert(diff_run(m, t, t, id).events =~= Seq::<EventModel>::empty());
    }
}

/// Identity at the call boundary: any call whose contract ties it to the
/// run of a tree against itself returned `Ok` and told the observer
/// nothing.
pub proof fn lemma_identity_call(
    m: TreeMap,
    t: Seq<EntryModel>,
    id: u64,
    pre: Seq<EventModel>,
    post: Seq<EventModel>,
    res: Result<(), Error>,
)
    requires
        acyclic(m),
        run_agrees(diff_run(m, t, t, id), pre, post, res),
    ensures
        res is Ok,
        post == pre,
{
    lemma_identity_no_events(m, t, id);
    let run = diff_run(m, t, t, id);
    match res {
        Ok(()) => {
            assert(pre + run.events =~= pre);
        },
        Err(Error::Cancelled) => {
            let k = choose|k: int| cancelled_at(run.events, pre, post, k);
            assert(false);
        },
        Err(Error::NotFound(o)) => {
            assert(false);
        },
    }
}

} // verus!
