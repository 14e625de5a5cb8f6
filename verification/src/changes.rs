//! The diff engine: a merge-join walk of two sorted trees that reports
//! additions, deletions and modifications through an observer, recursing
//! into sub-trees fetched from an object store.

use vstd::prelude::*;

use crate::hash::{bytes_eq, ObjectId};
use crate::record::{
    bump, Action, Change, ChangeModel, EventModel, PathComponent, PathComponentUpdateMode, Record,
};
use crate::store::{
    acyclic, lemma_seq_rank_skip, lemma_subtree_rank, lemma_the_rank, seq_rank, store_ok,
    the_rank, ObjectStore, TreeMap,
};
use crate::tree::{
    entries_model, entry_lt, entry_sorts_before, tree_sorted, EntryModel, Tree, TreeEntry,
};

verus! {

/// Why a diff call failed.
#[derive(Debug, Clone, PartialEq, Eq)]
pub enum Error {
    /// A sub-tree referenced for recursion is missing from the object
    /// store: a data-integrity fault, fatal to the whole call.
    NotFound(ObjectId),
    /// The observer declined to continue: a normal, intentional stop.
    Cancelled,
}

/// How a diff run ends when the observer never cancels.
pub enum DiffEnd {
    /// Both cursors exhausted at every level.
    Completed,
    /// The walk stops at the first sub-tree hash the store cannot resolve.
    Missing(Seq<u8>),
}

/// One diff run over two entry sequences, with the observer assumed to
/// always continue: every notification in order, the identity counter
/// after the run, and how the run ends.
pub struct DiffRun {
    pub events: Seq<EventModel>,
    pub next_id: u64,
    pub end: DiffEnd,
}

/// The path-component mutation announcing the entry named `e.name`.
pub open spec fn path_event(e: EntryModel, id: u64) -> EventModel {
    EventModel::Path { name: e.name, id }
}

/// The deletion of `e`, as answered by an observer that continues.
pub open spec fn deletion_event(e: EntryModel, id: u64) -> EventModel {
    EventModel::Change(
        ChangeModel::Deletion { entry_mode: e.mode, oid: e.oid, path_id: id },
        Action::Continue,
    )
}

/// The addition of `e`, as answered by an observer that continues.
pub open spec fn addition_event(e: EntryModel, id: u64) -> EventModel {
    EventModel::Change(
        ChangeModel::Addition { entry_mode: e.mode, oid: e.oid, path_id: id },
        Action::Continue,
    )
}

/// The modification turning `l` into `r`, as answered by an observer that
/// continues.
pub open spec fn modification_event(l: EntryModel, r: EntryModel, id: u64) -> EventModel {
    EventModel::Change(
        ChangeModel::Modification {
            previous_entry_mode: l.mode,
            previous_oid: l.oid,
            entry_mode: r.mode,
            oid: r.oid,
            path_id: id,
        },
        Action::Continue,
    )
}

/// The same notification with the observer's answer turned into `Cancel`.
pub open spec fn cancelled_event(e: EventModel) -> EventModel {
    match e {
        EventModel::Change(c, _) => EventModel::Change(c, Action::Cancel),
        other => other,
    }
}

/// The merge-join takes the source head alone: the target cursor is
/// exhausted, or the source head sorts earlier under the canonical order.
pub open spec fn takes_source(lhs: Seq<EntryModel>, rhs: Seq<EntryModel>) -> bool {
    rhs.len() == 0 || (lhs.len() > 0 && lhs[0].name != rhs[0].name && entry_lt(lhs[0], rhs[0]))
}

/// The merge-join takes the target head alone: the source cursor is
/// exhausted, or the two heads' names differ (and the source head did not
/// sort earlier).
pub open spec fn takes_target(lhs: Seq<EntryModel>, rhs: Seq<EntryModel>) -> bool {
    rhs.len() > 0 && (lhs.len() == 0 || lhs[0].name != rhs[0].name)
}

/// The events a diff of `lhs` against `rhs` delivers to an observer that
/// always continues, walking sub-trees through the forest `m`: one sorted
/// merge-join pass per level, recursing wherever a sub-tree appears,
/// disappears, or changes content.
///
/// The identity counter `id` grows by one per path-component mutation. A
/// sub-tree hash that `m` cannot resolve ends the run at that point with
/// `Missing`; otherwise the run is `Completed`.
pub open spec fn diff_run(m: TreeMap, lhs: Seq<EntryModel>, rhs: Seq<EntryModel>, id: u64) -> DiffRun
    decreases
            seq_rank(m, the_rank(m), lhs) + seq_rank(m, the_rank(m), rhs),
            lhs.len() + rhs.len(),
        when acyclic(m)
{
    if lhs.len() == 0 && rhs.len() == 0 {
        DiffRun { events: Seq::empty(), next_id: id, end: DiffEnd::Completed }
    } else if takes_source(lhs, rhs) {
        // an entry present only on the source side: one deletion; a deleted
        // sub-tree is walked against the empty tree so that every entry
        // inside surfaces as a deletion too
        let e = lhs[0];
        let head = seq![path_event(e, id), deletion_event(e, id)];
        let id1 = bump(id);
        if e.mode is Tree {
            if !m.dom().contains(e.oid) {
                DiffRun { events: head, next_id: id1, end: DiffEnd::Missing(e.oid) }
            } else {
                let sub = ({
                    proof {
                        lemma_the_rank(m);
                        lemma_subtree_rank(m, the_rank(m), e.oid);
                        lemma_seq_rank_skip(m, the_rank(m), lhs, 0);
                        assert(lhs.skip(0) =~= lhs);
                    }
                    diff_run(m, m[e.oid], Seq::empty(), id1)
                });
                if sub.end is Missing {
                    DiffRun { events: head + sub.events, next_id: sub.next_id, end: sub.end }
                } else {
                    let rest = diff_run(m, lhs.drop_first(), rhs, sub.next_id);
                    DiffRun {
                        events: head + sub.events + rest.events,
                        next_id: rest.next_id,
                        end: rest.end,
                    }
                }
            }
        } else {
            let rest = diff_run(m, lhs.drop_first(), rhs, id1);
            DiffRun { events: head + rest.events, next_id: rest.next_id, end: rest.end }
        }
    } else if takes_target(lhs, rhs) {
        // an entry present only on the target side: one addition; an added
        // sub-tree is walked against the empty tree so that every entry
        // inside surfaces as an addition too
        let e = rhs[0];
        let head = seq![path_event(e, id), addition_event(e, id)];
        let id1 = bump(id);
        if e.mode is Tree {
            if !m.dom().contains(e.oid) {
                DiffRun { events: head, next_id: id1, end: DiffEnd::Missing(e.oid) }
            } else {
                let sub = ({
                    proof {
                        lemma_the_rank(m);
                        lemma_subtree_rank(m, the_rank(m), e.oid);
                        lemma_seq_rank_skip(m, the_rank(m), rhs, 0);
                        assert(rhs.skip(0) =~= rhs);
                    }
                    diff_run(m, Seq::empty(), m[e.oid], id1)
                });
                if sub.end is Missing {
                    DiffRun { events: head + sub.events, next_id: sub.next_id, end: sub.end }
                } else {
                    let rest = diff_run(m, lhs, rhs.drop_first(), sub.next_id);
                    DiffRun {
                        events: head + sub.events + rest.events,
                        next_id: rest.next_id,
                        end: rest.end,
                    }
                }
            }
        } else {
            let rest = diff_run(m, lhs, rhs.drop_first(), id1);
            DiffRun { events: head + rest.events, next_id: rest.next_id, end: rest.end }
        }
    } else {
        // equal names: one logical path on both sides
        let l = lhs[0];
        let r = rhs[0];
        let changed = l.oid != r.oid || l.mode != r.mode;
        let kind_changed = (l.mode is Tree) != (r.mode is Tree);
        // a kind change is reported as the deletion of the old entry; the
        // new kind is then populated from an empty baseline by the
        // recursion below, never reported as a modification
        let head = if changed {
            seq![
                path_event(l, id),
                if kind_changed {
                    deletion_event(l, id)
                } else {
                    modification_event(l, r, id)
                },
            ]
        } else {
            Seq::empty()
        };
        let id1 = if changed {
            bump(id)
        } else {
            id
        };
        if l.mode is Tree && r.mode is Tree && l.oid != r.oid {
            if !m.dom().contains(l.oid) {
                DiffRun { events: head, next_id: id1, end: DiffEnd::Missing(l.oid) }
            } else if !m.dom().contains(r.oid) {
                DiffRun { events: head, next_id: id1, end: DiffEnd::Missing(r.oid) }
            } else {
                let sub = ({
                    proof {
                        lemma_the_rank(m);
                        lemma_subtree_rank(m, the_rank(m), l.oid);
                        lemma_subtree_rank(m, the_rank(m), r.oid);
                        lemma_seq_rank_skip(m, the_rank(m), lhs, 0);
                        lemma_seq_rank_skip(m, the_rank(m), rhs, 0);
                        assert(lhs.skip(0) =~= lhs);
                        assert(rhs.skip(0) =~= rhs);
                    }
                    diff_run(m, m[l.oid], m[r.oid], id1)
                });
                if sub.end is Missing {
                    DiffRun { events: head + sub.events, next_id: sub.next_id, end: sub.end }
                } else {
                    let rest = diff_run(m, lhs.drop_first(), rhs.drop_first(), sub.next_id);
                    DiffRun {
                        events: head + sub.events + rest.events,
                        next_id: rest.next_id,
                        end: rest.end,
                    }
                }
            }
        } else if !(l.mode is Tree) && r.mode is Tree {
            if !m.dom().contains(r.oid) {
                DiffRun { events: head, next_id: id1, end: DiffEnd::Missing(r.oid) }
            } else {
                let sub = ({
                    proof {
                        lemma_the_rank(m);
                        lemma_subtree_rank(m, the_rank(m), r.oid);
                        lemma_seq_rank_skip(m, the_rank(m), rhs, 0);
                        assert(rhs.skip(0) =~= rhs);
                    }
                    diff_run(m, Seq::empty(), m[r.oid], id1)
                });
                if sub.end is Missing {
                    DiffRun { events: head + sub.events, next_id: sub.next_id, end: sub.end }
                } else {
                    let rest = diff_run(m, lhs.drop_first(), rhs.drop_first(), sub.next_id);
                    DiffRun {
                        events: head + sub.events + rest.events,
                        next_id: rest.next_id,
                        end: rest.end,
                    }
                }
            }
        } else if l.mode is Tree && !(r.mode is Tree) {
            if !m.dom().contains(l.oid) {
                DiffRun { events: head, next_id: id1, end: DiffEnd::Missing(l.oid) }
            } else {
                let sub = ({
                    proof {
                        lemma_the_rank(m);
                        lemma_subtree_rank(m, the_rank(m), l.oid);
                        lemma_seq_rank_skip(m, the_rank(m), lhs, 0);
                        assert(lhs.skip(0) =~= lhs);
                    }
                    diff_run(m, m[l.oid], Seq::empty(), id1)
                });
                if sub.end is Missing {
                    DiffRun { events: head + sub.events, next_id: sub.next_id, end: sub.end }
                } else {
                    let rest = diff_run(m, lhs.drop_first(), rhs.drop_first(), sub.next_id);
                    DiffRun {
                        events: head + sub.events + rest.events,
                        next_id: rest.next_id,
                        end: rest.end,
                    }
                }
            }
        } else {
            // both sides are plain entries, or the same sub-tree: nothing
            // to descend into
            let rest = diff_run(m, lhs.drop_first(), rhs.drop_first(), id1);
            DiffRun { events: head + rest.events, next_id: rest.next_id, end: rest.end }
        }
    }
}

/// The log `post` extends `pre` by the first `k - 1` notifications of a
/// run followed by the run's `k`-th notification, a change, answered
/// `Cancel` instead of `Continue`.
pub open spec fn cancelled_at(
    evs: Seq<EventModel>,
    pre: Seq<EventModel>,
    post: Seq<EventModel>,
    k: int,
) -> bool {
    1 <= k <= evs.len() && evs[k - 1] is Change && post == pre + evs.take(k - 1).push(
        cancelled_event(evs[k - 1]),
    )
}

/// The log `post` extends `pre` by a prefix of the run that stops at a
/// change the observer answered with `Cancel`.
pub open spec fn cancelled_agrees(
    evs: Seq<EventModel>,
    pre: Seq<EventModel>,
    post: Seq<EventModel>,
) -> bool {
    exists|k: int| cancelled_at(evs, pre, post, k)
}

/// How the observer's log after a call relates to the run the engine owes:
/// a completed call delivered the whole run with every change answered
/// `Continue`; a cancelled call delivered a prefix ending at the first
/// change answered `Cancel`; a failed lookup delivered the whole run up to
/// the missing object.
pub open spec fn run_agrees(
    run: DiffRun,
    pre: Seq<EventModel>,
    post: Seq<EventModel>,
    res: Result<(), Error>,
) -> bool {
    match res {
        Ok(()) => post == pre + run.events && run.end is Completed,
        Err(Error::Cancelled) => cancelled_agrees(run.events, pre, post),
        Err(Error::NotFound(o)) => post == pre + run.events && run.end == DiffEnd::Missing(o@),
    }
}

/// A cancellation inside the sub-run that follows `head` is a cancellation
/// of the whole run `head + sub + tail`.
proof fn lemma_cancelled_extend(
    head: Seq<EventModel>,
    sub: Seq<EventModel>,
    tail: Seq<EventModel>,
    pre: Seq<EventModel>,
    post: Seq<EventModel>,
)
    requires
        cancelled_agrees(sub, pre + head, post),
    ensures
        cancelled_agrees(head + sub + tail, pre, post),
{
    let k = choose|k: int| cancelled_at(sub, pre + head, post, k);
    let evs = head + sub + tail;
    let kk = head.len() + k;
    assert(evs.take(kk - 1) =~= head + sub.take(k - 1));
    assert(evs[kk - 1] == sub[k - 1]);
    assert(post =~= pre + evs.take(kk - 1).push(cancelled_event(evs[kk - 1])));
    assert(cancelled_at(evs, pre, post, kk));
}

/// One merge-join step that takes the source head alone: report its
/// deletion, walk a deleted sub-tree against the empty tree, then go on
/// with the source cursor advanced.
fn take_source<S: ObjectStore, R: Record>(
    lhs: &Vec<TreeEntry>,
    li: usize,
    rhs: &Vec<TreeEntry>,
    ri: usize,
    store: &S,
    delegate: &mut R,
    path_id: &mut u64,
) -> (res: Result<(), Error>)
    requires
        li < lhs.len(),
        ri <= rhs.len(),
        acyclic(store.trees()),
        takes_source(entries_model(lhs@).skip(li as int), entries_model(rhs@).skip(ri as int)),
    ensures
        run_agrees(
            diff_run(
                store.trees(),
                entries_model(lhs@).skip(li as int),
                entries_model(rhs@).skip(ri as int),
                *old(path_id),
            ),
            old(delegate).events(),
            final(delegate).events(),
            res,
        ),
        !(res matches Err(Error::Cancelled)) ==> *final(path_id) == diff_run(
            store.trees(),
            entries_model(lhs@).skip(li as int),
            entries_model(rhs@).skip(ri as int),
            *old(path_id),
        ).next_id,
    decreases
            seq_rank(store.trees(), the_rank(store.trees()), entries_model(lhs@).skip(li as int))
                + seq_rank(
                store.trees(),
                the_rank(store.trees()),
                entries_model(rhs@).skip(ri as int),
            ),
            lhs@.len() - li + rhs@.len() - ri,
            0int,
{
    let ghost m = store.trees();
    let ghost big_l = entries_model(lhs@).skip(li as int);
    let ghost big_r = entries_model(rhs@).skip(ri as int);
    let ghost id0 = *path_id;
    let ghost run = diff_run(m, big_l, big_r, id0);
    let ghost pre = old(delegate).events();
    proof {
        lemma_model_skip(lhs@, li as int);
    }
    let e = &lhs[li];
    let ghost head = seq![path_event(big_l[0], id0), deletion_event(big_l[0], id0)];
    let ghost sub = diff_run(m, m[big_l[0].oid], Seq::empty(), bump(id0));
    let ghost rest = if big_l[0].mode is Tree {
        diff_run(m, big_l.drop_first(), big_r, sub.next_id)
    } else {
        diff_run(m, big_l.drop_first(), big_r, bump(id0))
    };
    proof {
        // the run's shape in every sub-case: the two head notifications,
        // then whatever the sub-walk and the rest of the level add
        if big_l[0].mode is Tree {
            if !m.dom().contains(big_l[0].oid) {
                assert(run.events == head);
            } else if sub.end is Missing {
                assert(run.events == head + sub.events);
            } else {
                assert(run.events == head + sub.events + rest.events);
            }
        } else {
            assert(run.events == head + rest.events);
        }
        assert(run.events.take(2) =~= head);
        assert(run.events.take(1) =~= seq![path_event(big_l[0], id0)]);
    }

    let c = PathComponent::new(&e.filename, path_id);
    let cid = c.id;
    delegate.update_path_component(c, PathComponentUpdateMode::Replace);
    let action = delegate.record(
        Change::Deletion { entry_mode: e.mode, oid: e.oid.clone(), path_id: cid },
    );
    if action.cancelled() {
        proof {
            assert(delegate.events() =~= pre + run.events.take(1).push(
                cancelled_event(run.events[1]),
            ));
            assert(cancelled_at(run.events, pre, delegate.events(), 2));
        }
        return Err(Error::Cancelled);
    }
    proof {
        assert(action is Continue);
        assert(delegate.events() =~= pre + head);
    }

    if e.mode.is_tree() {
        let found = store.find_tree(&e.oid);
        match found {
            None => {
                proof {
                    assert(run.events == head && run.next_id == bump(id0) && run.end
                        == DiffEnd::Missing(big_l[0].oid));
                }
                return Err(Error::NotFound(e.oid.clone()));
            },
            Some(t) => {
                let empty = Tree::empty();
                proof {
                    assert(entries_model(t.entries@).skip(0) =~= m[big_l[0].oid]);
                    assert(entries_model(empty.entries@).skip(0) =~= Seq::<EntryModel>::empty());
                    lemma_the_rank(m);
                    lemma_subtree_rank(m, the_rank(m), big_l[0].oid);
                    lemma_seq_rank_skip(m, the_rank(m), big_l, 0);
                    assert(big_l.skip(0) =~= big_l);
                }
                let r1 = diff_from(&t.entries, 0, &empty.entries, 0, store, delegate, path_id);
                match r1 {
                    Err(Error::Cancelled) => {
                        proof {
                            if sub.end is Missing {
                                assert(run.events =~= head + sub.events + Seq::<
                                    EventModel,
                                >::empty());
                                lemma_cancelled_extend(
                                    head,
                                    sub.events,
                                    Seq::empty(),
                                    pre,
                                    delegate.events(),
                                );
                            } else {
                                lemma_cancelled_extend(
                                    head,
                                    sub.events,
                                    rest.events,
                                    pre,
                                    delegate.events(),
                                );
                            }
                        }
                        return Err(Error::Cancelled);
                    },
                    Err(Error::NotFound(o)) => {
                        proof {
                            assert(sub.end == DiffEnd::Missing(o@));
                            assert(run.events == head + sub.events && run.next_id == sub.next_id
                                && run.end == sub.end);
                            assert(delegate.events() =~= pre + run.events);
                        }
                        return Err(Error::NotFound(o));
                    },
                    Ok(()) => {
                        proof {
                            assert(sub.end is Completed);
                            assert(run.events == head + sub.events + rest.events && run.next_id
                                == rest.next_id && run.end == rest.end);
                            assert(delegate.events() =~= (pre + head) + sub.events);
                        }
                    },
                }
            },
        }
    }
    let ghost pre_tail = delegate.events();
    proof {
        if big_l[0].mode is Tree {
            assert(pre_tail == (pre + head) + sub.events);
            assert(*path_id == sub.next_id);
        } else {
            assert(run.events == head + rest.events && run.next_id == rest.next_id && run.end
                == rest.end);
            assert(pre_tail == pre + head);
            assert(*path_id == bump(id0));
        }
        lemma_the_rank(m);
        lemma_seq_rank_skip(m, the_rank(m), entries_model(lhs@), li as int);
    }
    let r2 = diff_from(lhs, li + 1, rhs, ri, store, delegate, path_id);
    proof {
        assert(entries_model(lhs@).skip(li as int + 1) == big_l.drop_first());
        match &r2 {
            Ok(()) => {
                if big_l[0].mode is Tree {
                    assert(delegate.events() =~= pre + (head + sub.events + rest.events));
                } else {
                    assert(delegate.events() =~= pre + (head + rest.events));
                }
            },
            Err(Error::Cancelled) => {
                if big_l[0].mode is Tree {
                    assert(pre + (head + sub.events) =~= (pre + head) + sub.events);
                    lemma_cancelled_extend(
                        head + sub.events,
                        rest.events,
                        Seq::empty(),
                        pre,
                        delegate.events(),
                    );
                    assert(run.events =~= (head + sub.events) + rest.events + Seq::<
                        EventModel,
                    >::empty());
                } else {
                    lemma_cancelled_extend(
                        head,
                        rest.events,
                        Seq::empty(),
                        pre,
                        delegate.events(),
                    );
                    assert(run.events =~= head + rest.events + Seq::<EventModel>::empty());
                }
            },
            Err(Error::NotFound(o)) => {
                assert(rest.end == DiffEnd::Missing(o@));
                if big_l[0].mode is Tree {
                    assert(delegate.events() =~= pre + (head + sub.events + rest.events));
                } else {
                    assert(delegate.events() =~= pre + (head + rest.events));
                }
            },
        }
    }
    r2
}

/// One merge-join step that takes the target head alone: report its
/// addition, walk an added sub-tree against the empty tree, then go on
/// with the target cursor advanced.
fn take_target<S: ObjectStore, R: Record>(
    lhs: &Vec<TreeEntry>,
    li: usize,
    rhs: &Vec<TreeEntry>,
    ri: usize,
    store: &S,
    delegate: &mut R,
    path_id: &mut u64,
) -> (res: Result<(), Error>)
    requires
        li <= lhs.len(),
        ri < rhs.len(),
        acyclic(store.trees()),
        takes_target(entries_model(lhs@).skip(li as int), entries_model(rhs@).skip(ri as int)),
        !takes_source(entries_model(lhs@).skip(li as int), entries_model(rhs@).skip(ri as int)),
    ensures
        run_agrees(
            diff_run(
                store.trees(),
                entries_model(lhs@).skip(li as int),
                entries_model(rhs@).skip(ri as int),
                *old(path_id),
            ),
            old(delegate).events(),
            final(delegate).events(),
            res,
        ),
        !(res matches Err(Error::Cancelled)) ==> *final(path_id) == diff_run(
            store.trees(),
            entries_model(lhs@).skip(li as int),
            entries_model(rhs@).skip(ri as int),
            *old(path_id),
        ).next_id,
    decreases
            seq_rank(store.trees(), the_rank(store.trees()), entries_model(lhs@).skip(li as int))
                + seq_rank(
                store.trees(),
                the_rank(store.trees()),
                entries_model(rhs@).skip(ri as int),
            ),
            lhs@.len() - li + rhs@.len() - ri,
            0int,
{
    let ghost m = store.trees();
    let ghost big_l = entries_model(lhs@).skip(li as int);
    let ghost big_r = entries_model(rhs@).skip(ri as int);
    let ghost id0 = *path_id;
    let ghost run = diff_run(m, big_l, big_r, id0);
    let ghost pre = old(delegate).events();
    proof {
        lemma_model_skip(rhs@, ri as int);
    }
    let e = &rhs[ri];
    let ghost head = seq![path_event(big_r[0], id0), addition_event(big_r[0], id0)];
    let ghost sub = diff_run(m, Seq::empty(), m[big_r[0].oid], bump(id0));
    let ghost rest = if big_r[0].mode is Tree {
        diff_run(m, big_l, big_r.drop_first(), sub.next_id)
    } else {
        diff_run(m, big_l, big_r.drop_first(), bump(id0))
    };
    proof {
        if big_r[0].mode is Tree {
            if !m.dom().contains(big_r[0].oid) {
                assert(run.events == head);
            } else if sub.end is Missing {
                assert(run.events == head + sub.events);
            } else {
                assert(run.events == head + sub.events + rest.events);
            }
        } else {
            assert(run.events == head + rest.events);
        }
        assert(run.events.take(2) =~= head);
        assert(run.events.take(1) =~= seq![path_event(big_r[0], id0)]);
    }

    let c = PathComponent::new(&e.filename, path_id);
    let cid = c.id;
    delegate.update_path_component(c, PathComponentUpdateMode::Replace);
    let action = delegate.record(
        Change::Addition { entry_mode: e.mode, oid: e.oid.clone(), path_id: cid },
    );
    if action.cancelled() {
        proof {
            assert(delegate.events() =~= pre + run.events.take(1).push(
                cancelled_event(run.events[1]),
            ));
            assert(cancelled_at(run.events, pre, delegate.events(), 2));
        }
        return Err(Error::Cancelled);
    }
    proof {
        assert(action is Continue);
        assert(delegate.events() =~= pre + head);
    }

    if e.mode.is_tree() {
        let found = store.find_tree(&e.oid);
        match found {
            None => {
                proof {
                    assert(run.events == head && run.next_id == bump(id0) && run.end
                        == DiffEnd::Missing(big_r[0].oid));
                }
                return Err(Error::NotFound(e.oid.clone()));
            },
            Some(t) => {
                let empty = Tree::empty();
                proof {
                    assert(entries_model(t.entries@).skip(0) =~= m[big_r[0].oid]);
                    assert(entries_model(empty.entries@).skip(0) =~= Seq::<EntryModel>::empty());
                    lemma_the_rank(m);
                    lemma_subtree_rank(m, the_rank(m), big_r[0].oid);
                    lemma_seq_rank_skip(m, the_rank(m), big_r, 0);
                    assert(big_r.skip(0) =~= big_r);
                }
                let r1 = diff_from(&empty.entries, 0, &t.entries, 0, store, delegate, path_id);
                match r1 {
                    Err(Error::Cancelled) => {
                        proof {
                            if sub.end is Missing {
                                assert(run.events =~= head + sub.events + Seq::<
                                    EventModel,
                                >::empty());
                                lemma_cancelled_extend(
                                    head,
                                    sub.events,
                                    Seq::empty(),
                                    pre,
                                    delegate.events(),
                                );
                            } else {
                                lemma_cancelled_extend(
                                    head,
                                    sub.events,
                                    rest.events,
                                    pre,
                                    delegate.events(),
                                );
                            }
                        }
                        return Err(Error::Cancelled);
                    },
                    Err(Error::NotFound(o)) => {
                        proof {
                            assert(sub.end == DiffEnd::Missing(o@));
                            assert(run.events == head + sub.events && run.next_id == sub.next_id
                                && run.end == sub.end);
                            assert(delegate.events() =~= pre + run.events);
                        }
                        return Err(Error::NotFound(o));
                    },
                    Ok(()) => {
                        proof {
                            assert(sub.end is Completed);
                            assert(run.events == head + sub.events + rest.events && run.next_id
                                == rest.next_id && run.end == rest.end);
                            assert(delegate.events() =~= (pre + head) + sub.events);
                        }
                    },
                }
            },
        }
    }
    let ghost pre_tail = delegate.events();
    proof {
        if big_r[0].mode is Tree {
            assert(pre_tail == (pre + head) + sub.events);
            assert(*path_id == sub.next_id);
        } else {
            assert(run.events == head + rest.events && run.next_id == rest.next_id && run.end
                == rest.end);
            assert(pre_tail == pre + head);
            assert(*path_id == bump(id0));
        }
        lemma_the_rank(m);
        lemma_seq_rank_skip(m, the_rank(m), entries_model(rhs@), ri as int);
    }
    let r2 = diff_from(lhs, li, rhs, ri + 1, store, delegate, path_id);
    proof {
        assert(entries_model(rhs@).skip(ri as int + 1) == big_r.drop_first());
        match &r2 {
            Ok(()) => {
                if big_r[0].mode is Tree {
                    assert(delegate.events() =~= pre + (head + sub.events + rest.events));
                } else {
                    assert(delegate.events() =~= pre + (head + rest.events));
                }
            },
            Err(Error::Cancelled) => {
                if big_r[0].mode is Tree {
                    assert(pre + (head + sub.events) =~= (pre + head) + sub.events);
                    lemma_cancelled_extend(
                        head + sub.events,
                        rest.events,
                        Seq::empty(),
                        pre,
                        delegate.events(),
                    );
                    assert(run.events =~= (head + sub.events) + rest.events + Seq::<
                        EventModel,
                    >::empty());
                } else {
                    lemma_cancelled_extend(
                        head,
                        rest.events,
                        Seq::empty(),
                        pre,
                        delegate.events(),
                    );
                    assert(run.events =~= head + rest.events + Seq::<EventModel>::empty());
                }
            },
            Err(Error::NotFound(o)) => {
                assert(rest.end == DiffEnd::Missing(o@));
                if big_r[0].mode is Tree {
                    assert(delegate.events() =~= pre + (head + sub.events + rest.events));
                } else {
                    assert(delegate.events() =~= pre + (head + rest.events));
                }
            },
        }
    }
    r2
}

/// One merge-join step on a single logical path: the two heads carry the
/// same name. An unchanged entry is passed in silence; a kind-compatible
/// change is reported as a modification; a kind change is reported as the
/// deletion of the old entry. Sub-trees are then walked wherever one
/// appears, disappears, or changes content, and the level goes on with
/// both cursors advanced.
fn take_matched<S: ObjectStore, R: Record>(
    lhs: &Vec<TreeEntry>,
    li: usize,
    rhs: &Vec<TreeEntry>,
    ri: usize,
    store: &S,
    delegate: &mut R,
    path_id: &mut u64,
) -> (res: Result<(), Error>)
    requires
        li < lhs.len(),
        ri < rhs.len(),
        acyclic(store.trees()),
        entries_model(lhs@).skip(li as int)[0].name == entries_model(rhs@).skip(ri as int)[0].name,
    ensures
        run_agrees(
            diff_run(
                store.trees(),
                entries_model(lhs@).skip(li as int),
                entries_model(rhs@).skip(ri as int),
                *old(path_id),
            ),
            old(delegate).events(),
            final(delegate).events(),
            res,
        ),
        !(res matches Err(Error::Cancelled)) ==> *final(path_id) == diff_run(
            store.trees(),
            entries_model(lhs@).skip(li as int),
            entries_model(rhs@).skip(ri as int),
            *old(path_id),
        ).next_id,
    decreases
            seq_rank(store.trees(), the_rank(store.trees()), entries_model(lhs@).skip(li as int))
                + seq_rank(
                store.trees(),
                the_rank(store.trees()),
                entries_model(rhs@).skip(ri as int),
            ),
            lhs@.len() - li + rhs@.len() - ri,
            0int,
{
    let ghost m = store.trees();
    let ghost big_l = entries_model(lhs@).skip(li as int);
    let ghost big_r = entries_model(rhs@).skip(ri as int);
    let ghost id0 = *path_id;
    let ghost run = diff_run(m, big_l, big_r, id0);
    let ghost pre = old(delegate).events();
    proof {
        lemma_model_skip(lhs@, li as int);
        lemma_model_skip(rhs@, ri as int);
        assert(!takes_source(big_l, big_r));
        assert(!takes_target(big_l, big_r));
    }
    let l = &lhs[li];
    let r = &rhs[ri];
    let oid_eq = l.oid == r.oid;
    let mode_eq = l.mode == r.mode;
    let changed = !(oid_eq && mode_eq);
    let l_tree = l.mode.is_tree();
    let r_tree = r.mode.is_tree();

    let ghost kind_changed = (big_l[0].mode is Tree) != (big_r[0].mode is Tree);
    let ghost head = if changed {
        seq![
            path_event(big_l[0], id0),
            if kind_changed {
                deletion_event(big_l[0], id0)
            } else {
                modification_event(big_l[0], big_r[0], id0)
            },
        ]
    } else {
        Seq::<EventModel>::empty()
    };
    let ghost id1 = if changed {
        bump(id0)
    } else {
        id0
    };
    let ghost arm_tt = big_l[0].mode is Tree && big_r[0].mode is Tree && big_l[0].oid
        != big_r[0].oid;
    let ghost arm_nt = !(big_l[0].mode is Tree) && big_r[0].mode is Tree;
    let ghost arm_tn = big_l[0].mode is Tree && !(big_r[0].mode is Tree);
    let ghost sub = if arm_tt {
        diff_run(m, m[big_l[0].oid], m[big_r[0].oid], id1)
    } else if arm_nt {
        diff_run(m, Seq::empty(), m[big_r[0].oid], id1)
    } else if arm_tn {
        diff_run(m, m[big_l[0].oid], Seq::empty(), id1)
    } else {
        DiffRun { events: Seq::empty(), next_id: id1, end: DiffEnd::Completed }
    };
    let ghost rest = diff_run(m, big_l.drop_first(), big_r.drop_first(), sub.next_id);
    let ghost missing_lookup = (arm_tt && (!m.dom().contains(big_l[0].oid) || !m.dom().contains(
        big_r[0].oid,
    ))) || (arm_nt && !m.dom().contains(big_r[0].oid)) || (arm_tn && !m.dom().contains(
        big_l[0].oid,
    ));
    proof {
        // the run's shape: the head notifications, then whatever the
        // sub-tree walk and the rest of the level add
        if missing_lookup {
            assert(run.events == head && run.next_id == id1);
        } else if sub.end is Missing {
            assert(run.events == head + sub.events && run.next_id == sub.next_id && run.end
                == sub.end);
        } else {
            assert(run.events == head + sub.events + rest.events && run.next_id == rest.next_id
                && run.end == rest.end);
        }
    }

    if changed {
        let c = PathComponent::new(&l.filename, path_id);
        let cid = c.id;
        delegate.update_path_component(c, PathComponentUpdateMode::Replace);
        let change: Change;
        if l_tree != r_tree {
            change = Change::Deletion { entry_mode: l.mode, oid: l.oid.clone(), path_id: cid };
        } else {
            change = Change::Modification {
                previous_entry_mode: l.mode,
                previous_oid: l.oid.clone(),
                entry_mode: r.mode,
                oid: r.oid.clone(),
                path_id: cid,
            };
        }
        let action = delegate.record(change);
        if action.cancelled() {
            proof {
                assert(run.events.take(2) =~= head);
                assert(run.events.take(1) =~= seq![path_event(big_l[0], id0)]);
                assert(delegate.events() =~= pre + run.events.take(1).push(
                    cancelled_event(run.events[1]),
                ));
                assert(cancelled_at(run.events, pre, delegate.events(), 2));
            }
            return Err(Error::Cancelled);
        }
        proof {
            assert(action is Continue);
            assert(delegate.events() =~= pre + head);
        }
    }
    proof {
        assert(delegate.events() =~= pre + head);
        assert(*path_id == id1);
    }

    if l_tree && r_tree && !oid_eq {
        let lt = match store.find_tree(&l.oid) {
            None => {
                proof {
                    assert(missing_lookup);
                    assert(delegate.events() =~= pre + run.events);
                }
                return Err(Error::NotFound(l.oid.clone()));
            },
            Some(t) => t,
        };
        let rt = match store.find_tree(&r.oid) {
            None => {
                proof {
                    assert(missing_lookup);
                    assert(delegate.events() =~= pre + run.events);
                }
                return Err(Error::NotFound(r.oid.clone()));
            },
            Some(t) => t,
        };
        proof {
            assert(entries_model(lt.entries@).skip(0) =~= m[big_l[0].oid]);
            assert(entries_model(rt.entries@).skip(0) =~= m[big_r[0].oid]);
            lemma_the_rank(m);
            lemma_subtree_rank(m, the_rank(m), big_l[0].oid);
            lemma_subtree_rank(m, the_rank(m), big_r[0].oid);
            lemma_seq_rank_skip(m, the_rank(m), big_l, 0);
            lemma_seq_rank_skip(m, the_rank(m), big_r, 0);
            assert(big_l.skip(0) =~= big_l);
            assert(big_r.skip(0) =~= big_r);
        }
        let r1 = diff_from(&lt.entries, 0, &rt.entries, 0, store, delegate, path_id);
        match r1 {
            Err(Error::Cancelled) => {
                proof {
                    if sub.end is Missing {
                        assert(run.events =~= head + sub.events + Seq::<EventModel>::empty());
                        lemma_cancelled_extend(
                            head,
                            sub.events,
                            Seq::empty(),
                            pre,
                            delegate.events(),
                        );
                    } else {
                        lemma_cancelled_extend(head, sub.events, rest.events, pre, delegate.events());
                    }
                }
                return Err(Error::Cancelled);
            },
            Err(Error::NotFound(o)) => {
                proof {
                    assert(sub.end == DiffEnd::Missing(o@));
                    assert(delegate.events() =~= pre + run.events);
                }
                return Err(Error::NotFound(o));
            },
            Ok(()) => {
                proof {
                    assert(sub.end is Completed);
                    assert(delegate.events() =~= (pre + head) + sub.events);
                }
            },
        }
    } else if l.mode.is_no_tree() && r_tree {
        let rt = match store.find_tree(&r.oid) {
            None => {
                proof {
                    assert(missing_lookup);
                    assert(delegate.events() =~= pre + run.events);
                }
                return Err(Error::NotFound(r.oid.clone()));
            },
            Some(t) => t,
        };
        let empty = Tree::empty();
        proof {
            assert(entries_model(rt.entries@).skip(0) =~= m[big_r[0].oid]);
            assert(entries_model(empty.entries@).skip(0) =~= Seq::<EntryModel>::empty());
            lemma_the_rank(m);
            lemma_subtree_rank(m, the_rank(m), big_r[0].oid);
            lemma_seq_rank_skip(m, the_rank(m), big_r, 0);
            assert(big_r.skip(0) =~= big_r);
        }
        let r1 = diff_from(&empty.entries, 0, &rt.entries, 0, store, delegate, path_id);
        match r1 {
            Err(Error::Cancelled) => {
                proof {
                    if sub.end is Missing {
                        assert(run.events =~= head + sub.events + Seq::<EventModel>::empty());
                        lemma_cancelled_extend(
                            head,
                            sub.events,
                            Seq::empty(),
                            pre,
                            delegate.events(),
                        );
                    } else {
                        lemma_cancelled_extend(head, sub.events, rest.events, pre, delegate.events());
                    }
                }
                return Err(Error::Cancelled);
            },
            Err(Error::NotFound(o)) => {
                proof {
                    assert(sub.end == DiffEnd::Missing(o@));
                    assert(delegate.events() =~= pre + run.events);
                }
                return Err(Error::NotFound(o));
            },
            Ok(()) => {
                proof {
                    assert(sub.end is Completed);
                    assert(delegate.events() =~= (pre + head) + sub.events);
                }
            },
        }
    } else if l_tree && r.mode.is_no_tree() {
        let lt = match store.find_tree(&l.oid) {
            None => {
                proof {
                    assert(missing_lookup);
                    assert(delegate.events() =~= pre + run.events);
                }
                return Err(Error::NotFound(l.oid.clone()));
            },
            Some(t) => t,
        };
        let empty = Tree::empty();
        proof {
            assert(entries_model(lt.entries@).skip(0) =~= m[big_l[0].oid]);
            assert(entries_model(empty.entries@).skip(0) =~= Seq::<EntryModel>::empty());
            lemma_the_rank(m);
            lemma_subtree_rank(m, the_rank(m), big_l[0].oid);
            lemma_seq_rank_skip(m, the_rank(m), big_l, 0);
            assert(big_l.skip(0) =~= big_l);
        }
        let r1 = diff_from(&lt.entries, 0, &empty.entries, 0, store, delegate, path_id);
        match r1 {
            Err(Error::Cancelled) => {
                proof {
                    if sub.end is Missing {
                        assert(run.events =~= head + sub.events + Seq::<EventModel>::empty());
                        lemma_cancelled_extend(
                            head,
                            sub.events,
                            Seq::empty(),
                            pre,
                            delegate.events(),
                        );
                    } else {
                        lemma_cancelled_extend(head, sub.events, rest.events, pre, delegate.events());
                    }
                }
                return Err(Error::Cancelled);
            },
            Err(Error::NotFound(o)) => {
                proof {
                    assert(sub.end == DiffEnd::Missing(o@));
                    assert(delegate.events() =~= pre + run.events);
                }
                return Err(Error::NotFound(o));
            },
            Ok(()) => {
                proof {
                    assert(sub.end is Completed);
                    assert(delegate.events() =~= (pre + head) + sub.events);
                }
            },
        }
    } else {
        proof {
            assert(!arm_tt && !arm_nt && !arm_tn);
            assert(delegate.events() =~= (pre + head) + sub.events);
        }
    }
    proof {
        assert(sub.end is Completed);
        assert(run.events == head + sub.events + rest.events && run.next_id == rest.next_id
            && run.end == rest.end);
        assert(*path_id == sub.next_id);
        lemma_the_rank(m);
        lemma_seq_rank_skip(m, the_rank(m), entries_model(lhs@), li as int);
        lemma_seq_rank_skip(m, the_rank(m), entries_model(rhs@), ri as int);
    }
    let r2 = diff_from(lhs, li + 1, rhs, ri + 1, store, delegate, path_id);
    proof {
        assert(entries_model(lhs@).skip(li as int + 1) == big_l.drop_first());
        assert(entries_model(rhs@).skip(ri as int + 1) == big_r.drop_first());
        match &r2 {
            Ok(()) => {
                assert(delegate.events() =~= pre + (head + sub.events + rest.events));
            },
            Err(Error::Cancelled) => {
                assert(pre + (head + sub.events) =~= (pre + head) + sub.events);
                lemma_cancelled_extend(
                    head + sub.events,
                    rest.events,
                    Seq::empty(),
                    pre,
                    delegate.events(),
                );
                assert(run.events =~= (head + sub.events) + rest.events + Seq::<
                    EventModel,
                >::empty());
            },
            Err(Error::NotFound(o)) => {
                assert(rest.end == DiffEnd::Missing(o@));
                assert(delegate.events() =~= pre + (head + sub.events + rest.events));
            },
        }
    }
    r2
}

/// The merge-join walk from the cursors `li` and `ri` on: dispatches one
/// step to the matching case and carries on until both cursors are
/// exhausted, the observer cancels, or a sub-tree lookup fails.
fn diff_from<S: ObjectStore, R: Record>(
    lhs: &Vec<TreeEntry>,
    li: usize,
    rhs: &Vec<TreeEntry>,
    ri: usize,
    store: &S,
    delegate: &mut R,
    path_id: &mut u64,
) -> (res: Result<(), Error>)
    requires
        li <= lhs.len(),
        ri <= rhs.len(),
        acyclic(store.trees()),
    ensures
        run_agrees(
            diff_run(
                store.trees(),
                entries_model(lhs@).skip(li as int),
                entries_model(rhs@).skip(ri as int),
                *old(path_id),
            ),
            old(delegate).events(),
            final(delegate).events(),
            res,
        ),
        !(res matches Err(Error::Cancelled)) ==> *final(path_id) == diff_run(
            store.trees(),
            entries_model(lhs@).skip(li as int),
            entries_model(rhs@).skip(ri as int),
            *old(path_id),
        ).next_id,
    decreases
            seq_rank(store.trees(), the_rank(store.trees()), entries_model(lhs@).skip(li as int))
                + seq_rank(
                store.trees(),
                the_rank(store.trees()),
                entries_model(rhs@).skip(ri as int),
            ),
            lhs@.len() - li + rhs@.len() - ri,
            1int,
{
    let ghost big_l = entries_model(lhs@).skip(li as int);
    let ghost big_r = entries_model(rhs@).skip(ri as int);
    if li == lhs.len() && ri == rhs.len() {
        proof {
            assert(big_l.len() == 0 && big_r.len() == 0);
            let run = diff_run(store.trees(), big_l, big_r, *path_id);
            assert(old(delegate).events() + run.events =~= old(delegate).events());
        }
        Ok(())
    } else if ri == rhs.len() {
        proof {
            assert(big_r.len() == 0);
        }
        take_source(lhs, li, rhs, ri, store, delegate, path_id)
    } else if li == lhs.len() {
        proof {
            assert(big_l.len() == 0 && big_r.len() > 0);
        }
        take_target(lhs, li, rhs, ri, store, delegate, path_id)
    } else {
        proof {
            lemma_model_skip(lhs@, li as int);
            lemma_model_skip(rhs@, ri as int);
        }
        if bytes_eq(&lhs[li].filename, &rhs[ri].filename) {
            take_matched(lhs, li, rhs, ri, store, delegate, path_id)
        } else if entry_sorts_before(&lhs[li], &rhs[ri]) {
            take_source(lhs, li, rhs, ri, store, delegate, path_id)
        } else {
            take_target(lhs, li, rhs, ri, store, delegate, path_id)
        }
    }
}

/// A diff of a source tree, or of the empty tree standing in for "no tree
/// at all", against a target tree.
pub struct Changes(pub Option<Tree>);

impl Changes {
    /// The source side: the held tree's entries, or nothing.
    pub open spec fn source_model(&self) -> Seq<EntryModel> {
        match self.0 {
            Some(t) => t@,
            None => Seq::empty(),
        }
    }

    /// Returns the changes that need to be applied to `self` to get
    /// `other`, pushed to `delegate` in canonical entry order: one
    /// path-component mutation immediately before each change, additions
    /// and deletions of whole sub-trees expanded entry by entry, and a
    /// kind change reported as a deletion followed by the additions of the
    /// new kind's contents.
    ///
    /// Both trees' entries, and every tree the store decodes, must already
    /// be sorted by the canonical tree-entry order; the engine trusts this
    /// and never re-sorts.
    ///
    /// The call returns `Ok` exactly when the walk completed: the observer
    /// then saw the whole run and answered `Continue` to every change. It
    /// returns `Err(Cancelled)` when the observer answered `Cancel`: the
    /// log then ends at that change and nothing further was emitted. It
    /// returns `Err(NotFound(o))` when a sub-tree referenced for recursion
    /// is missing from the store: everything before that point stands.
    pub fn to_obtain_tree<S: ObjectStore, R: Record>(
        &self,
        other: &Tree,
        store: &S,
        delegate: &mut R,
    ) -> (res: Result<(), Error>)
        requires
            tree_sorted(self.source_model()),
            tree_sorted(other@),
            store_ok(store.trees()),
        ensures
            run_agrees(
                diff_run(store.trees(), self.source_model(), other@, 0),
                old(delegate).events(),
                final(delegate).events(),
                res,
            ),
    {
        let empty = Tree::empty();
        let source: &Tree = match &self.0 {
            Some(t) => t,
            None => &empty,
        };
        let mut path_id: u64 = 0;
        proof {
            assert(entries_model(source.entries@).skip(0) =~= self.source_model());
            assert(entries_model(other.entries@).skip(0) =~= other@);
        }
        diff_from(&source.entries, 0, &other.entries, 0, store, delegate, &mut path_id)
    }
}

/// The model of the suffix of a borrowed entry list, one step at a time.
proof fn lemma_model_skip(v: Seq<TreeEntry>, i: int)
    requires
        0 <= i < v.len(),
    ensures
        entries_model(v).skip(i)[0] == v[i]@,
        entries_model(v).skip(i).drop_first() == entries_model(v).skip(i + 1),
        entries_model(v).skip(i).len() == v.len() - i,
{
    assert(entries_model(v).skip(i).drop_first() =~= entries_model(v).skip(i + 1));
    assert(entries_model(v).skip(i)[0] == entries_model(v)[i]);
}

} // verus!
