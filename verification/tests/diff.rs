use git_diff::changes::{Changes, Error};
use git_diff::hash::ObjectId;
use git_diff::record::{Action, CancelAfter, Change, Event, Recorder};
use git_diff::store::MemoryStore;
use git_diff::tree::{EntryMode, Tree, TreeEntry};

fn oid(bytes: &[u8]) -> ObjectId {
    ObjectId { bytes: bytes.to_vec() }
}

fn entry(name: &str, mode: EntryMode, id: &[u8]) -> TreeEntry {
    TreeEntry { filename: name.as_bytes().to_vec(), mode, oid: oid(id) }
}

fn tree(entries: Vec<TreeEntry>) -> Tree {
    Tree { entries }
}

fn store(objects: Vec<(ObjectId, Tree)>) -> MemoryStore {
    MemoryStore { objects }
}

fn changes_of(events: &[Event]) -> Vec<Change> {
    let mut out = Vec::new();
    for e in events {
        if let Event::Change(c, _) = e {
            out.push(c.clone());
        }
    }
    out
}

fn path_names(events: &[Event]) -> Vec<Vec<u8>> {
    let mut out = Vec::new();
    for e in events {
        if let Event::Path(c, _) = e {
            out.push(c.name.clone());
        }
    }
    out
}

#[test]
fn identity_emits_nothing() {
    let t = tree(vec![
        entry("a", EntryMode::Blob, b"1"),
        entry("b", EntryMode::Tree, b"2"),
    ]);
    let s = store(vec![(oid(b"2"), tree(vec![entry("x", EntryMode::Blob, b"3")]))]);
    let mut rec = Recorder::new();
    let res = Changes(Some(t.clone())).to_obtain_tree(&t, &s, &mut rec);
    assert!(matches!(res, Ok(())));
    assert_eq!(rec.events.len(), 0);
}

#[test]
fn additions_from_empty_flatten_subtrees() {
    let target = tree(vec![
        entry("a", EntryMode::Blob, b"1"),
        entry("d", EntryMode::Tree, b"2"),
    ]);
    let s = store(vec![(oid(b"2"), tree(vec![entry("x", EntryMode::Blob, b"3")]))]);
    let mut rec = Recorder::new();
    let res = Changes(None).to_obtain_tree(&target, &s, &mut rec);
    assert!(matches!(res, Ok(())));
    let cs = changes_of(&rec.events);
    assert_eq!(
        cs,
        vec![
            Change::Addition { entry_mode: EntryMode::Blob, oid: oid(b"1"), path_id: 0 },
            Change::Addition { entry_mode: EntryMode::Tree, oid: oid(b"2"), path_id: 1 },
            Change::Addition { entry_mode: EntryMode::Blob, oid: oid(b"3"), path_id: 2 },
        ]
    );
    assert_eq!(path_names(&rec.events), vec![b"a".to_vec(), b"d".to_vec(), b"x".to_vec()]);
}

#[test]
fn deletions_to_empty_mirror_additions() {
    let source = tree(vec![
        entry("a", EntryMode::Blob, b"1"),
        entry("d", EntryMode::Tree, b"2"),
    ]);
    let s = store(vec![(oid(b"2"), tree(vec![entry("x", EntryMode::Blob, b"3")]))]);
    let mut rec = Recorder::new();
    let res = Changes(Some(source)).to_obtain_tree(&tree(vec![]), &s, &mut rec);
    assert!(matches!(res, Ok(())));
    let cs = changes_of(&rec.events);
    assert_eq!(
        cs,
        vec![
            Change::Deletion { entry_mode: EntryMode::Blob, oid: oid(b"1"), path_id: 0 },
            Change::Deletion { entry_mode: EntryMode::Tree, oid: oid(b"2"), path_id: 1 },
            Change::Deletion { entry_mode: EntryMode::Blob, oid: oid(b"3"), path_id: 2 },
        ]
    );
}

#[test]
fn two_changed_names_in_order_with_unchanged_between() {
    let source = tree(vec![
        entry("a", EntryMode::Blob, b"1"),
        entry("m", EntryMode::Blob, b"2"),
        entry("z", EntryMode::Blob, b"3"),
    ]);
    let target = tree(vec![
        entry("a", EntryMode::Blob, b"4"),
        entry("m", EntryMode::Blob, b"2"),
        entry("z", EntryMode::Blob, b"5"),
    ]);
    let s = store(vec![]);
    let mut rec = Recorder::new();
    let res = Changes(Some(source)).to_obtain_tree(&target, &s, &mut rec);
    assert!(matches!(res, Ok(())));
    assert_eq!(path_names(&rec.events), vec![b"a".to_vec(), b"z".to_vec()]);
    let cs = changes_of(&rec.events);
    assert_eq!(
        cs,
        vec![
            Change::Modification {
                previous_entry_mode: EntryMode::Blob,
                previous_oid: oid(b"1"),
                entry_mode: EntryMode::Blob,
                oid: oid(b"4"),
                path_id: 0,
            },
            Change::Modification {
                previous_entry_mode: EntryMode::Blob,
                previous_oid: oid(b"3"),
                entry_mode: EntryMode::Blob,
                oid: oid(b"5"),
                path_id: 1,
            },
        ]
    );
}

#[test]
fn file_to_directory_deletes_then_adds_contents() {
    let source = tree(vec![entry("p", EntryMode::Blob, b"1")]);
    let target = tree(vec![entry("p", EntryMode::Tree, b"2")]);
    let s = store(vec![(
        oid(b"2"),
        tree(vec![
            entry("x", EntryMode::Blob, b"x"),
            entry("y", EntryMode::Blob, b"y"),
        ]),
    )]);
    let mut rec = Recorder::new();
    let res = Changes(Some(source)).to_obtain_tree(&target, &s, &mut rec);
    assert!(matches!(res, Ok(())));
    let cs = changes_of(&rec.events);
    assert_eq!(
        cs,
        vec![
            Change::Deletion { entry_mode: EntryMode::Blob, oid: oid(b"1"), path_id: 0 },
            Change::Addition { entry_mode: EntryMode::Blob, oid: oid(b"x"), path_id: 1 },
            Change::Addition { entry_mode: EntryMode::Blob, oid: oid(b"y"), path_id: 2 },
        ]
    );
}

#[test]
fn directory_to_file_deletes_directory_and_contents() {
    let source = tree(vec![entry("p", EntryMode::Tree, b"2")]);
    let target = tree(vec![entry("p", EntryMode::Blob, b"1")]);
    let s = store(vec![(oid(b"2"), tree(vec![entry("x", EntryMode::Blob, b"x")]))]);
    let mut rec = Recorder::new();
    let res = Changes(Some(source)).to_obtain_tree(&target, &s, &mut rec);
    assert!(matches!(res, Ok(())));
    let cs = changes_of(&rec.events);
    assert_eq!(
        cs,
        vec![
            Change::Deletion { entry_mode: EntryMode::Tree, oid: oid(b"2"), path_id: 0 },
            Change::Deletion { entry_mode: EntryMode::Blob, oid: oid(b"x"), path_id: 1 },
        ]
    );
}

#[test]
fn cancellation_stops_traversal_at_first_change() {
    let source = tree(vec![
        entry("a", EntryMode::Blob, b"1"),
        entry("z", EntryMode::Blob, b"3"),
    ]);
    let target = tree(vec![
        entry("a", EntryMode::Blob, b"4"),
        entry("z", EntryMode::Blob, b"5"),
    ]);
    let s = store(vec![]);
    let mut rec = CancelAfter::new(0);
    let res = Changes(Some(source)).to_obtain_tree(&target, &s, &mut rec);
    assert!(matches!(res, Err(Error::Cancelled)));
    assert_eq!(rec.events.len(), 2);
    assert!(matches!(&rec.events[0], Event::Path(c, _) if c.name == b"a".to_vec()));
    assert!(matches!(&rec.events[1], Event::Change(_, Action::Cancel)));
}

#[test]
fn modified_subtree_recurses_and_reports_inner_changes() {
    let source = tree(vec![
        entry("a", EntryMode::Blob, b"1"),
        entry("b", EntryMode::Tree, b"2"),
    ]);
    let target = tree(vec![
        entry("a", EntryMode::Blob, b"1"),
        entry("b", EntryMode::Tree, b"3"),
    ]);
    let s = store(vec![
        (oid(b"2"), tree(vec![entry("x", EntryMode::Blob, b"x1")])),
        (
            oid(b"3"),
            tree(vec![
                entry("x", EntryMode::Blob, b"x2"),
                entry("y", EntryMode::Blob, b"y1"),
            ]),
        ),
    ]);
    let mut rec = Recorder::new();
    let res = Changes(Some(source)).to_obtain_tree(&target, &s, &mut rec);
    assert!(matches!(res, Ok(())));
    assert_eq!(path_names(&rec.events), vec![b"b".to_vec(), b"x".to_vec(), b"y".to_vec()]);
    let cs = changes_of(&rec.events);
    assert_eq!(
        cs,
        vec![
            Change::Modification {
                previous_entry_mode: EntryMode::Tree,
                previous_oid: oid(b"2"),
                entry_mode: EntryMode::Tree,
                oid: oid(b"3"),
                path_id: 0,
            },
            Change::Modification {
                previous_entry_mode: EntryMode::Blob,
                previous_oid: oid(b"x1"),
                entry_mode: EntryMode::Blob,
                oid: oid(b"x2"),
                path_id: 1,
            },
            Change::Addition { entry_mode: EntryMode::Blob, oid: oid(b"y1"), path_id: 2 },
        ]
    );
}

#[test]
fn missing_subtree_object_is_fatal() {
    let source = tree(vec![entry("d", EntryMode::Tree, b"absent")]);
    let s = store(vec![]);
    let mut rec = Recorder::new();
    let res = Changes(Some(source)).to_obtain_tree(&tree(vec![]), &s, &mut rec);
    assert!(matches!(res, Err(Error::NotFound(o)) if o == oid(b"absent")));
    // what was reported before the failure stands
    assert_eq!(rec.events.len(), 2);
    assert!(matches!(&rec.events[1], Event::Change(Change::Deletion { .. }, Action::Continue)));
}

#[test]
fn mode_only_change_is_a_modification() {
    let source = tree(vec![entry("run", EntryMode::Blob, b"1")]);
    let target = tree(vec![entry("run", EntryMode::BlobExecutable, b"1")]);
    let s = store(vec![]);
    let mut rec = Recorder::new();
    let res = Changes(Some(source)).to_obtain_tree(&target, &s, &mut rec);
    assert!(matches!(res, Ok(())));
    let cs = changes_of(&rec.events);
    assert_eq!(
        cs,
        vec![Change::Modification {
            previous_entry_mode: EntryMode::Blob,
            previous_oid: oid(b"1"),
            entry_mode: EntryMode::BlobExecutable,
            oid: oid(b"1"),
            path_id: 0,
        }]
    );
}

#[test]
fn canonical_order_sorts_directory_after_dotted_file() {
    // "foo.txt" compares below "foo" the directory, whose key carries a
    // trailing separator: 0x2e ('.') sorts before 0x2f ('/')
    let source = tree(vec![entry("foo.txt", EntryMode::Blob, b"1")]);
    let target = tree(vec![entry("foo", EntryMode::Tree, b"2")]);
    let s = store(vec![(oid(b"2"), tree(vec![]))]);
    let mut rec = Recorder::new();
    let res = Changes(Some(source)).to_obtain_tree(&target, &s, &mut rec);
    assert!(matches!(res, Ok(())));
    let cs = changes_of(&rec.events);
    assert_eq!(
        cs,
        vec![
            Change::Deletion { entry_mode: EntryMode::Blob, oid: oid(b"1"), path_id: 0 },
            Change::Addition { entry_mode: EntryMode::Tree, oid: oid(b"2"), path_id: 1 },
        ]
    );
    assert_eq!(path_names(&rec.events), vec![b"foo.txt".to_vec(), b"foo".to_vec()]);
}

#[test]
fn symlink_and_submodule_entries_are_plain_changes() {
    let source = tree(vec![
        entry("lib", EntryMode::Link, b"1"),
        entry("sub", EntryMode::Commit, b"2"),
    ]);
    let target = tree(vec![
        entry("lib", EntryMode::Link, b"3"),
        entry("sub", EntryMode::Commit, b"2"),
    ]);
    let s = store(vec![]);
    let mut rec = Recorder::new();
    let res = Changes(Some(source)).to_obtain_tree(&target, &s, &mut rec);
    assert!(matches!(res, Ok(())));
    let cs = changes_of(&rec.events);
    assert_eq!(cs.len(), 1);
    assert!(matches!(&cs[0], Change::Modification { .. }));
}

#[test]
fn cancel_allowance_lets_earlier_changes_through() {
    let source = tree(vec![
        entry("a", EntryMode::Blob, b"1"),
        entry("b", EntryMode::Blob, b"2"),
        entry("c", EntryMode::Blob, b"3"),
    ]);
    let target = tree(vec![
        entry("a", EntryMode::Blob, b"4"),
        entry("b", EntryMode::Blob, b"5"),
        entry("c", EntryMode::Blob, b"6"),
    ]);
    let s = store(vec![]);
    let mut rec = CancelAfter::new(1);
    let res = Changes(Some(source)).to_obtain_tree(&target, &s, &mut rec);
    assert!(matches!(res, Err(Error::Cancelled)));
    // path + change for "a", path + change for "b", nothing for "c"
    assert_eq!(rec.events.len(), 4);
    assert!(matches!(&rec.events[1], Event::Change(_, Action::Continue)));
    assert!(matches!(&rec.events[3], Event::Change(_, Action::Cancel)));
}

#[test]
fn empty_against_empty_is_quietly_complete() {
    let s = store(vec![]);
    let mut rec = Recorder::new();
    let res = Changes(None).to_obtain_tree(&tree(vec![]), &s, &mut rec);
    assert!(matches!(res, Ok(())));
    assert_eq!(rec.events.len(), 0);
}

#[test]
fn additions_expand_nested_subtrees_depth_first() {
    let target = tree(vec![entry("top", EntryMode::Tree, b"t1")]);
    let s = store(vec![
        (
            oid(b"t1"),
            tree(vec![
                entry("inner", EntryMode::Tree, b"t2"),
                entry("late", EntryMode::Blob, b"l"),
            ]),
        ),
        (oid(b"t2"), tree(vec![entry("leaf", EntryMode::Blob, b"f")])),
    ]);
    let mut rec = Recorder::new();
    let res = Changes(None).to_obtain_tree(&target, &s, &mut rec);
    assert!(matches!(res, Ok(())));
    assert_eq!(
        path_names(&rec.events),
        vec![b"top".to_vec(), b"inner".to_vec(), b"leaf".to_vec(), b"late".to_vec()]
    );
    let cs = changes_of(&rec.events);
    assert_eq!(cs.len(), 4);
    for c in &cs {
        assert!(matches!(c, Change::Addition { .. }));
    }
}

#[test]
fn cancellation_inside_recursion_stops_the_whole_walk() {
    let source = tree(vec![
        entry("b", EntryMode::Tree, b"2"),
        entry("z", EntryMode::Blob, b"7"),
    ]);
    let target = tree(vec![
        entry("b", EntryMode::Tree, b"3"),
        entry("z", EntryMode::Blob, b"8"),
    ]);
    let s = store(vec![
        (oid(b"2"), tree(vec![entry("x", EntryMode::Blob, b"x1")])),
        (oid(b"3"), tree(vec![entry("x", EntryMode::Blob, b"x2")])),
    ]);
    // let the modification of "b" through, cancel at the one inside it
    let mut rec = CancelAfter::new(1);
    let res = Changes(Some(source)).to_obtain_tree(&target, &s, &mut rec);
    assert!(matches!(res, Err(Error::Cancelled)));
    assert_eq!(path_names(&rec.events), vec![b"b".to_vec(), b"x".to_vec()]);
    assert_eq!(rec.events.len(), 4);
    assert!(matches!(&rec.events[3], Event::Change(Change::Modification { .. }, Action::Cancel)));
}

#[test]
fn store_lookup_scans_past_other_objects() {
    let source = tree(vec![entry("d", EntryMode::Tree, b"want")]);
    let s = store(vec![
        (oid(b"other"), tree(vec![entry("q", EntryMode::Blob, b"9")])),
        (oid(b"want"), tree(vec![entry("x", EntryMode::Blob, b"8")])),
    ]);
    let mut rec = Recorder::new();
    let res = Changes(Some(source)).to_obtain_tree(&tree(vec![]), &s, &mut rec);
    assert!(matches!(res, Ok(())));
    let cs = changes_of(&rec.events);
    assert_eq!(cs.len(), 2);
    assert!(matches!(&cs[1], Change::Deletion { oid: o, .. } if *o == oid(b"8")));
}
