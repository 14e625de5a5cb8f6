//! The observer protocol: path-component mutations, change records, and the
//! trait a caller implements to consume them.

use vstd::prelude::*;

use crate::hash::{clone_bytes, ObjectId};
use crate::tree::EntryMode;

verus! {

/// The observer's answer to a change record: keep going, or stop the walk.
#[derive(Clone, Copy, Debug, PartialEq, Eq, Structural)]
pub enum Action {
    Continue,
    Cancel,
}

impl Action {
    /// True when the observer declined to continue.
    pub fn cancelled(&self) -> (r: bool)
        ensures
            r == (*self is Cancel),
    {
        matches!(self, Action::Cancel)
    }
}

/// How a path component is applied at the current depth. The engine only
/// ever creates or overwrites the component in place.
#[derive(Clone, Copy, Debug, PartialEq, Eq, Structural)]
pub enum PathComponentUpdateMode {
    Replace,
}

/// One path component: an entry name plus a numeric identity drawn from a
/// counter that grows monotonically over one diff invocation, letting an
/// observer key its own incremental path representation by identity.
#[derive(Clone, Debug, PartialEq, Eq)]
pub struct PathComponent {
    pub name: Vec<u8>,
    pub id: u64,
}

/// The successor of a path identity. The counter holds at its largest
/// representable value instead of wrapping around.
pub open spec fn bump(id: u64) -> u64 {
    if id < u64::MAX {
        (id + 1) as u64
    } else {
        id
    }
}

impl PathComponent {
    /// A component for `name` carrying the current identity; the counter
    /// advances so the next component gets a fresh identity.
    pub fn new(name: &Vec<u8>, path_id: &mut u64) -> (c: PathComponent)
        ensures
            c.name@ == name@,
            c.id == *old(path_id),
            *final(path_id) == bump(*old(path_id)),
    {
        let id = *path_id;
        if *path_id < u64::MAX {
            *path_id = *path_id + 1;
        }
        PathComponent { name: clone_bytes(name), id }
    }
}

/// A reportable structural change at one path.
#[derive(Clone, Debug, PartialEq, Eq)]
pub enum Change {
    /// The entry exists only on the target side.
    Addition { entry_mode: EntryMode, oid: ObjectId, path_id: u64 },
    /// The entry exists only on the source side, or an entry of the old
    /// kind is removed ahead of repopulating the path with the new kind.
    Deletion { entry_mode: EntryMode, oid: ObjectId, path_id: u64 },
    /// The same name exists on both sides with compatible kinds, but mode
    /// or content hash differs.
    Modification {
        previous_entry_mode: EntryMode,
        previous_oid: ObjectId,
        entry_mode: EntryMode,
        oid: ObjectId,
        path_id: u64,
    },
}

/// The mathematical value of a change record.
pub enum ChangeModel {
    Addition { entry_mode: EntryMode, oid: Seq<u8>, path_id: u64 },
    Deletion { entry_mode: EntryMode, oid: Seq<u8>, path_id: u64 },
    Modification {
        previous_entry_mode: EntryMode,
        previous_oid: Seq<u8>,
        entry_mode: EntryMode,
        oid: Seq<u8>,
        path_id: u64,
    },
}

impl View for Change {
    type V = ChangeModel;

    open spec fn view(&self) -> ChangeModel {
        match self {
            Change::Addition { entry_mode, oid, path_id } => ChangeModel::Addition {
                entry_mode: *entry_mode,
                oid: oid@,
                path_id: *path_id,
            },
            Change::Deletion { entry_mode, oid, path_id } => ChangeModel::Deletion {
                entry_mode: *entry_mode,
                oid: oid@,
                path_id: *path_id,
            },
            Change::Modification {
                previous_entry_mode,
                previous_oid,
                entry_mode,
                oid,
                path_id,
            } => ChangeModel::Modification {
                previous_entry_mode: *previous_entry_mode,
                previous_oid: previous_oid@,
                entry_mode: *entry_mode,
                oid: oid@,
                path_id: *path_id,
            },
        }
    }
}

/// Everything an observer is told, in order: path-component mutations and
/// change records, each change together with the answer the observer gave.
#[derive(Clone, Debug, PartialEq, Eq)]
pub enum Event {
    Path(PathComponent, PathComponentUpdateMode),
    Change(Change, Action),
}

/// The mathematical value of one observer notification.
pub enum EventModel {
    Path { name: Seq<u8>, id: u64 },
    Change(ChangeModel, Action),
}

impl View for Event {
    type V = EventModel;

    open spec fn view(&self) -> EventModel {
        match self {
            Event::Path(c, _mode) => EventModel::Path { name: c.name@, id: c.id },
            Event::Change(c, a) => EventModel::Change(c@, *a),
        }
    }
}

/// The mathematical value of a sequence of notifications.
pub open spec fn events_model(s: Seq<Event>) -> Seq<EventModel> {
    Seq::new(s.len(), |i: int| s[i]@)
}

/// The observer of a diff: it is told each path-component mutation and each
/// change, and may cancel the walk in answer to a change. An implementation
/// exposes the log of everything it was told as its abstract state, so the
/// engine's contract can speak about exactly what was emitted.
pub trait Record {
    /// The notifications received so far, oldest first.
    spec fn events(&self) -> Seq<EventModel>;

    /// Observe a path-component mutation at the current depth.
    fn update_path_component(&mut self, component: PathComponent, mode: PathComponentUpdateMode)
        ensures
            final(self).events() == old(self).events().push(
                EventModel::Path { name: component.name@, id: component.id },
            ),
    ;

    /// Observe one change; the answer decides whether the walk goes on.
    /// The log keeps the change together with the answer given, so a
    /// caller's contract can tell a cancelled walk from a completed one.
    fn record(&mut self, change: Change) -> (r: Action)
        ensures
            final(self).events() == old(self).events().push(EventModel::Change(change@, r)),
    ;
}

/// An observer that collects every notification and never cancels.
pub struct Recorder {
    pub events: Vec<Event>,
}

impl Recorder {
    /// An empty recorder.
    pub fn new() -> (r: Recorder)
        ensures
            r.events@ == Seq::<Event>::empty(),
    {
        Recorder { events: Vec::new() }
    }
}

impl Record for Recorder {
    open spec fn events(&self) -> Seq<EventModel> {
        events_model(self.events@)
    }

    fn update_path_component(&mut self, component: PathComponent, mode: PathComponentUpdateMode) {
        let ghost name = component.name@;
        let ghost id = component.id;
        self.events.push(Event::Path(component, mode));
        proof {
            assert(self.events() =~= old(self).events().push(EventModel::Path { name, id }));
        }
    }

    fn record(&mut self, change: Change) -> (r: Action) {
        let ghost c = change@;
        self.events.push(Event::Change(change, Action::Continue));
        proof {
            assert(self.events() =~= old(self).events().push(
                EventModel::Change(c, Action::Continue),
            ));
        }
        Action::Continue
    }
}

/// An observer that collects every notification and cancels once its
/// allowance of change records runs out: with `remaining` zero it cancels
/// in answer to the very first change.
pub struct CancelAfter {
    pub events: Vec<Event>,
    pub remaining: u64,
}

impl CancelAfter {
    /// A recorder that answers `Cancel` to the first change after having
    /// let `remaining` changes through.
    pub fn new(remaining: u64) -> (r: CancelAfter)
        ensures
            r.events@ == Seq::<Event>::empty(),
            r.remaining == remaining,
    {
        CancelAfter { events: Vec::new(), remaining }
    }
}

impl Record for CancelAfter {
    open spec fn events(&self) -> Seq<EventModel> {
        events_model(self.events@)
    }

    fn update_path_component(&mut self, component: PathComponent, mode: PathComponentUpdateMode) {
        let ghost name = component.name@;
        let ghost id = component.id;
        self.events.push(Event::Path(component, mode));
        proof {
            assert(self.events() =~= old(self).events().push(EventModel::Path { name, id }));
        }
    }

    fn record(&mut self, change: Change) -> (r: Action) {
        let action: Action;
        if self.remaining == 0 {
            action = Action::Cancel;
        } else {
            self.remaining = self.remaining - 1;
            action = Action::Continue;
        }
        let ghost c = change@;
        self.events.push(Event::Change(change, action));
        proof {
            assert(self.events() =~= old(self).events().push(EventModel::Change(c, action)));
        }
        action
    }
}

} // verus!
