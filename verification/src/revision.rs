//! Revision specifications: the ways a parsed revision expression asks for
//! commits to be included or excluded.

use vstd::prelude::*;

use crate::hash::ObjectId;

verus! {

/// How to interpret a revision specification, or `revspec`.
#[derive(Debug, Copy, Clone, PartialOrd, PartialEq, Ord, Eq, Hash, Structural)]
pub enum Kind {
    /// Include commits reachable from this revision, i.e. the revision and
    /// its ancestors. Created by `a`.
    IncludeReachable,
    /// Exclude commits reachable from this revision, i.e. the revision and
    /// its ancestors. Created by `^a`.
    ExcludeReachable,
    /// Every commit reachable from `b` but not from `a`. Created by `a..b`.
    RangeBetween,
    /// Every commit reachable through either `a` or `b` but no commit
    /// reachable by both. Created by `a...b`.
    ReachableToMergeBase,
    /// Include every commit of all parents of `a`, but not `a` itself.
    /// Created by `a^@`.
    IncludeReachableFromParents,
    /// Exclude every commit of all parents of `a`, but not `a` itself.
    /// Created by `a^!`.
    ExcludeReachableFromParents,
}

impl Default for Kind {
    fn default() -> (k: Self)
        ensures
            k == Kind::IncludeReachable,
    {
        Kind::IncludeReachable
    }
}

/// A parsed revision specification: the hashes it names, arranged by form.
#[derive(Debug, Clone)]
pub enum Spec {
    /// A single revision whose reachable commits are included: `a`.
    Include(ObjectId),
    /// A single revision whose reachable commits are excluded: `^a`.
    Exclude(ObjectId),
    /// A range between two revisions: `a..b`.
    Range { from: ObjectId, to: ObjectId },
    /// The symmetric difference of two revisions' histories: `a...b`.
    Merge { theirs: ObjectId, ours: ObjectId },
    /// All parents of a revision, but not the revision itself: `a^@`.
    IncludeOnlyParents { from_exclusive: ObjectId },
    /// Exclude all parents of a revision, but not the revision itself:
    /// `a^!`.
    ExcludeFromParents { from: ObjectId },
}

impl Spec {
    /// The kind a specification of this form is interpreted under.
    pub open spec fn kind_spec(&self) -> Kind {
        match self {
            Spec::Include(_) => Kind::IncludeReachable,
            Spec::Exclude(_) => Kind::ExcludeReachable,
            Spec::Range { .. } => Kind::RangeBetween,
            Spec::Merge { .. } => Kind::ReachableToMergeBase,
            Spec::IncludeOnlyParents { .. } => Kind::IncludeReachableFromParents,
            Spec::ExcludeFromParents { .. } => Kind::ExcludeReachableFromParents,
        }
    }

    /// Return the kind of this specification.
    pub fn kind(&self) -> (k: Kind)
        ensures
            k == self.kind_spec(),
    {
        match self {
            Spec::Include(_) => Kind::IncludeReachable,
            Spec::Exclude(_) => Kind::ExcludeReachable,
            Spec::Range { .. } => Kind::RangeBetween,
            Spec::Merge { .. } => Kind::ReachableToMergeBase,
            Spec::IncludeOnlyParents { .. } => Kind::IncludeReachableFromParents,
            Spec::ExcludeFromParents { .. } => Kind::ExcludeReachableFromParents,
        }
    }
}

} // verus!
