use git_diff::hash::ObjectId;
use git_diff::revision::{Kind, Spec};

fn oid(bytes: &[u8]) -> ObjectId {
    ObjectId { bytes: bytes.to_vec() }
}

#[test]
fn default_kind_includes_reachable() {
    assert_eq!(Kind::default(), Kind::IncludeReachable);
}

#[test]
fn kind_follows_the_spec_form() {
    assert_eq!(Spec::Include(oid(b"a")).kind(), Kind::IncludeReachable);
    assert_eq!(Spec::Exclude(oid(b"a")).kind(), Kind::ExcludeReachable);
    assert_eq!(
        Spec::Range { from: oid(b"a"), to: oid(b"b") }.kind(),
        Kind::RangeBetween,
    );
    assert_eq!(
        Spec::Merge { theirs: oid(b"a"), ours: oid(b"b") }.kind(),
        Kind::ReachableToMergeBase,
    );
    assert_eq!(
        Spec::IncludeOnlyParents { from_exclusive: oid(b"a") }.kind(),
        Kind::IncludeReachableFromParents,
    );
    assert_eq!(
        Spec::ExcludeFromParents { from: oid(b"a") }.kind(),
        Kind::ExcludeReachableFromParents,
    );
}

#[test]
fn kinds_order_and_hash_consistently() {
    assert!(Kind::IncludeReachable < Kind::ExcludeReachable);
    assert_eq!(Kind::default().clone(), Kind::IncludeReachable);
}
