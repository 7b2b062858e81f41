use git_dit::error::Error;
use git_dit::gc::{CollectableRefs, Issue, ReferenceCollectionSpec};
use git_dit::refs::{RefDir, RefRole, RefScope, Reference};
use git_dit::store::Store;

fn reference(name: u64, scope: RefScope, role: RefRole, issue: u64, target: u64) -> Reference {
    Reference { name, scope, role, issue, target }
}

fn local_head(name: u64, issue: u64, target: u64) -> Reference {
    reference(name, RefScope::Local, RefRole::Head, issue, target)
}

fn local_leaf(name: u64, issue: u64, target: u64) -> Reference {
    reference(name, RefScope::Local, RefRole::Leaf, issue, target)
}

fn remote_head(name: u64, issue: u64, target: u64) -> Reference {
    reference(name, RefScope::Remote, RefRole::Head, issue, target)
}

fn remote_leaf(name: u64, issue: u64, target: u64) -> Reference {
    reference(name, RefScope::Remote, RefRole::Leaf, issue, target)
}

fn issue_with(
    id: u64,
    head: Reference,
    leaves: Vec<Reference>,
    remote_heads: Vec<Reference>,
    remote_leaves: Vec<Reference>,
) -> Issue {
    Issue {
        id,
        local_head: head,
        local_leaves: leaves,
        remote_heads,
        remote_leaves,
    }
}

// Leaf subsumption: root node A; head `h1` at A; leaf `l1` at A. The leaves
// pass is seeded with A via the head, `l1`'s watch entry at A fires, and the
// head itself is never watched in that pass.
#[test]
fn leaf_subsumption() {
    let mut store = Store::new();
    assert!(store.add_node(1, vec![]));

    let h1 = local_head(10, 1, 1);
    let l1 = local_leaf(11, 1, 1);
    let issues = vec![issue_with(1, h1, vec![l1], vec![], vec![])];

    let removable = CollectableRefs::new(issues).into_refs(&store).expect("batch");
    assert_eq!(removable.len(), 1);
    assert_eq!(removable[0], l1);
}

// Head default-safety: under the default configuration a local head stays,
// even when a remote head targets the identical node.
#[test]
fn head_not_collected_by_default() {
    let mut store = Store::new();
    assert!(store.add_node(1, vec![]));

    let h = local_head(10, 1, 1);
    let r = remote_head(20, 1, 1);
    let issues = vec![issue_with(1, h, vec![], vec![r], vec![])];

    let removable = CollectableRefs::new(issues).into_refs(&store).expect("batch");
    assert!(removable.is_empty());
}

// Remote-backed head collection: remote head at B, a descendant of A; with
// `BackedByRemoteHead` the head pass seeded at B visits A and the local head
// at A becomes removable.
#[test]
fn head_collected_when_backed_by_remote() {
    let mut store = Store::new();
    assert!(store.add_node(1, vec![]));
    assert!(store.add_node(2, vec![1]));

    let h = local_head(10, 1, 1);
    let r = remote_head(20, 1, 2);
    let issues = vec![issue_with(1, h, vec![], vec![r], vec![])];

    let removable = CollectableRefs::new(issues)
        .collect_heads(ReferenceCollectionSpec::BackedByRemoteHead)
        .into_refs(&store)
        .expect("batch");
    assert_eq!(removable.len(), 1);
    assert_eq!(removable[0], h);
}

// No-op idempotence: default configuration and no subsumed leaves yield an
// empty removable set, run after run.
#[test]
fn noop_batch_is_idempotent() {
    let mut store = Store::new();
    assert!(store.add_node(1, vec![]));
    assert!(store.add_node(2, vec![1]));

    for _ in 0..2 {
        let h = local_head(10, 1, 1);
        let l = local_leaf(11, 1, 2);
        let issues = vec![issue_with(1, h, vec![l], vec![], vec![])];
        let removable = CollectableRefs::new(issues).into_refs(&store).expect("batch");
        assert!(removable.is_empty());
    }
}

// A leaf is never its own justification: a lone leaf whose target nothing
// else retains stays, even though its own target is in the store.
#[test]
fn leaf_not_justified_by_itself() {
    let mut store = Store::new();
    assert!(store.add_node(1, vec![]));
    assert!(store.add_node(2, vec![1]));
    assert!(store.add_node(3, vec![2]));

    // Head at node 2; leaf at node 3 which is *not* an ancestor of 2.
    let h = local_head(10, 1, 2);
    let l = local_leaf(11, 1, 3);
    let issues = vec![issue_with(1, h, vec![l], vec![], vec![])];

    let removable = CollectableRefs::new(issues).into_refs(&store).expect("batch");
    assert!(removable.is_empty());
}

// A leaf whose target is a proper ancestor of another leaf's target is
// subsumed through that leaf's parents.
#[test]
fn leaf_subsumed_by_other_leaf_parents() {
    let mut store = Store::new();
    assert!(store.add_node(1, vec![]));
    assert!(store.add_node(2, vec![1]));
    assert!(store.add_node(3, vec![2]));

    let h = local_head(10, 1, 1);
    let l_old = local_leaf(11, 1, 2);
    let l_new = local_leaf(12, 1, 3);
    let issues = vec![issue_with(1, h, vec![l_old, l_new], vec![], vec![])];

    let removable = CollectableRefs::new(issues).into_refs(&store).expect("batch");
    // The old leaf's target 2 is seeded as the new leaf's parent; the new
    // leaf's own target 3 is seeded by nothing.
    assert_eq!(removable.len(), 1);
    assert_eq!(removable[0], l_old);
}

// Considering remote references: a local leaf mirrored by a remote leaf at
// the same node becomes collectable, and only then.
#[test]
fn remote_leaf_consideration() {
    let mut store = Store::new();
    assert!(store.add_node(1, vec![]));
    assert!(store.add_node(2, vec![1]));

    let h = local_head(10, 1, 1);
    let l = local_leaf(11, 1, 2);
    let rl = remote_leaf(21, 1, 2);

    let issues = vec![issue_with(1, h, vec![l], vec![], vec![rl])];
    let removable = CollectableRefs::new(issues).into_refs(&store).expect("batch");
    assert!(removable.is_empty());

    let issues = vec![issue_with(1, h, vec![l], vec![], vec![rl])];
    let removable = CollectableRefs::new(issues)
        .consider_remote_refs()
        .into_refs(&store)
        .expect("batch");
    assert_eq!(removable.len(), 1);
    assert_eq!(removable[0], l);
}

// Exactly-once emission: two references sharing one target fire together,
// once each, in watch order.
#[test]
fn shared_target_fires_each_once() {
    let mut store = Store::new();
    assert!(store.add_node(1, vec![]));

    let h = local_head(10, 1, 1);
    let l1 = local_leaf(11, 1, 1);
    let l2 = local_leaf(12, 1, 1);
    let issues = vec![issue_with(1, h, vec![l1, l2], vec![], vec![])];

    let removable = CollectableRefs::new(issues).into_refs(&store).expect("batch");
    assert_eq!(removable.len(), 2);
    assert_eq!(removable[0], l1);
    assert_eq!(removable[1], l2);
}

// Fail-fast: a leaf whose target cannot be resolved aborts the whole batch
// with a lookup error.
#[test]
fn unresolvable_leaf_aborts_batch() {
    let mut store = Store::new();
    assert!(store.add_node(1, vec![]));

    let h = local_head(10, 1, 1);
    let l = local_leaf(11, 1, 99);
    let issues = vec![issue_with(1, h, vec![l], vec![], vec![])];

    let err = CollectableRefs::new(issues).into_refs(&store).unwrap_err();
    assert_eq!(err, Error::LookupError(99));
}

// Partial-consumption safety: draining one element of a three-element
// removable sequence deletes exactly one reference and leaves the other two,
// and the rest of the directory, intact.
#[test]
fn partial_consumption_deletes_prefix_only() {
    let mut store = Store::new();
    assert!(store.add_node(1, vec![]));

    let h = local_head(10, 1, 1);
    let l1 = local_leaf(11, 1, 1);
    let l2 = local_leaf(12, 1, 1);
    let l3 = local_leaf(13, 1, 1);

    let mut dir = RefDir::new();
    assert!(dir.add_ref(h));
    assert!(dir.add_ref(l1));
    assert!(dir.add_ref(l2));
    assert!(dir.add_ref(l3));

    let issues = vec![issue_with(1, h, vec![l1, l2, l3], vec![], vec![])];
    let mut collector = CollectableRefs::new(issues)
        .into_collector(&store)
        .expect("batch");

    let first = collector.next(&mut dir).expect("one element");
    assert!(first.is_ok());

    assert_eq!(dir.len(), 3);
    assert!(!dir.contains_name(11));
    assert!(dir.contains_name(10));
    assert!(dir.contains_name(12));
    assert!(dir.contains_name(13));
}

// Draining the collector fully performs the whole collection.
#[test]
fn full_drain_collects_everything() {
    let mut store = Store::new();
    assert!(store.add_node(1, vec![]));

    let h = local_head(10, 1, 1);
    let l1 = local_leaf(11, 1, 1);
    let l2 = local_leaf(12, 1, 1);

    let mut dir = RefDir::new();
    assert!(dir.add_ref(h));
    assert!(dir.add_ref(l1));
    assert!(dir.add_ref(l2));

    let issues = vec![issue_with(1, h, vec![l1, l2], vec![], vec![])];
    let mut collector = CollectableRefs::new(issues)
        .into_collector(&store)
        .expect("batch");
    while let Some(step) = collector.next(&mut dir) {
        assert!(step.is_ok());
    }

    assert_eq!(dir.len(), 1);
    assert!(dir.contains_name(10));
}

// A reference already removed by someone else is a recoverable miss: the
// deleting iterator reports it and the directory stays as it was.
#[test]
fn deleting_vanished_reference_reports_error() {
    let mut store = Store::new();
    assert!(store.add_node(1, vec![]));

    let h = local_head(10, 1, 1);
    let l1 = local_leaf(11, 1, 1);

    let mut dir = RefDir::new();
    assert!(dir.add_ref(h));
    // l1 is not in the directory.

    let issues = vec![issue_with(1, h, vec![l1], vec![], vec![])];
    let mut collector = CollectableRefs::new(issues)
        .into_collector(&store)
        .expect("batch");
    let step = collector.next(&mut dir).expect("one element");
    assert_eq!(step.unwrap_err(), Error::DeletionError(11));
    assert_eq!(dir.len(), 1);
    assert!(dir.contains_name(10));
}
