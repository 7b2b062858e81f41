use git_dit::error::Error;
use git_dit::iter::{IssueMessagesIter, ReferenceDeletingIter, RefsReferringTo};
use git_dit::refs::{RefDir, RefRole, RefScope, Reference};
use git_dit::store::Store;
use git_dit::traversal::Traversal;

fn leaf(name: u64, issue: u64, target: u64) -> Reference {
    Reference {
        name,
        scope: RefScope::Local,
        role: RefRole::Leaf,
        issue,
        target,
    }
}

fn head(name: u64, issue: u64, target: u64) -> Reference {
    Reference {
        name,
        scope: RefScope::Local,
        role: RefRole::Head,
        issue,
        target,
    }
}

fn diamond() -> Store {
    // 4 -> {2, 3}; 2 -> 1; 3 -> 1; 1 is the root.
    let mut store = Store::new();
    assert!(store.add_node(1, vec![]));
    assert!(store.add_node(2, vec![1]));
    assert!(store.add_node(3, vec![1]));
    assert!(store.add_node(4, vec![2, 3]));
    store
}

#[test]
fn traversal_covers_all_ancestors_once() {
    let store = diamond();
    let mut t = Traversal::new(false);
    t.push(4);

    let mut seen = Vec::new();
    while let Some(id) = t.next(&store).expect("resolvable") {
        seen.push(id);
    }
    seen.sort();
    assert_eq!(seen, vec![1, 2, 3, 4]);
}

#[test]
fn traversal_first_parent_only() {
    let store = diamond();
    let mut t = Traversal::new(true);
    t.push(4);

    let mut seen = Vec::new();
    while let Some(id) = t.next(&store).expect("resolvable") {
        seen.push(id);
    }
    seen.sort();
    // Only the first-parent line 4 -> 2 -> 1; node 3 stays unvisited.
    assert_eq!(seen, vec![1, 2, 4]);
}

#[test]
fn traversal_reports_unresolvable_seed() {
    let store = diamond();
    let mut t = Traversal::new(false);
    t.push(99);

    assert_eq!(t.next(&store).unwrap_err(), Error::LookupError(99));
}

#[test]
fn reverse_index_emits_watched_buckets() {
    let store = diamond();
    let mut t = Traversal::new(false);
    t.push(4);

    let mut it = RefsReferringTo::new(t);
    let r2a = leaf(21, 1, 2);
    let r2b = leaf(22, 1, 2);
    let r9 = leaf(29, 1, 9);
    it.watch_refs(vec![r2a, r2b, r9]);

    let mut out = Vec::new();
    it.collect_result_into(&store, &mut out).expect("resolvable");
    // Node 9 is never visited, so its reference is never emitted; the two
    // references sharing target 2 fire together, once each, in watch order.
    assert_eq!(out, vec![r2a, r2b]);
}

#[test]
fn reverse_index_step_by_step() {
    let store = diamond();
    let mut t = Traversal::new(false);
    t.push(2);

    let mut it = RefsReferringTo::new(t);
    let r1 = leaf(31, 1, 1);
    it.watch_ref(r1);

    let first = it.next(&store).expect("resolvable");
    assert_eq!(first, Some(r1));
    let second = it.next(&store).expect("resolvable");
    assert_eq!(second, None);
}

#[test]
fn issue_messages_iter_stops_at_initial_message() {
    let store = diamond();
    let mut dir = RefDir::new();
    // Node 1 is the root of issue 1.
    assert!(dir.add_ref(head(10, 1, 4)));

    let mut it = IssueMessagesIter::new(4);
    let mut seen = Vec::new();
    while let Some(step) = it.next(&store, &dir) {
        seen.push(step.expect("resolvable"));
    }
    // First parents from 4, until the initial message 1 of issue 1 has
    // been reported, inclusively.
    assert_eq!(seen, vec![4, 2, 1]);
}

#[test]
fn issue_messages_iter_reports_missing_node() {
    let mut store = Store::new();
    assert!(store.add_node(5, vec![6]));
    let dir = RefDir::new();

    let mut it = IssueMessagesIter::new(5);
    assert_eq!(it.next(&store, &dir), Some(Ok(5)));
    assert_eq!(it.next(&store, &dir), Some(Err(Error::LookupError(6))));
    assert_eq!(it.next(&store, &dir), None);
}

#[test]
fn deleting_iter_deletes_in_sequence_order() {
    let mut dir = RefDir::new();
    let a = leaf(1, 1, 10);
    let b = leaf(2, 1, 11);
    assert!(dir.add_ref(a));
    assert!(dir.add_ref(b));

    let mut it = ReferenceDeletingIter::new(vec![b, a]);
    assert!(it.next(&mut dir).expect("first").is_ok());
    assert_eq!(dir.len(), 1);
    assert!(dir.contains_name(1));
    assert!(it.next(&mut dir).expect("second").is_ok());
    assert_eq!(dir.len(), 0);
    assert!(it.next(&mut dir).is_none());
}

#[test]
fn directory_delete_missing_name_fails() {
    let mut dir = RefDir::new();
    assert!(dir.add_ref(leaf(1, 1, 10)));
    assert_eq!(dir.delete(7).unwrap_err(), Error::DeletionError(7));
    assert_eq!(dir.len(), 1);
}

#[test]
fn directory_refuses_duplicate_names() {
    let mut dir = RefDir::new();
    assert!(dir.add_ref(leaf(1, 1, 10)));
    assert!(!dir.add_ref(leaf(1, 2, 11)));
    assert_eq!(dir.len(), 1);
}
