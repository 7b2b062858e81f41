use git_dit::error::Error;
use git_dit::programs::first_defined;
use git_dit::refs::{RefDir, RefRole, RefScope, Reference};
use git_dit::repository::{find_issue, find_tree_init};
use git_dit::store::Store;

fn head(name: u64, issue: u64, target: u64) -> Reference {
    Reference {
        name,
        scope: RefScope::Local,
        role: RefRole::Head,
        issue,
        target,
    }
}

#[test]
fn find_issue_requires_a_head() {
    let mut dir = RefDir::new();
    assert!(dir.add_ref(head(10, 1, 4)));

    assert_eq!(find_issue(&dir, 1), Ok(1));
    assert_eq!(find_issue(&dir, 2), Err(Error::LookupError(2)));
}

#[test]
fn find_tree_init_follows_first_parents() {
    // 3 -> 2 -> 1, and 1 roots an issue.
    let mut store = Store::new();
    assert!(store.add_node(1, vec![]));
    assert!(store.add_node(2, vec![1]));
    assert!(store.add_node(3, vec![2]));
    let mut dir = RefDir::new();
    assert!(dir.add_ref(head(10, 1, 3)));

    assert_eq!(find_tree_init(&store, &dir, 3), Ok(1));
}

#[test]
fn find_tree_init_without_head_fails() {
    let mut store = Store::new();
    assert!(store.add_node(1, vec![]));
    assert!(store.add_node(2, vec![1]));
    let dir = RefDir::new();

    assert_eq!(find_tree_init(&store, &dir, 2), Err(Error::NoTreeInitFound(2)));
}

#[test]
fn find_tree_init_reports_missing_parent() {
    let mut store = Store::new();
    assert!(store.add_node(2, vec![9]));
    let dir = RefDir::new();

    assert_eq!(find_tree_init(&store, &dir, 2), Err(Error::LookupError(9)));
}

#[test]
fn first_defined_picks_first_source() {
    let values = vec![None, Some(String::from("nano")), Some(String::from("vi"))];
    assert_eq!(first_defined(&values), Some(1));

    let none: Vec<Option<String>> = vec![None, None];
    assert_eq!(first_defined(&none), None);
}

#[test]
fn find_tree_init_stops_on_first_parent_cycle() {
    // A first-parent cycle between 1 and 2; no head anywhere.
    let mut store = Store::new();
    assert!(store.add_node(1, vec![2]));
    assert!(store.add_node(2, vec![1]));
    let dir = RefDir::new();

    assert_eq!(find_tree_init(&store, &dir, 1), Err(Error::NoTreeInitFound(1)));
}
