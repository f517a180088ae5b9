//! Step-by-step use of the engine and of the node state machine, the way
//! a concurrent caller drives them.

use dirwalk::node::{NodeMap, NodeState};
use dirwalk::walker::{Entry, ListingOutcome, Report, Walker};

fn file_entry(path: &str) -> Entry {
    Entry { path: path.to_string(), is_dir: false, is_symlink: false }
}

fn symlink_entry(path: &str) -> Entry {
    Entry { path: path.to_string(), is_dir: true, is_symlink: true }
}

fn dir_entry(path: &str) -> Entry {
    Entry { path: path.to_string(), is_dir: true, is_symlink: false }
}

#[test]
fn first_descent_submits_the_root() {
    let mut w = Walker::new("top".to_string());
    let (submitted, reports) = w.walk_until_pending();
    assert_eq!(submitted, vec![0]);
    assert!(reports.is_empty());
    assert_eq!(w.task_queue, vec![0]);
    assert!(w.is_pending(0));
    assert_eq!(w.path_of(0).as_str(), "top");
}

#[test]
fn empty_listing_exhausts_at_once() {
    let mut w = Walker::new("top".to_string());
    let (_, _) = w.walk_until_pending();
    let reports = w.process_one_task(0, ListingOutcome::Success(vec![]));
    assert_eq!(reports, vec![Report::Exhausted(0, "top".to_string())]);
    assert!(w.is_exhausted(0));
    assert_eq!(w.task_queue.len(), 0);
}

#[test]
fn failed_listing_demotes_the_subtree() {
    let mut w = Walker::new("top".to_string());
    let (_, _) = w.walk_until_pending();
    let reports = w.process_one_task(0, ListingOutcome::Failure("no access".to_string()));
    assert_eq!(
        reports,
        vec![
            Report::Failed(0, "top".to_string(), "no access".to_string()),
            Report::Exhausted(0, "top".to_string()),
        ]
    );
    assert!(w.is_exhausted(0));
}

#[test]
fn leaves_and_symlinks_reported_in_listing_order() {
    let mut w = Walker::new("top".to_string());
    let (_, _) = w.walk_until_pending();
    let reports = w.process_one_task(
        0,
        ListingOutcome::Success(vec![
            file_entry("top/x"),
            symlink_entry("top/link"),
            dir_entry("top/d"),
        ]),
    );
    // both the plain file and the symlinked directory are leaves; only
    // the real directory is kept for descent
    assert_eq!(
        reports,
        vec![
            Report::Leaf("top/x".to_string()),
            Report::Leaf("top/link".to_string()),
        ]
    );
    assert!(!w.is_exhausted(0));
    assert_eq!(w.len(), 2);
    assert_eq!(w.path_of(1).as_str(), "top/d");
}

#[test]
fn descent_dispatches_each_child_once() {
    let mut w = Walker::new("top".to_string());
    let (_, _) = w.walk_until_pending();
    let _ = w.process_one_task(0, ListingOutcome::Success(vec![dir_entry("top/d")]));
    let (submitted, reports) = w.walk_until_pending();
    assert_eq!(submitted, vec![1]);
    assert!(reports.is_empty());
    // a second descent finds the child pending and submits nothing more
    let (submitted_again, _) = w.walk_until_pending();
    assert!(submitted_again.is_empty());
    assert_eq!(w.task_queue, vec![1]);
}

#[test]
fn exhausted_child_is_pruned_then_parent_exhausts() {
    let mut w = Walker::new("top".to_string());
    let (_, _) = w.walk_until_pending();
    let _ = w.process_one_task(0, ListingOutcome::Success(vec![dir_entry("top/d")]));
    let (_, _) = w.walk_until_pending();
    let reports = w.process_one_task(1, ListingOutcome::Success(vec![]));
    assert_eq!(reports, vec![Report::Exhausted(1, "top/d".to_string())]);
    // the next descent prunes the exhausted child and exhausts the root
    let (submitted, reports) = w.walk_until_pending();
    assert!(submitted.is_empty());
    assert_eq!(reports, vec![Report::Exhausted(0, "top".to_string())]);
    assert_eq!(w.task_queue.len(), 0);
}

#[test]
fn node_states_move_one_way() {
    let mut nm = NodeMap::new("r".to_string());
    assert!(matches!(nm.lookup(0), NodeState::Unvisited));
    nm.mark_pending(0);
    assert!(matches!(nm.lookup(0), NodeState::Pending));
    nm.resolve(0, vec!["r/a".to_string(), "r/b".to_string()]);
    assert_eq!(nm.len(), 3);
    assert_eq!(nm.path_of(1).as_str(), "r/a");
    assert_eq!(nm.path_of(2).as_str(), "r/b");
    match nm.lookup(0) {
        NodeState::Full(cs) => assert_eq!(cs, &vec![1, 2]),
        _ => panic!("root should be full after listing children"),
    }
    // the first child errors out: pending, then demoted
    nm.mark_pending(1);
    nm.mark_empty(1);
    assert!(matches!(nm.lookup(1), NodeState::Empty));
    nm.prune_child(0, 0);
    match nm.lookup(0) {
        NodeState::Full(cs) => assert_eq!(cs, &vec![2]),
        _ => panic!("root should still be full"),
    }
    // the second child turns out empty
    nm.mark_pending(2);
    nm.resolve(2, vec![]);
    assert!(matches!(nm.lookup(2), NodeState::Empty));
    nm.prune_child(0, 0);
    match nm.lookup(0) {
        NodeState::Full(cs) => assert!(cs.is_empty()),
        _ => panic!("root should be full and drained"),
    }
    nm.exhaust(0);
    assert!(matches!(nm.lookup(0), NodeState::Empty));
}

#[test]
fn random_pick_stays_in_range_over_many_children() {
    // a root with many children exercises the random index draw on a
    // shrinking range: any out-of-range pick would make the walk fail
    let mut w = Walker::new("top".to_string());
    let (_, _) = w.walk_until_pending();
    let mut entries = Vec::new();
    for i in 0..40 {
        entries.push(dir_entry(&format!("top/d{}", i)));
    }
    let _ = w.process_one_task(0, ListingOutcome::Success(entries));
    let (submitted, _) = w.walk_until_pending();
    assert!(!submitted.is_empty());
    // answer every outstanding listing with an empty directory until the
    // walk drains
    while !w.task_queue.is_empty() {
        let id = w.task_queue[0];
        let _ = w.process_one_task(id, ListingOutcome::Success(vec![]));
        if !w.is_exhausted(0) {
            let (_, _) = w.walk_until_pending();
        }
    }
    assert!(w.is_exhausted(0));
    assert_eq!(w.len(), 41);
}
