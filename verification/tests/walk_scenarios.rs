//! Whole-walk scenarios over in-memory trees.

use dirwalk::tree::{random_walk, DirTree, TreeDir, TreeEntry};
use dirwalk::walker::Report;

fn leaf(path: &str) -> TreeEntry {
    TreeEntry { path: path.to_string(), is_dir: false, is_symlink: false, node: 0 }
}

fn symlink_dir(path: &str) -> TreeEntry {
    TreeEntry { path: path.to_string(), is_dir: true, is_symlink: true, node: 0 }
}

fn subdir(path: &str, node: usize) -> TreeEntry {
    TreeEntry { path: path.to_string(), is_dir: true, is_symlink: false, node }
}

fn listed(entries: Vec<TreeEntry>) -> TreeDir {
    TreeDir { error: None, entries }
}

fn failing(msg: &str) -> TreeDir {
    TreeDir { error: Some(msg.to_string()), entries: Vec::new() }
}

fn count_leaf(reports: &[Report], path: &str) -> usize {
    reports.iter().filter(|r| matches!(r, Report::Leaf(p) if p == path)).count()
}

fn count_exhausted(reports: &[Report], path: &str) -> usize {
    reports.iter().filter(|r| matches!(r, Report::Exhausted(_, p) if p == path)).count()
}

fn exhausted_position(reports: &[Report], path: &str) -> usize {
    reports
        .iter()
        .position(|r| matches!(r, Report::Exhausted(_, p) if p == path))
        .expect("missing exhausted report")
}

#[test]
fn scenario_empty_root() {
    let tree = DirTree { root_path: "root".to_string(), dirs: vec![listed(vec![])] };
    let (walker, reports) = random_walk(&tree);
    assert_eq!(reports, vec![Report::Exhausted(0, "root".to_string())]);
    assert!(walker.is_exhausted(0));
    assert_eq!(walker.task_queue.len(), 0);
}

#[test]
fn scenario_file_and_empty_dir() {
    let tree = DirTree {
        root_path: "root".to_string(),
        dirs: vec![
            listed(vec![leaf("root/a.txt"), subdir("root/sub", 1)]),
            listed(vec![]),
        ],
    };
    let (_, reports) = random_walk(&tree);
    assert_eq!(reports.len(), 3);
    assert_eq!(count_leaf(&reports, "root/a.txt"), 1);
    assert_eq!(count_exhausted(&reports, "root/sub"), 1);
    assert_eq!(count_exhausted(&reports, "root"), 1);
    assert!(exhausted_position(&reports, "root/sub") < exhausted_position(&reports, "root"));
}

#[test]
fn scenario_deep_chain() {
    let tree = DirTree {
        root_path: "root".to_string(),
        dirs: vec![
            listed(vec![subdir("root/d1", 1)]),
            listed(vec![subdir("root/d1/d2", 2)]),
            listed(vec![subdir("root/d1/d2/d3", 3)]),
            listed(vec![leaf("root/d1/d2/d3/file.txt")]),
        ],
    };
    let (_, reports) = random_walk(&tree);
    assert_eq!(count_leaf(&reports, "root/d1/d2/d3/file.txt"), 1);
    for p in ["root", "root/d1", "root/d1/d2", "root/d1/d2/d3"] {
        assert_eq!(count_exhausted(&reports, p), 1);
    }
    let p3 = exhausted_position(&reports, "root/d1/d2/d3");
    let p2 = exhausted_position(&reports, "root/d1/d2");
    let p1 = exhausted_position(&reports, "root/d1");
    let p0 = exhausted_position(&reports, "root");
    assert!(p3 < p2 && p2 < p1 && p1 < p0);
}

#[test]
fn scenario_listing_failure() {
    let tree = DirTree {
        root_path: "root".to_string(),
        dirs: vec![
            listed(vec![
                subdir("root/forbidden", 1),
                subdir("root/ok", 2),
                leaf("root/b.txt"),
            ]),
            failing("permission denied"),
            listed(vec![leaf("root/ok/c.txt")]),
        ],
    };
    let (walker, reports) = random_walk(&tree);
    let failures: Vec<&Report> =
        reports.iter().filter(|r| matches!(r, Report::Failed(_, _, _))).collect();
    assert_eq!(failures.len(), 1);
    match failures[0] {
        Report::Failed(_, p, msg) => {
            assert_eq!(p, "root/forbidden");
            assert_eq!(msg, "permission denied");
        }
        _ => unreachable!(),
    }
    // the failing path is still reported exhausted, and the rest of the
    // tree completes normally
    assert_eq!(count_exhausted(&reports, "root/forbidden"), 1);
    assert_eq!(count_leaf(&reports, "root/b.txt"), 1);
    assert_eq!(count_leaf(&reports, "root/ok/c.txt"), 1);
    assert_eq!(count_exhausted(&reports, "root/ok"), 1);
    assert_eq!(count_exhausted(&reports, "root"), 1);
    assert_eq!(reports.len(), 6);
    assert!(walker.is_exhausted(0));
}

#[test]
fn failed_subtree_is_never_descended_into() {
    // the failing directory's own subtree stays unexplored: its listing
    // is demoted to exhausted, never retried, and nothing below it is
    // ever reported
    let tree = DirTree {
        root_path: "root".to_string(),
        dirs: vec![
            listed(vec![subdir("root/bad", 1), leaf("root/seen.txt")]),
            TreeDir {
                error: Some("permission denied".to_string()),
                entries: vec![subdir("root/bad/below", 2), leaf("root/bad/hidden.txt")],
            },
            listed(vec![leaf("root/bad/below/lost.txt")]),
        ],
    };
    let (walker, reports) = random_walk(&tree);
    assert_eq!(count_leaf(&reports, "root/seen.txt"), 1);
    assert_eq!(count_leaf(&reports, "root/bad/hidden.txt"), 0);
    assert_eq!(count_leaf(&reports, "root/bad/below/lost.txt"), 0);
    assert_eq!(count_exhausted(&reports, "root/bad"), 1);
    assert_eq!(count_exhausted(&reports, "root/bad/below"), 0);
    assert_eq!(count_exhausted(&reports, "root"), 1);
    // only root and the failing child were ever known to the walk
    assert_eq!(walker.len(), 2);
}

#[test]
fn wide_tree_reports_every_leaf_once() {
    let tree = DirTree {
        root_path: "r".to_string(),
        dirs: vec![
            listed(vec![
                subdir("r/a", 1),
                leaf("r/one"),
                subdir("r/b", 2),
                symlink_dir("r/link"),
                subdir("r/c", 3),
            ]),
            listed(vec![leaf("r/a/two"), subdir("r/a/d", 4)]),
            listed(vec![leaf("r/b/three"), leaf("r/b/four")]),
            listed(vec![]),
            listed(vec![leaf("r/a/d/five")]),
        ],
    };
    let (walker, reports) = random_walk(&tree);
    for p in ["r/one", "r/a/two", "r/b/three", "r/b/four", "r/a/d/five", "r/link"] {
        assert_eq!(count_leaf(&reports, p), 1);
    }
    for p in ["r", "r/a", "r/b", "r/c", "r/a/d"] {
        assert_eq!(count_exhausted(&reports, p), 1);
    }
    // the walk ends the moment the root is exhausted
    assert!(matches!(reports.last(), Some(Report::Exhausted(0, _))));
    assert_eq!(walker.len(), 5);
    assert_eq!(reports.len(), 11);
}

#[test]
fn every_random_schedule_completes_the_same_walk() {
    // descent order and completion order are drawn fresh on every run;
    // the set of reports must not depend on them
    for _ in 0..25 {
        let tree = DirTree {
            root_path: "r".to_string(),
            dirs: vec![
                listed(vec![subdir("r/a", 1), subdir("r/b", 2), leaf("r/top.txt")]),
                listed(vec![subdir("r/a/c", 3), leaf("r/a/one.txt")]),
                failing("locked"),
                listed(vec![leaf("r/a/c/two.txt")]),
            ],
        };
        let (walker, reports) = random_walk(&tree);
        assert!(walker.is_exhausted(0));
        assert_eq!(walker.task_queue.len(), 0);
        assert_eq!(count_leaf(&reports, "r/top.txt"), 1);
        assert_eq!(count_leaf(&reports, "r/a/one.txt"), 1);
        assert_eq!(count_leaf(&reports, "r/a/c/two.txt"), 1);
        for p in ["r", "r/a", "r/b", "r/a/c"] {
            assert_eq!(count_exhausted(&reports, p), 1);
        }
        assert_eq!(
            reports.iter().filter(|r| matches!(r, Report::Failed(_, _, _))).count(),
            1
        );
        assert_eq!(reports.len(), 8);
    }
}

#[test]
fn all_listings_failing_still_terminates() {
    let tree = DirTree {
        root_path: "r".to_string(),
        dirs: vec![failing("gone")],
    };
    let (walker, reports) = random_walk(&tree);
    assert_eq!(
        reports,
        vec![
            Report::Failed(0, "r".to_string(), "gone".to_string()),
            Report::Exhausted(0, "r".to_string()),
        ]
    );
    assert!(walker.is_exhausted(0));
}
