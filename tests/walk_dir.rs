use hdfs_native::tree_model::Tree;
use hdfs_native::walk_dir::{HdfsWalkDir, IterOptions, TreeIter, TreeManager};
use std::collections::BTreeMap;
use std::sync::{Arc, Mutex};
use std::io::{Error, ErrorKind};

// Testing data with pairs. The first one indicating the node value. The second one indicating whether it's a leaf node or not.
fn create_test_tree_manager() -> TestTreeManager {
    TestTreeManager {
        data: BTreeMap::from([
            ("/testing".to_owned(), false),
            ("/testing/a".to_owned(), false),
            ("/testing/b".to_owned(), false),
            ("/testing/c".to_owned(), true),
            ("/testing/a/1".to_owned(), false),
            ("/testing/a/2".to_owned(), false),
            ("/testing/a/3".to_owned(), true),
            ("/testing/b/1".to_owned(), true),
            ("/testing/b/2".to_owned(), true),
            ("/testing/b/3".to_owned(), true),
            ("/testing/a/1/11".to_owned(), true),
            ("/testing/a/1/12".to_owned(), true),
            ("/testing/a/2/11".to_owned(), true),
        ]),
        failing: None,
        listed: Arc::new(Mutex::new(Vec::new())),
    }
}

struct TestTreeManager {
    data: BTreeMap<String, bool>,
    /// A node whose children cannot be listed.
    failing: Option<String>,
    /// Every node whose children were asked for.
    listed: Arc<Mutex<Vec<String>>>,
}

impl TreeManager<String, String, Error> for TestTreeManager {
    fn model(&self) -> Tree<String, String> {
        unreachable!("the model of a manager is only reasoned about")
    }

    fn to_value(&self, v: String) -> Result<String, Error> {
        if self.data.contains_key(&v) {
            Ok(v)
        } else {
            Err(Error::new(ErrorKind::NotFound, v))
        }
    }

    fn get_children(&self, n: &String) -> Result<Vec<String>, Error> {
        self.listed.lock().unwrap().push(n.clone());
        if self.failing.as_ref() == Some(n) {
            return Err(Error::new(ErrorKind::PermissionDenied, n.clone()));
        }
        Ok(self
            .data
            .keys()
            .filter(|entry| {
                entry.len() > n.len()
                    && entry.starts_with(n)
                    && !entry[n.len() + 1..].contains('/')
            })
            .map(|entry| entry.to_owned())
            .collect())
    }

    fn is_leaf(&self, n: &String) -> bool {
        *self.data.get(n).unwrap()
    }
}

fn collect(mut iter: TreeIter<String, String, Error, TestTreeManager>) -> Vec<String> {
    let mut out = Vec::new();
    while let Some(item) = iter.next() {
        out.push(item.unwrap());
    }
    out
}

fn walk(min_depth: usize, max_depth: usize) -> Vec<String> {
    collect(TreeIter::new(
        Box::new(create_test_tree_manager()),
        IterOptions { min_depth, max_depth },
        "/testing".to_owned(),
    ))
}

#[test]
fn test_tree_iter() -> Result<(), Error> {
    let mut iter = TreeIter::new(
        Box::new(create_test_tree_manager()),
        IterOptions {
            min_depth: 0,
            max_depth: 2,
        },
        "/testing".to_owned(),
    );

    let ret_vec = [
        "/testing",
        "/testing/c",
        "/testing/b",
        "/testing/b/3",
        "/testing/b/2",
        "/testing/b/1",
        "/testing/a",
        "/testing/a/3",
        "/testing/a/2",
        "/testing/a/1",
    ];
    for entry in ret_vec.iter() {
        assert_eq!(entry.to_owned(), iter.next().unwrap()?);
    }
    assert!(iter.next().is_none());

    let mut iter = TreeIter::new(
        Box::new(create_test_tree_manager()),
        IterOptions {
            min_depth: 2,
            max_depth: 3,
        },
        "/testing".to_owned(),
    );

    let ret_vec = [
        "/testing/b/3",
        "/testing/b/2",
        "/testing/b/1",
        "/testing/a/3",
        "/testing/a/2",
        "/testing/a/2/11",
        "/testing/a/1",
        "/testing/a/1/12",
        "/testing/a/1/11",
    ];
    for entry in ret_vec.iter() {
        assert_eq!(entry.to_owned(), iter.next().unwrap()?);
    }
    assert!(iter.next().is_none());
    Ok(())
}

#[test]
fn unbounded_walk_is_reverse_child_preorder() {
    assert_eq!(
        walk(0, usize::MAX),
        vec![
            "/testing",
            "/testing/c",
            "/testing/b",
            "/testing/b/3",
            "/testing/b/2",
            "/testing/b/1",
            "/testing/a",
            "/testing/a/3",
            "/testing/a/2",
            "/testing/a/2/11",
            "/testing/a/1",
            "/testing/a/1/12",
            "/testing/a/1/11",
        ]
    );
}

#[test]
fn min_depth_drops_only_shallower_nodes() {
    let all = walk(0, usize::MAX);
    let deep: Vec<String> = all
        .iter()
        .filter(|p| p.matches('/').count() >= 3)
        .cloned()
        .collect();
    assert_eq!(walk(2, usize::MAX), deep);
    assert_eq!(
        walk(3, usize::MAX),
        vec!["/testing/a/2/11", "/testing/a/1/12", "/testing/a/1/11"]
    );
}

#[test]
fn max_depth_stops_expansion() {
    let manager = create_test_tree_manager();
    let listed = manager.listed.clone();
    let out = collect(TreeIter::new(
        Box::new(manager),
        IterOptions {
            min_depth: 0,
            max_depth: 1,
        },
        "/testing".to_owned(),
    ));
    assert_eq!(out, vec!["/testing", "/testing/c", "/testing/b", "/testing/a"]);
    assert_eq!(*listed.lock().unwrap(), vec!["/testing"]);
}

#[test]
fn children_never_listed_at_max_depth() {
    let manager = create_test_tree_manager();
    let listed = manager.listed.clone();
    let out = collect(TreeIter::new(
        Box::new(manager),
        IterOptions {
            min_depth: 2,
            max_depth: 3,
        },
        "/testing".to_owned(),
    ));
    assert_eq!(out.len(), 9);
    assert_eq!(
        *listed.lock().unwrap(),
        vec![
            "/testing",
            "/testing/b",
            "/testing/a",
            "/testing/a/2",
            "/testing/a/1",
        ]
    );
}

#[test]
fn exhaustion_is_fused() {
    let mut iter = TreeIter::new(
        Box::new(create_test_tree_manager()),
        IterOptions {
            min_depth: 0,
            max_depth: 1,
        },
        "/testing".to_owned(),
    );
    let mut n = 0;
    while iter.next().is_some() {
        n += 1;
    }
    assert_eq!(n, 4);
    for _ in 0..5 {
        assert!(iter.next().is_none());
    }
}

#[test]
fn leaf_root_without_min_depth_yields_root_only() {
    let manager = create_test_tree_manager();
    let listed = manager.listed.clone();
    let mut iter = TreeIter::new(
        Box::new(manager),
        IterOptions {
            min_depth: 0,
            max_depth: 5,
        },
        "/testing/c".to_owned(),
    );
    assert_eq!(iter.next().unwrap().unwrap(), "/testing/c");
    assert!(iter.next().is_none());
    assert!(iter.next().is_none());
    assert!(listed.lock().unwrap().is_empty());
}

#[test]
fn leaf_root_with_min_depth_yields_nothing() {
    let manager = create_test_tree_manager();
    let listed = manager.listed.clone();
    let mut iter = TreeIter::new(
        Box::new(manager),
        IterOptions {
            min_depth: 1,
            max_depth: 5,
        },
        "/testing/c".to_owned(),
    );
    assert!(iter.next().is_none());
    assert!(iter.next().is_none());
    assert!(listed.lock().unwrap().is_empty());
}

#[test]
fn unresolvable_seed_gives_one_error_then_end() {
    let mut iter = TreeIter::new(
        Box::new(create_test_tree_manager()),
        IterOptions {
            min_depth: 0,
            max_depth: 5,
        },
        "/missing".to_owned(),
    );
    let e = iter.next().unwrap().unwrap_err();
    assert_eq!(e.kind(), ErrorKind::NotFound);
    assert!(iter.next().is_none());
}

#[test]
fn failed_listing_abandons_only_that_subtree() {
    let mut manager = create_test_tree_manager();
    manager.failing = Some("/testing/b".to_owned());
    let mut iter = TreeIter::new(
        Box::new(manager),
        IterOptions {
            min_depth: 0,
            max_depth: usize::MAX,
        },
        "/testing".to_owned(),
    );
    let mut out = Vec::new();
    let mut errors = 0;
    while let Some(item) = iter.next() {
        match item {
            Ok(n) => out.push(n),
            Err(e) => {
                assert_eq!(e.kind(), ErrorKind::PermissionDenied);
                errors += 1;
            }
        }
    }
    assert_eq!(errors, 1);
    assert_eq!(
        out,
        vec![
            "/testing",
            "/testing/c",
            "/testing/a",
            "/testing/a/3",
            "/testing/a/2",
            "/testing/a/2/11",
            "/testing/a/1",
            "/testing/a/1/12",
            "/testing/a/1/11",
        ]
    );
}

#[test]
fn failed_listing_above_min_depth_is_reported() {
    let mut manager = create_test_tree_manager();
    manager.failing = Some("/testing/a".to_owned());
    let mut iter = TreeIter::new(
        Box::new(manager),
        IterOptions {
            min_depth: 2,
            max_depth: 3,
        },
        "/testing".to_owned(),
    );
    let mut out = Vec::new();
    let mut errors = 0;
    while let Some(item) = iter.next() {
        match item {
            Ok(n) => out.push(n),
            Err(_) => errors += 1,
        }
    }
    assert_eq!(errors, 1);
    assert_eq!(out, vec!["/testing/b/3", "/testing/b/2", "/testing/b/1"]);
}

#[test]
fn walk_builder_defaults_to_everything() {
    let out = collect(
        HdfsWalkDir::new_with_hdfs("/testing".to_owned(), create_test_tree_manager()).into_iter(),
    );
    assert_eq!(out, walk(0, usize::MAX));
}

#[test]
fn walk_builder_raises_max_to_min() {
    let out = collect(
        HdfsWalkDir::new_with_hdfs("/testing".to_owned(), create_test_tree_manager())
            .min_depth(3)
            .max_depth(1)
            .into_iter(),
    );
    assert_eq!(
        out,
        vec!["/testing/a/2/11", "/testing/a/1/12", "/testing/a/1/11"]
    );
}

#[test]
fn walk_builder_lowers_min_to_max() {
    let out = collect(
        HdfsWalkDir::new_with_hdfs("/testing".to_owned(), create_test_tree_manager())
            .max_depth(2)
            .min_depth(5)
            .into_iter(),
    );
    assert_eq!(
        out,
        vec![
            "/testing/b/3",
            "/testing/b/2",
            "/testing/b/1",
            "/testing/a/3",
            "/testing/a/2",
            "/testing/a/1",
        ]
    );
}

#[test]
fn walk_builder_sets_both_bounds() {
    let out = collect(
        HdfsWalkDir::new_with_hdfs("/testing".to_owned(), create_test_tree_manager())
            .min_depth(0)
            .max_depth(2)
            .into_iter(),
    );
    assert_eq!(out, walk(0, 2));
}
