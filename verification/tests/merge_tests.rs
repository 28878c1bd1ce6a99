//! Union-find behaviour over an in-memory node store.

use fooskill::merge::{find, merge, Error, MergeCtx, Mergeable};

struct MemoryStore {
    elements: Vec<Mergeable<usize, String>>,
}

struct MemoryStoreCtx {
    write_elements: Vec<Mergeable<usize, String>>,
}

fn dup_node(n: &Mergeable<usize, String>) -> Mergeable<usize, String> {
    Mergeable::from_parts(*n.parent_index(), n.rank(), n.item().clone())
}

impl MergeCtx for MemoryStoreCtx {
    type Index = usize;
    type Item = String;

    fn get_node(&mut self, index: &usize) -> Option<Mergeable<usize, String>> {
        self.write_elements.get(*index).map(dup_node)
    }

    fn set_node(&mut self, index: &usize, item: Mergeable<usize, String>) {
        if let Some(element) = self.write_elements.get_mut(*index) {
            *element = item;
        }
    }
}

impl MemoryStore {
    fn run<R>(&mut self, t: impl FnOnce(&mut MemoryStoreCtx) -> R) -> R {
        let mut ops = MemoryStoreCtx {
            write_elements: self.elements.iter().map(dup_node).collect(),
        };
        let r = t(&mut ops);
        self.elements = ops.write_elements;
        r
    }
}

fn simple_store() -> MemoryStore {
    MemoryStore {
        elements: vec![
            Mergeable::new(0, "first".to_owned()),
            Mergeable::new(1, "second".to_owned()),
            Mergeable::new(2, "third".to_owned()),
        ],
    }
}

#[test]
fn test_find() {
    let mut store = simple_store();
    let find_first = store.run(|ctx| find(ctx, 0));
    assert!(find_first.is_ok());
    assert_eq!(find_first.unwrap(), "first");
    let find_second = store.run(|ctx| find(ctx, 1));
    assert!(find_second.is_ok());
    assert_eq!(find_second.unwrap(), "second");
}

#[test]
fn test_merge() {
    let mut store = simple_store();
    let merge = store.run(|ctx| {
        merge(ctx, 0, 1, |left: &String, right: &String| left.to_owned() + " " + right)
    });
    assert!(merge.is_ok());
    let merged_item = merge.unwrap();
    assert!(merged_item == "first second" || merged_item == "second first");

    let find_first = store.run(|ctx| find(ctx, 0));
    assert!(find_first.is_ok());
    assert_eq!(find_first.unwrap(), merged_item);

    let find_second = store.run(|ctx| find(ctx, 1));
    assert!(find_second.is_ok());
    assert_eq!(find_second.unwrap(), merged_item);

    let find_third = store.run(|ctx| find(ctx, 2));
    assert!(find_third.is_ok());
    assert_eq!(find_third.unwrap(), "third");
}

#[test]
fn test_missing() {
    let mut store = simple_store();
    let missing = store.run(|ctx| find(ctx, 14));
    match missing {
        Err(Error::MissingEntryError(14)) => assert!(true),
        _ => assert!(false, "Entry should not exist"),
    }
}

#[test]
fn test_missing_parent() {
    let mut store = MemoryStore {
        elements: vec![Mergeable::new(1, "first".to_owned())],
    };
    let missing_parent = store.run(|ctx| find(ctx, 0));
    match missing_parent {
        Err(Error::NoParentError(0)) => assert!(true),
        _ => assert!(false, "Parent should not exist"),
    }
}

#[test]
fn test_path_halving() {
    let mut store = MemoryStore {
        elements: vec![
            Mergeable::new(0, "first".to_owned()),
            Mergeable::new(0, "second".to_owned()),
            Mergeable::new(1, "third".to_owned()),
            Mergeable::new(2, "forth".to_owned()),
        ],
    };
    let find_on_leaf = store.run(|ctx| find(ctx, 3));
    assert!(find_on_leaf.is_ok());
    assert_eq!(find_on_leaf.unwrap(), "first");
    let find_on_leaf = store.run(|ctx| find(ctx, 3));
    assert!(find_on_leaf.is_ok());
    assert_eq!(find_on_leaf.unwrap(), "first");
}

/// Walks parent links in the stored vector and counts the steps to the
/// root.
fn stored_depth(store: &MemoryStore, start: usize) -> usize {
    let mut steps = 0;
    let mut at = start;
    loop {
        let parent = *store.elements[at].parent_index();
        if parent == at {
            return steps;
        }
        steps += 1;
        at = parent;
    }
}

#[test]
fn test_path_halving_shortens_chain() {
    let mut store = MemoryStore {
        elements: vec![
            Mergeable::new(0, "first".to_owned()),
            Mergeable::new(0, "second".to_owned()),
            Mergeable::new(1, "third".to_owned()),
            Mergeable::new(2, "forth".to_owned()),
        ],
    };
    assert_eq!(stored_depth(&store, 3), 3);
    let found = store.run(|ctx| find(ctx, 3));
    assert_eq!(found.unwrap(), "first");
    // after one find the walked chain is at most two links long
    assert!(stored_depth(&store, 3) <= 2);
}

#[test]
fn test_find_idempotent() {
    let mut store = MemoryStore {
        elements: vec![
            Mergeable::new(0, "root".to_owned()),
            Mergeable::new(0, "a".to_owned()),
            Mergeable::new(1, "b".to_owned()),
            Mergeable::new(2, "c".to_owned()),
        ],
    };
    let first = store.run(|ctx| find(ctx, 3)).unwrap();
    let second = store.run(|ctx| find(ctx, 3)).unwrap();
    let third = store.run(|ctx| find(ctx, 3)).unwrap();
    assert_eq!(first, "root");
    assert_eq!(second, first);
    assert_eq!(third, first);
}

#[test]
fn test_set_replaces_root_payload() {
    let mut store = MemoryStore {
        elements: vec![
            Mergeable::new(0, "root".to_owned()),
            Mergeable::new(0, "leaf".to_owned()),
        ],
    };
    let r = store.run(|ctx| fooskill::merge::set(ctx, 1, "fresh".to_owned()));
    assert!(r.is_ok());
    assert_eq!(store.run(|ctx| find(ctx, 0)).unwrap(), "fresh");
    assert_eq!(store.run(|ctx| find(ctx, 1)).unwrap(), "fresh");
}

#[test]
fn test_merge_by_rank() {
    // after one merge the surviving root wins the next merge by rank
    let mut store = MemoryStore {
        elements: vec![
            Mergeable::new(0, "a".to_owned()),
            Mergeable::new(1, "b".to_owned()),
            Mergeable::new(2, "c".to_owned()),
        ],
    };
    let fuse = |x: &String, y: &String| x.to_owned() + "+" + y;
    let first = store.run(|ctx| merge(ctx, 0, 1, fuse)).unwrap();
    assert_eq!(first, "b+a");
    let second = store.run(|ctx| merge(ctx, 2, 1, fuse)).unwrap();
    // the rank-1 root of {a, b} survives and absorbs c
    assert_eq!(second, "c+b+a");
    assert_eq!(store.run(|ctx| find(ctx, 2)).unwrap(), "c+b+a");
}
