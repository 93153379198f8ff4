use contree::caching::{Cache, Entry};

#[test]
fn cache_starts_empty() {
    let c = Cache::new(3, 10);
    assert_eq!(c.len(), 0);
    assert!(c.root().is_none());
    assert!(c.get(0).is_none());
    assert!(c.find(&vec![1, 2], 0).is_none());
    let d = Cache::default();
    assert_eq!(d.len(), 0);
}

#[test]
fn cache_init_makes_default_root() {
    let mut c = Cache::new(2, 5);
    let root = c.init();
    assert_eq!(root, 0);
    assert_eq!(c.len(), 1);
    let r = c.root().unwrap();
    assert_eq!(r.feature, usize::MAX);
    assert_eq!(r.error, usize::MAX);
    assert_eq!(r.label, usize::MAX);
    assert_eq!(r.ub, 0);
    assert!(!r.is_leaf);
    assert!(!r.is_optimal);
}

#[test]
fn cache_insert_then_find_and_reinsert() {
    let mut c = Cache::new(3, 10);
    c.init();
    let samples = vec![0, 3, 4];
    let (fresh, index) = c.insert(&samples, 1);
    assert!(fresh);
    assert_eq!(index, 1);
    assert_eq!(c.len(), 2);
    assert_eq!(c.find(&samples, 1), Some(&1));
    // The same samples at another depth are another node.
    assert!(c.find(&samples, 2).is_none());
    // Recording the same node again hands back its position and adds nothing.
    let (fresh_again, index_again) = c.insert(&samples, 1);
    assert!(!fresh_again);
    assert_eq!(index_again, 1);
    assert_eq!(c.len(), 2);
    // Another sample list of the same size gets a new position.
    let (fresh_other, index_other) = c.insert(&vec![1, 2, 5], 1);
    assert!(fresh_other);
    assert_eq!(index_other, 2);
    assert_eq!(c.find(&vec![1, 2, 5], 1), Some(&2));
    assert_eq!(c.find(&samples, 1), Some(&1));
}

#[test]
fn cache_updates_entries_in_place() {
    let mut c = Cache::new(2, 4);
    c.init();
    if let Some(e) = c.get_mut(0) {
        e.error = 7;
        e.label = 1;
    }
    assert_eq!(c.get(0).unwrap().error, 7);
    assert_eq!(c.get(0).unwrap().label, 1);
    if let Some(e) = c.root_mut() {
        e.is_leaf = true;
    }
    assert!(c.root().unwrap().is_leaf);
    assert!(c.get_mut(5).is_none());
    let mut replacement = Entry::default();
    replacement.depth = 2;
    assert!(c.set(0, replacement));
    assert_eq!(c.get(0).unwrap().depth, 2);
    assert!(!c.set(3, replacement));
    assert_eq!(c.len(), 1);
}
