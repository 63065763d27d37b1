use graph_kit::disjoint_sets::DisjointSets;

#[test]
fn test_new_singletons() {
    let mut ds = DisjointSets::new(4);
    for u in 0..4 {
        assert_eq!(ds.find(u), u);
    }
}

#[test]
fn test_find_idempotent() {
    // find(find(u)) == find(u) for every element, before and after merges.
    let mut ds = DisjointSets::new(6);
    for u in 0..6 {
        let r = ds.find(u);
        assert_eq!(ds.find(r), r);
    }
    ds.merge(0, 1);
    ds.merge(1, 2);
    ds.merge(4, 5);
    for u in 0..6 {
        let r = ds.find(u);
        assert_eq!(ds.find(r), r);
    }
}

#[test]
fn test_merge_connects() {
    // After merge(u, v), find(u) == find(v).
    let mut ds = DisjointSets::new(5);
    ds.merge(0, 1);
    assert_eq!(ds.find(0), ds.find(1));
    ds.merge(1, 2);
    assert_eq!(ds.find(0), ds.find(2));
    assert_ne!(ds.find(0), ds.find(3));
    ds.merge(3, 4);
    assert_eq!(ds.find(3), ds.find(4));
    assert_ne!(ds.find(2), ds.find(4));
}

#[test]
fn test_merge_return_contract() {
    // merge returns true exactly when the arguments were in different sets:
    // a second call with the same (or now-same-component) arguments
    // returns false.
    let mut ds = DisjointSets::new(4);
    assert!(ds.merge(0, 1));
    assert!(!ds.merge(0, 1));
    assert!(!ds.merge(1, 0));
    assert!(ds.merge(2, 3));
    assert!(ds.merge(0, 3));
    // now-same-component arguments
    assert!(!ds.merge(1, 2));
    assert!(!ds.merge(0, 0));
}
