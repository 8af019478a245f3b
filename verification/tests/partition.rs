use graph_core::dsu::DSU;

#[test]
fn singletons_then_unions() {
    let mut d = DSU::new(5);
    for i in 0..5 {
        assert_eq!(d.find(i), i);
    }
    assert!(d.union(0, 1));
    assert!(d.union(3, 4));
    assert!(!d.union(1, 0));
    assert_eq!(d.find(1), 0);
    assert_eq!(d.find(4), 3);
    assert!(d.union(1, 4));
    // the smallest member represents the merged set
    assert_eq!(d.find(0), 0);
    assert_eq!(d.find(1), 0);
    assert_eq!(d.find(3), 0);
    assert_eq!(d.find(4), 0);
    assert_eq!(d.find(2), 2);
}

#[test]
fn chained_unions_compress() {
    let mut d = DSU::new(6);
    assert!(d.union(4, 5));
    assert!(d.union(2, 3));
    assert!(d.union(0, 1));
    assert!(d.union(1, 3));
    assert!(d.union(3, 5));
    for i in 0..6 {
        assert_eq!(d.find(i), 0);
    }
}
