use algs4::generator::DigitBaseGenerator;
use algs4::union_find::{PathCompressionWeightedQuickUnion, QuickFind, QuickUnion, UnionFind, WeightedQuickUnion};

fn each_is_own_root<U: UnionFind>(uf: &mut U, size: usize) {
    for p in 0..size {
        assert_eq!(uf.find(p), p);
    }
}

#[test]
fn fresh_elements_are_their_own_roots() {
    each_is_own_root(&mut QuickFind::new(10), 10);
    each_is_own_root(&mut QuickUnion::new(10), 10);
    each_is_own_root(&mut WeightedQuickUnion::new(10), 10);
    each_is_own_root(&mut PathCompressionWeightedQuickUnion::new(10), 10);
}

fn union_connects<U: UnionFind>(uf: &mut U) {
    assert!(!uf.connected(1, 3));
    uf.union(1, 2);
    assert!(uf.connected(1, 2));
    assert!(uf.connected(2, 1));
    uf.union(4, 5);
    uf.union(7, 8);
    assert!(uf.connected(1, 2));
    assert!(!uf.connected(1, 4));
    uf.union(2, 3);
    assert!(uf.connected(1, 3));
    assert!(!uf.connected(1, 5));
}

#[test]
fn union_connects_and_stays_connected() {
    union_connects(&mut QuickFind::new(10));
    union_connects(&mut QuickUnion::new(10));
    union_connects(&mut WeightedQuickUnion::new(10));
    union_connects(&mut PathCompressionWeightedQuickUnion::new(10));
}

fn self_union_is_harmless<U: UnionFind>(uf: &mut U) {
    uf.union(3, 3);
    assert_eq!(uf.find(3), 3);
    uf.union(1, 2);
    uf.union(1, 2);
    uf.union(2, 1);
    assert!(uf.connected(1, 2));
    assert!(!uf.connected(1, 3));
}

#[test]
fn repeated_and_self_unions_change_nothing() {
    self_union_is_harmless(&mut QuickFind::new(5));
    self_union_is_harmless(&mut QuickUnion::new(5));
    self_union_is_harmless(&mut WeightedQuickUnion::new(5));
    self_union_is_harmless(&mut PathCompressionWeightedQuickUnion::new(5));
}

#[test]
fn quick_find_root_is_last_connected_point() {
    let mut quick_find = QuickFind::new(10);
    quick_find.union(1, 2);
    assert_eq!(quick_find.find(1), 2);
    quick_find.union(2, 3);
    assert_eq!(quick_find.find(1), 3);
    assert_eq!(quick_find.find(2), 3);
    quick_find.union(3, 4);
    assert_eq!(quick_find.find(1), 4);
    assert_eq!(quick_find.find(2), 4);
    assert_eq!(quick_find.find(3), 4);
    quick_find.union(4, 5);
    assert_eq!(quick_find.find(1), 5);
    assert_eq!(quick_find.find(2), 5);
    assert_eq!(quick_find.find(3), 5);
    assert_eq!(quick_find.find(4), 5);
}

#[test]
fn quick_union_root_is_last_connected_point() {
    let mut quick_union = QuickUnion::new(10);
    quick_union.union(1, 2);
    assert_eq!(quick_union.find(1), 2);
    quick_union.union(2, 3);
    assert_eq!(quick_union.find(1), 3);
    assert_eq!(quick_union.find(2), 3);
    quick_union.union(3, 4);
    quick_union.union(4, 5);
    for p in 1..5 {
        assert_eq!(quick_union.find(p), 5);
    }
}

#[test]
fn weighted_root_is_connected_point() {
    let mut weighted = WeightedQuickUnion::new(10);
    weighted.union(1, 2);
    assert_eq!(weighted.find(1), 2);
    let mut compressed = PathCompressionWeightedQuickUnion::new(10);
    compressed.union(1, 2);
    assert_eq!(compressed.find(1), 2);
}

fn larger_tree_wins<U: UnionFind>(uf: &mut U) {
    uf.union(1, 2);
    uf.union(2, 3);
    uf.union(2, 4);
    uf.union(5, 6);
    uf.union(6, 7);
    uf.union(2, 6);
    assert_eq!(uf.find(6), 2);
    assert_eq!(uf.find(7), 2);
    assert_eq!(uf.find(1), 2);
}

#[test]
fn weighted_root_is_root_of_larger_tree() {
    larger_tree_wins(&mut WeightedQuickUnion::new(10));
    larger_tree_wins(&mut PathCompressionWeightedQuickUnion::new(10));
}

#[test]
fn weighted_tie_goes_to_second_root() {
    let mut weighted = WeightedQuickUnion::new(10);
    weighted.union(1, 2);
    weighted.union(3, 4);
    weighted.union(2, 4);
    assert_eq!(weighted.find(1), 4);
    let mut quick_union = QuickUnion::new(10);
    quick_union.union(1, 2);
    quick_union.union(3, 4);
    quick_union.union(2, 4);
    assert_eq!(quick_union.find(1), 4);
}

#[test]
fn path_compression_end_to_end() {
    let mut uf = PathCompressionWeightedQuickUnion::new(10);
    uf.union(1, 2);
    uf.union(2, 3);
    uf.union(2, 4);
    uf.union(5, 6);
    uf.union(6, 7);
    uf.union(2, 6);
    assert_eq!(uf.find(6), 2);
    assert!(uf.connected(1, 3));
    assert!(uf.connected(1, 5));
    assert!(!uf.connected(1, 8));
}

#[test]
fn path_compression_keeps_roots_along_a_long_chain() {
    let mut uf = PathCompressionWeightedQuickUnion::new(64);
    for p in 1..64 {
        uf.union(p, 0);
    }
    for p in 0..64 {
        assert_eq!(uf.find(p), 0);
    }
    let mut chain = QuickUnion::new(64);
    for p in 0..63 {
        chain.union(p, p + 1);
    }
    assert_eq!(chain.find(0), 63);
}

#[test]
fn path_compression_over_gapped_ids() {
    let mut generator = DigitBaseGenerator::new(16, 10);
    let mut uf = PathCompressionWeightedQuickUnion::with_generator(25, &mut generator);
    assert_eq!(uf.find(16), 16);
    assert_eq!(uf.find(34), 34);
    uf.union(9, 16);
    uf.union(16, 34);
    assert!(uf.connected(9, 34));
    assert_eq!(uf.find(34), 16);
    assert!(!uf.connected(0, 34));
}
