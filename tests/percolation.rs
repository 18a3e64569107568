use algs4::percolation::{
    open_column_till_row, round_up_to_next_highest_power_of_two, BruteForcePercolation, HackUnionFindPercolation,
    Percolation, PercolationBase, UnionFindPercolation,
};

const SIDE_SIZE: usize = 4;

fn variants() -> (BruteForcePercolation, UnionFindPercolation) {
    (BruteForcePercolation::new(SIDE_SIZE), UnionFindPercolation::new(SIDE_SIZE))
}

fn packed() -> HackUnionFindPercolation {
    HackUnionFindPercolation::new(SIDE_SIZE)
}

fn fresh_grid_is_closed<P: Percolation>(p: &P) {
    for r in 1..=SIDE_SIZE {
        for c in 1..=SIDE_SIZE {
            assert!(!p.is_open(r, c));
            assert!(!p.is_full(r, c));
        }
    }
    assert!(!p.percolates());
}

#[test]
fn fresh_grid_has_no_open_site() {
    let (b, u) = variants();
    fresh_grid_is_closed(&b);
    fresh_grid_is_closed(&u);
    fresh_grid_is_closed(&packed());
}

fn open_marks_open<P: Percolation>(p: &mut P) {
    p.open(1, 1);
    assert!(p.is_open(1, 1));
    assert!(!p.is_open(1, 2));
    p.open(1, 1);
    assert!(p.is_open(1, 1));
}

#[test]
fn open_cell_is_open() {
    let (mut b, mut u) = variants();
    open_marks_open(&mut b);
    open_marks_open(&mut u);
    open_marks_open(&mut packed());
}

fn top_site_is_full<P: Percolation>(p: &mut P) {
    p.open(1, 1);
    assert!(p.is_full(1, 1));
}

#[test]
fn opened_top_site_is_full() {
    let (mut b, mut u) = variants();
    top_site_is_full(&mut b);
    top_site_is_full(&mut u);
    top_site_is_full(&mut packed());
}

fn lone_site_is_not_full<P: Percolation>(p: &mut P) {
    p.open(2, 1);
    assert!(p.is_open(2, 1));
    assert!(!p.is_full(2, 1));
}

#[test]
fn lone_site_below_top_is_not_full() {
    let (mut b, mut u) = variants();
    lone_site_is_not_full(&mut b);
    lone_site_is_not_full(&mut u);
    lone_site_is_not_full(&mut packed());
}

fn joins_top_later<P: Percolation>(p: &mut P) {
    p.open(2, 1);
    p.open(1, 1);
    assert!(p.is_full(2, 1));
}

#[test]
fn site_becomes_full_when_top_opens_above_it() {
    let (mut b, mut u) = variants();
    joins_top_later(&mut b);
    joins_top_later(&mut u);
    joins_top_later(&mut packed());
}

fn diagonal_is_not_connected<P: Percolation>(p: &mut P) {
    p.open(1, 1);
    p.open(2, 2);
    assert!(!p.is_full(2, 2));
}

#[test]
fn diagonal_neighbour_does_not_fill() {
    let (mut b, mut u) = variants();
    diagonal_is_not_connected(&mut b);
    diagonal_is_not_connected(&mut u);
    diagonal_is_not_connected(&mut packed());
}

fn full_from_left<P: Percolation>(p: &mut P) {
    p.open(3, 2);
    open_column_till_row(p, 3, 1);
    assert!(p.is_full(3, 2));
}

#[test]
fn full_through_left_neighbour() {
    let (mut b, mut u) = variants();
    full_from_left(&mut b);
    full_from_left(&mut u);
    full_from_left(&mut packed());
}

fn full_from_right<P: Percolation>(p: &mut P) {
    p.open(3, 2);
    open_column_till_row(p, 3, 3);
    assert!(p.is_full(3, 2));
}

#[test]
fn full_through_right_neighbour() {
    let (mut b, mut u) = variants();
    full_from_right(&mut b);
    full_from_right(&mut u);
    full_from_right(&mut packed());
}

fn full_from_bottom<P: Percolation>(p: &mut P) {
    p.open(3, 3);
    open_column_till_row(p, SIDE_SIZE, 1);
    p.open(4, 2);
    p.open(4, 3);
    assert!(p.is_full(3, 3));
}

#[test]
fn full_through_bottom_neighbour() {
    let (mut b, mut u) = variants();
    full_from_bottom(&mut b);
    full_from_bottom(&mut u);
    full_from_bottom(&mut packed());
}

fn column_percolates<P: Percolation>(p: &mut P) {
    open_column_till_row(p, SIDE_SIZE - 1, 1);
    assert!(!p.percolates());
    open_column_till_row(p, SIDE_SIZE, 1);
    assert!(p.percolates());
    for r in 1..=SIDE_SIZE {
        assert!(p.is_full(r, 1));
    }
}

#[test]
fn open_column_percolates() {
    let (mut b, mut u) = variants();
    column_percolates(&mut b);
    column_percolates(&mut u);
    column_percolates(&mut packed());
}

fn no_backwash<P: Percolation>(p: &mut P) {
    open_column_till_row(p, SIDE_SIZE, 1);
    assert!(p.percolates());
    p.open(SIDE_SIZE, SIDE_SIZE);
    assert!(p.is_open(SIDE_SIZE, SIDE_SIZE));
    assert!(!p.is_full(SIDE_SIZE, SIDE_SIZE));
    p.open(SIDE_SIZE - 1, SIDE_SIZE);
    assert!(!p.is_full(SIDE_SIZE - 1, SIDE_SIZE));
}

#[test]
fn bottom_site_does_not_fill_by_backwash() {
    let (mut b, mut u) = variants();
    no_backwash(&mut b);
    no_backwash(&mut u);
    no_backwash(&mut packed());
}

fn bottom_up_then_top<P: Percolation>(p: &mut P) {
    p.open(4, 1);
    p.open(3, 1);
    p.open(2, 1);
    assert!(!p.is_full(4, 1));
    assert!(!p.percolates());
    p.open(1, 1);
    assert!(p.is_full(4, 1));
    assert!(p.is_full(2, 1));
    assert!(p.percolates());
}

fn bottom_first_then_top_down<P: Percolation>(p: &mut P) {
    p.open(4, 1);
    assert!(!p.is_full(4, 1));
    open_column_till_row(p, 3, 1);
    assert!(p.is_full(4, 1));
    assert!(p.percolates());
}

#[test]
fn opening_order_does_not_change_fullness() {
    let (mut b, mut u) = variants();
    bottom_up_then_top(&mut b);
    bottom_up_then_top(&mut u);
    bottom_up_then_top(&mut packed());
    let (mut b, mut u) = variants();
    bottom_first_then_top_down(&mut b);
    bottom_first_then_top_down(&mut u);
    bottom_first_then_top_down(&mut packed());
}

fn winding_path<P: Percolation>(p: &mut P) {
    p.open(1, 4);
    p.open(2, 4);
    p.open(2, 3);
    p.open(3, 3);
    p.open(3, 2);
    p.open(4, 1);
    assert!(!p.percolates());
    p.open(4, 2);
    assert!(p.is_full(4, 1));
    assert!(p.percolates());
    assert!(!p.is_full(1, 1));
}

#[test]
fn fullness_follows_a_winding_path() {
    let (mut b, mut u) = variants();
    winding_path(&mut b);
    winding_path(&mut u);
    winding_path(&mut packed());
}

fn larger_grid<P: Percolation>(p: &mut P) {
    for r in 1..=9 {
        p.open(r, 5);
    }
    p.open(10, 6);
    assert!(!p.percolates());
    assert!(!p.is_full(10, 6));
    p.open(10, 5);
    assert!(p.percolates());
    assert!(p.is_full(10, 6));
    p.open(10, 10);
    assert!(!p.is_full(10, 10));
    p.open(10, 7);
    p.open(10, 8);
    p.open(10, 9);
    assert!(p.is_full(10, 10));
}

#[test]
fn larger_grid_percolates_only_through_a_full_path() {
    larger_grid(&mut BruteForcePercolation::new(10));
    larger_grid(&mut UnionFindPercolation::new(10));
    larger_grid(&mut HackUnionFindPercolation::new(10));
}

fn single_site<P: Percolation>(p: &mut P) {
    assert!(!p.percolates());
    p.open(1, 1);
    assert!(p.is_full(1, 1));
    assert!(p.percolates());
}

#[test]
fn single_site_grid() {
    single_site(&mut BruteForcePercolation::new(1));
    single_site(&mut UnionFindPercolation::new(1));
    single_site(&mut HackUnionFindPercolation::new(1));
}

#[test]
fn packed_grid_with_side_not_a_power_of_two() {
    for side in [3usize, 5, 6, 7, 9] {
        let mut h = HackUnionFindPercolation::new(side);
        let mut b = BruteForcePercolation::new(side);
        for c in 1..=side {
            h.open(side, c);
            b.open(side, c);
        }
        assert!(!h.percolates());
        assert!(!h.is_full(side, 1));
        open_column_till_row(&mut h, side - 1, side);
        open_column_till_row(&mut b, side - 1, side);
        assert!(h.percolates());
        for c in 1..=side {
            assert_eq!(h.is_full(side, c), b.is_full(side, c));
            assert!(h.is_full(side, c));
        }
        assert!(!h.is_full(1, 1));
        assert!(!h.is_open(1, 1));
    }
}

#[test]
fn base_reports_side() {
    assert_eq!(PercolationBase::new(7).side_size(), 7);
}

#[test]
fn rounds_up_to_power_of_two() {
    assert_eq!(round_up_to_next_highest_power_of_two(1), 1);
    assert_eq!(round_up_to_next_highest_power_of_two(2), 2);
    assert_eq!(round_up_to_next_highest_power_of_two(3), 4);
    assert_eq!(round_up_to_next_highest_power_of_two(10), 16);
    assert_eq!(round_up_to_next_highest_power_of_two(16), 16);
    assert_eq!(round_up_to_next_highest_power_of_two(17), 32);
    assert_eq!(round_up_to_next_highest_power_of_two(0x8000_0000), 0x8000_0000);
}

#[test]
fn rounds_up_above_two_to_the_thirty_one() {
    assert_eq!(round_up_to_next_highest_power_of_two(0x8000_0001), 0x1_0000_0000);
    assert_eq!(round_up_to_next_highest_power_of_two(0xc000_0000), 0x1_0000_0000);
    assert_eq!(round_up_to_next_highest_power_of_two(0x1_0000_0000), 0x1_0000_0000);
}
