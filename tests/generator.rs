use algs4::generator::{DefaultGenerator, DigitBaseGenerator, Generator};

#[test]
fn default_generator_counts_from_zero() {
    let mut generator = DefaultGenerator::new();
    let data = (0..101).collect::<Vec<usize>>();
    let mut vec = Vec::with_capacity(101);
    for _ in 0..101 {
        vec.push(generator.next());
    }
    assert_eq!(vec, data);
}

#[test]
fn digit_base_generator_skips_gaps() {
    let mut generator = DigitBaseGenerator::new(16, 10);
    let mut data = Vec::new();
    for i in 0..101usize {
        let iter = i / 16;
        if i < 10 + iter * 16 {
            data.push(i);
        }
    }
    let mut vec = Vec::new();
    for _ in 0..data.len() {
        vec.push(generator.next());
    }
    assert_eq!(vec, data);
}

#[test]
fn digit_base_generator_block_boundaries() {
    let mut generator = DigitBaseGenerator::new(4, 3);
    assert_eq!(generator.current(), 0);
    let got = (0..7).map(|_| generator.next()).collect::<Vec<usize>>();
    assert_eq!(got, vec![0, 1, 2, 4, 5, 6, 8]);
    assert_eq!(generator.current(), 9);
}

#[test]
fn digit_base_generator_without_gaps_is_dense() {
    let mut generator = DigitBaseGenerator::new(5, 5);
    let got = (0..12).map(|_| generator.next()).collect::<Vec<usize>>();
    assert_eq!(got, (0..12).collect::<Vec<usize>>());
}
