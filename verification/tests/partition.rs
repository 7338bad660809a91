use particle_sim::misc::gen_vec_range;

#[test]
fn vec_range() {
    println!("{:?}", gen_vec_range(2, 100));
    assert!(true);
}

#[test]
fn hundred_columns_three_workers() {
    assert_eq!(gen_vec_range(3, 100), vec![1..33, 33..66, 66..99]);
}

#[test]
fn hundred_columns_two_workers() {
    assert_eq!(gen_vec_range(2, 100), vec![1..50, 50..99]);
}

#[test]
fn one_worker_takes_the_interior() {
    assert_eq!(gen_vec_range(1, 10), vec![1..9]);
    assert_eq!(gen_vec_range(1, 2), vec![1..1]);
}

#[test]
fn remainder_goes_to_last_range() {
    assert_eq!(gen_vec_range(4, 22), vec![1..5, 5..10, 10..15, 15..21]);
}

#[test]
fn as_many_workers_as_columns() {
    assert_eq!(gen_vec_range(4, 4), vec![1..1, 1..2, 2..3, 3..3]);
}

#[test]
fn more_workers_than_columns_follows_the_formula() {
    assert_eq!(gen_vec_range(3, 2), vec![1..0, 0..0, 0..1]);
    assert_eq!(gen_vec_range(2, 0), vec![1..0, 0..0]);
}

#[test]
fn ranges_cover_interior_exactly_once() {
    for size in 1usize..40 {
        for n in 1..=size {
            let ranges = gen_vec_range(n, size);
            assert_eq!(ranges.len(), n);
            for c in 0..size + 2 {
                let holders = ranges.iter().filter(|r| r.start <= c && c < r.end).count();
                let interior = 1 <= c && c + 1 < size;
                assert_eq!(holders, if interior { 1 } else { 0 }, "n={} size={} c={}", n, size, c);
            }
            for i in 0..n - 1 {
                assert_eq!(ranges[i].end, ranges[i + 1].start);
            }
        }
    }
}
