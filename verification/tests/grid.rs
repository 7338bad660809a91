use particle_sim::config::ConfigError;
use particle_sim::spacial_partition::{Grid, Point};

fn p(x: i64, y: i64) -> Point {
    Point { x, y }
}

fn grid(width: u32, height: u32, cell: u32) -> Grid {
    match Grid::new(width, height, cell) {
        Ok(g) => g,
        Err(e) => panic!("rejected: {:?}", e),
    }
}

#[test]
fn grid_size_has_border_on_each_side() {
    let g = grid(800, 600, 40);
    assert_eq!(g.get_num_columns(), 22);
    assert_eq!(g.get_num_rows(), 17);
}

#[test]
fn grid_size_rounds_up() {
    let g = grid(810, 601, 40);
    assert_eq!(g.get_num_columns(), 23);
    assert_eq!(g.get_num_rows(), 18);
    let h = grid(0, 0, 7);
    assert_eq!(h.get_num_columns(), 2);
    assert_eq!(h.get_num_rows(), 2);
}

#[test]
fn zero_cell_size_is_rejected() {
    assert!(matches!(Grid::new(800, 600, 0), Err(ConfigError::NonPositiveCellSize)));
}

#[test]
fn new_grid_is_empty() {
    let g = grid(100, 60, 20);
    for c in 0..g.get_num_columns() {
        for r in 0..g.get_num_rows() {
            assert!(g.get_cell(c, r).is_empty());
        }
    }
}

#[test]
fn bucket_is_floor_of_position_plus_one() {
    let mut g = grid(800, 600, 40);
    let pts = vec![p(0, 0), p(39, 39), p(40, 0), p(799, 599), p(400, 300), p(79, 80)];
    g.update(&pts);
    assert_eq!(g.get_cell(1, 1), &vec![0, 1]);
    assert_eq!(g.get_cell(2, 1), &vec![2]);
    assert_eq!(g.get_cell(20, 15), &vec![3]);
    assert_eq!(g.get_cell(11, 8), &vec![4]);
    assert_eq!(g.get_cell(2, 3), &vec![5]);
}

#[test]
fn every_particle_in_domain_is_in_exactly_one_bucket() {
    let mut g = grid(300, 200, 25);
    let mut pts = Vec::new();
    let mut x: i64 = 0;
    while x < 300 {
        let mut y: i64 = 0;
        while y < 200 {
            pts.push(p(x, y));
            y += 13;
        }
        x += 17;
    }
    g.update(&pts);
    for (id, pt) in pts.iter().enumerate() {
        let mut hits = 0;
        for c in 0..g.get_num_columns() {
            for r in 0..g.get_num_rows() {
                let n = g.get_cell(c, r).iter().filter(|&&k| k == id).count();
                if n > 0 {
                    assert_eq!(n, 1);
                    assert_eq!(c as i64, pt.x / 25 + 1);
                    assert_eq!(r as i64, pt.y / 25 + 1);
                    hits += 1;
                }
            }
        }
        assert_eq!(hits, 1);
    }
}

#[test]
fn negative_coordinates_round_down_into_the_border() {
    let mut g = grid(200, 200, 40);
    let pts = vec![p(-1, -1), p(-40, 5), p(5, -40), p(-41, 5), p(5, -41)];
    g.update(&pts);
    assert_eq!(g.get_cell(0, 0), &vec![0]);
    assert_eq!(g.get_cell(0, 1), &vec![1]);
    assert_eq!(g.get_cell(1, 0), &vec![2]);
    let total: usize = (0..g.get_num_columns())
        .map(|c| (0..g.get_num_rows()).map(|r| g.get_cell(c, r).len()).sum::<usize>())
        .sum();
    assert_eq!(total, 3);
}

#[test]
fn particles_beyond_the_grid_are_left_out() {
    let mut g = grid(200, 200, 40);
    // 7 columns and rows: indices 0..=6, so coordinates up to 239 are held.
    let pts = vec![p(239, 239), p(240, 0), p(0, 240), p(i64::MAX, 0), p(i64::MIN, i64::MIN)];
    g.update(&pts);
    assert_eq!(g.get_cell(6, 6), &vec![0]);
    let total: usize = (0..7).map(|c| (0..7).map(|r| g.get_cell(c, r).len()).sum::<usize>()).sum();
    assert_eq!(total, 1);
}

#[test]
fn update_forgets_the_previous_positions() {
    let mut g = grid(200, 200, 40);
    g.update(&vec![p(10, 10), p(50, 10)]);
    assert_eq!(g.get_cell(1, 1), &vec![0]);
    assert_eq!(g.get_cell(2, 1), &vec![1]);
    g.update(&vec![p(50, 10)]);
    assert!(g.get_cell(1, 1).is_empty());
    assert_eq!(g.get_cell(2, 1), &vec![0]);
    assert_eq!(g.get_num_columns(), 7);
    assert_eq!(g.get_num_rows(), 7);
}

#[test]
fn cluster_of_hundred_keeps_every_particle() {
    let mut g = grid(800, 600, 40);
    let pts: Vec<Point> = (0..100).map(|i| p(400 + (i % 10), 300 + (i / 10))).collect();
    g.update(&pts);
    let total: usize = (0..g.get_num_columns())
        .map(|c| (0..g.get_num_rows()).map(|r| g.get_cell(c, r).len()).sum::<usize>())
        .sum();
    assert_eq!(total, 100);
    assert_eq!(g.get_cell(11, 8).len(), 100);
}
