use particle_sim::broad_phase::{candidate_pairs, collect_candidates, worker_ranges};
use particle_sim::spacial_partition::{Grid, Point};

fn p(x: i64, y: i64) -> Point {
    Point { x, y }
}

fn built(width: u32, height: u32, cell: u32, pts: &Vec<Point>) -> Grid {
    let mut g = match Grid::new(width, height, cell) {
        Ok(g) => g,
        Err(e) => panic!("rejected: {:?}", e),
    };
    g.update(pts);
    g
}

#[test]
fn two_particles_in_one_cell_are_found_from_both_sides() {
    let pts = vec![p(100, 100), p(110, 105)];
    let g = built(400, 400, 40, &pts);
    assert_eq!(collect_candidates(&g, 1), vec![(0, 1), (1, 0)]);
}

#[test]
fn particles_in_neighbouring_cells_are_found() {
    // cells (3, 3) and (4, 4)
    let pts = vec![p(119, 119), p(121, 121)];
    let g = built(400, 400, 40, &pts);
    assert_eq!(collect_candidates(&g, 1), vec![(0, 1), (1, 0)]);
}

#[test]
fn particles_two_cells_apart_are_not_found() {
    let pts = vec![p(100, 100), p(180, 100)];
    let g = built(400, 400, 40, &pts);
    assert!(collect_candidates(&g, 1).is_empty());
}

#[test]
fn a_single_particle_is_no_pair() {
    let g = built(400, 400, 40, &vec![p(100, 100)]);
    assert!(collect_candidates(&g, 3).is_empty());
}

#[test]
fn pairs_come_by_column_row_neighbour_and_bucket_order() {
    // ids 0 and 2 share cell (2, 2); id 1 is in (3, 2); id 3 is in (2, 3).
    let pts = vec![p(50, 50), p(90, 50), p(60, 60), p(50, 90)];
    let g = built(200, 200, 40, &pts);
    let expected = vec![
        // from cell (2, 2): neighbour (2, 2), then (2, 3), then (3, 2)
        (0, 2),
        (2, 0),
        (0, 3),
        (2, 3),
        (0, 1),
        (2, 1),
        // from cell (2, 3): neighbours (2, 2), (3, 2)
        (3, 0),
        (3, 2),
        (3, 1),
        // from cell (3, 2): neighbours (2, 2), (2, 3)
        (1, 0),
        (1, 2),
        (1, 3),
    ];
    assert_eq!(collect_candidates(&g, 1), expected);
}

#[test]
fn scan_of_a_range_only_starts_from_its_columns() {
    let pts = vec![p(50, 50), p(90, 50)];
    let g = built(200, 200, 40, &pts);
    assert_eq!(candidate_pairs(&g, &(2..3)), vec![(0, 1)]);
    assert_eq!(candidate_pairs(&g, &(3..4)), vec![(1, 0)]);
    assert_eq!(candidate_pairs(&g, &(1..2)), vec![]);
    assert_eq!(candidate_pairs(&g, &(4..6)), vec![]);
}

#[test]
fn empty_and_reversed_ranges_find_nothing() {
    let pts = vec![p(50, 50), p(60, 50)];
    let g = built(200, 200, 40, &pts);
    assert!(candidate_pairs(&g, &(2..2)).is_empty());
    assert!(candidate_pairs(&g, &(1..0)).is_empty());
}

#[test]
fn result_does_not_depend_on_worker_count() {
    let mut pts = Vec::new();
    let mut seed: i64 = 12345;
    for _ in 0..200 {
        seed = (seed * 1103515245 + 12345) % 2147483648;
        let x = seed % 800;
        seed = (seed * 1103515245 + 12345) % 2147483648;
        let y = seed % 600;
        pts.push(p(x, y));
    }
    let g = built(800, 600, 40, &pts);
    let whole = collect_candidates(&g, 1);
    assert!(!whole.is_empty());
    for workers in 2..30 {
        assert_eq!(collect_candidates(&g, workers), whole);
    }
    let mut joined = Vec::new();
    for range in worker_ranges(&g, 5) {
        joined.extend(candidate_pairs(&g, &range));
    }
    assert_eq!(joined, whole);
}

#[test]
fn near_particles_are_always_candidates() {
    let mut pts = Vec::new();
    let mut seed: i64 = 777;
    for _ in 0..150 {
        seed = (seed * 1103515245 + 12345) % 2147483648;
        let x = seed % 300;
        seed = (seed * 1103515245 + 12345) % 2147483648;
        let y = seed % 300;
        pts.push(p(x, y));
    }
    let g = built(300, 300, 30, &pts);
    let found = collect_candidates(&g, 4);
    for i in 0..pts.len() {
        for j in 0..pts.len() {
            let dx = pts[i].x - pts[j].x;
            let dy = pts[i].y - pts[j].y;
            if i != j && dx * dx + dy * dy < 30 * 30 {
                let times = found.iter().filter(|&&pair| pair == (i, j)).count();
                assert_eq!(times, 1, "pair ({}, {})", i, j);
            }
        }
    }
}

#[test]
fn workers_share_the_interior_columns() {
    let g = built(800, 600, 40, &Vec::new());
    assert_eq!(worker_ranges(&g, 3), vec![1..7, 7..14, 14..21]);
    assert_eq!(worker_ranges(&g, 1), vec![1..21]);
}

#[test]
fn no_more_ranges_than_columns() {
    let g = built(80, 80, 40, &Vec::new());
    assert_eq!(g.get_num_columns(), 4);
    assert_eq!(worker_ranges(&g, 4), vec![1..1, 1..2, 2..3, 3..3]);
    assert_eq!(worker_ranges(&g, 9), vec![1..1, 1..2, 2..3, 3..3]);
}

#[test]
fn stacked_particles_closer_than_a_diameter_are_candidates() {
    // radius 20, cell size 40: rows 8 and 9 of column 11
    let pts = vec![p(400, 300), p(400, 330)];
    let g = built(800, 600, 40, &pts);
    assert_eq!(g.get_cell(11, 8), &vec![0]);
    assert_eq!(g.get_cell(11, 9), &vec![1]);
    assert_eq!(collect_candidates(&g, 4), vec![(0, 1), (1, 0)]);
}

#[test]
fn particle_in_the_border_is_seen_but_does_not_look() {
    // id 0 lies in border column 0, id 1 in the interior cell next to it.
    let pts = vec![p(-5, 50), p(5, 50)];
    let g = built(200, 200, 40, &pts);
    assert_eq!(g.get_cell(0, 2), &vec![0]);
    assert_eq!(g.get_cell(1, 2), &vec![1]);
    assert_eq!(collect_candidates(&g, 2), vec![(1, 0)]);
}

#[test]
fn no_pair_is_found_twice() {
    let pts: Vec<Point> = (0..60).map(|i| p(100 + (i % 8) * 9, 100 + (i / 8) * 9)).collect();
    let g = built(400, 400, 30, &pts);
    let found = collect_candidates(&g, 3);
    let mut sorted = found.clone();
    sorted.sort();
    sorted.dedup();
    assert_eq!(sorted.len(), found.len());
    assert!(found.iter().all(|&(a, b)| a != b));
}

#[test]
fn same_snapshot_gives_the_same_pairs() {
    let pts: Vec<Point> = (0..80).map(|i| p((i * 37) % 500, (i * 91) % 300)).collect();
    let first = built(500, 300, 25, &pts);
    let mut second = built(500, 300, 25, &vec![p(1, 1), p(2, 2), p(3, 3)]);
    second.update(&pts);
    let a = collect_candidates(&first, 3);
    let b = collect_candidates(&second, 3);
    assert!(!a.is_empty());
    assert_eq!(a, b);
    assert_eq!(collect_candidates(&first, 3), a);
}
