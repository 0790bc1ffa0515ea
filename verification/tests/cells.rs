use voronoi_fps::error::FpsError;
use voronoi_fps::points::PointSet;
use voronoi_fps::voronoi::{VoronoiCell, VoronoiDecomposer};

fn point_set(rows: Vec<Vec<i32>>) -> PointSet {
    match PointSet::from_rows(&rows) {
        Ok(points) => points,
        Err(e) => panic!("a rectangular matrix was refused: {:?}", e),
    }
}

fn scattered(n: usize, d: usize, start: u64) -> PointSet {
    let mut state: u64 = start;
    let mut flat: Vec<i32> = Vec::new();
    let mut i: usize = 0;
    while i < n * d {
        state = state.wrapping_mul(6364136223846793005).wrapping_add(1442695040888963407);
        let v: i32 = ((state >> 33) % 201) as i32 - 100;
        flat.push(v);
        i += 1;
    }
    match PointSet::from_shape_vec(n, d, flat) {
        Ok(points) => points,
        Err(e) => panic!("a full matrix was refused: {:?}", e),
    }
}

fn two_clusters() -> PointSet {
    point_set(vec![
        vec![0, 0],
        vec![1000, 1000],
        vec![1, 0],
        vec![1001, 1000],
        vec![0, 1],
        vec![1000, 1001],
        vec![1, 1],
        vec![1001, 1001],
        vec![2, 2],
        vec![998, 999],
    ])
}

fn sorted_members(cell: &VoronoiCell) -> Vec<usize> {
    let mut members: Vec<usize> = cell.members.clone();
    members.sort();
    members
}

fn same_cells(a: &VoronoiDecomposer, b: &VoronoiDecomposer) {
    assert_eq!(a.selected(), b.selected());
    assert_eq!(a.radius2(), b.radius2());
    assert_eq!(a.cells().len(), b.cells().len());
    let mut k: usize = 0;
    while k < a.cells().len() {
        let ca = &a.cells()[k];
        let cb = &b.cells()[k];
        assert_eq!(ca.center, cb.center);
        assert_eq!(ca.radius2, cb.radius2);
        assert_eq!(ca.farthest, cb.farthest);
        assert_eq!(sorted_members(ca), sorted_members(cb));
        k += 1;
    }
}

fn cells_by_definition(points: &PointSet, decomposer: &VoronoiDecomposer) {
    let selected: &Vec<usize> = decomposer.selected();
    let cells = decomposer.cells();
    assert_eq!(cells.len(), selected.len());
    let mut expected: Vec<Vec<usize>> = Vec::new();
    let mut k: usize = 0;
    while k < selected.len() {
        assert_eq!(cells[k].center, selected[k]);
        expected.push(Vec::new());
        k += 1;
    }
    let mut i: usize = 0;
    while i < points.len() {
        if !selected.contains(&i) {
            let mut owner: usize = 0;
            let mut k: usize = 1;
            while k < selected.len() {
                if points.dist2(i, selected[k]) < points.dist2(i, selected[owner]) {
                    owner = k;
                }
                k += 1;
            }
            expected[owner].push(i);
        }
        i += 1;
    }
    let mut k: usize = 0;
    while k < selected.len() {
        assert_eq!(sorted_members(&cells[k]), expected[k]);
        let mut radius2: u128 = 0;
        let mut farthest: Option<usize> = None;
        let mut q: usize = 0;
        while q < expected[k].len() {
            let d: u128 = points.dist2(expected[k][q], selected[k]);
            if farthest.is_none() || d > radius2 {
                radius2 = d;
                farthest = Some(expected[k][q]);
            }
            q += 1;
        }
        assert_eq!(cells[k].radius2, radius2);
        assert_eq!(cells[k].farthest, farthest);
        k += 1;
    }
}

#[test]
fn first_cell_holds_every_other_point() {
    let points = point_set(vec![vec![0, 0], vec![10, 0], vec![0, 10], vec![10, 10], vec![5, 5]]);
    let voronoi = VoronoiDecomposer::new(&points, 2).ok().unwrap();
    assert_eq!(voronoi.cells().len(), 1);
    let cell = &voronoi.cells()[0];
    assert_eq!(cell.center, 2);
    assert_eq!(cell.members, vec![0, 1, 3, 4]);
    assert_eq!(cell.radius2, 200);
    assert_eq!(cell.farthest, Some(1));
    assert_eq!(voronoi.radius2(), &vec![200]);
}

#[test]
fn radius_trace_on_a_line() {
    let points = point_set(vec![vec![0], vec![100], vec![40], vec![45]]);
    let mut voronoi = VoronoiDecomposer::new(&points, 0).ok().unwrap();
    assert_eq!(voronoi.radius2(), &vec![10000]);
    assert_eq!(voronoi.next_point(), Ok((1, 10000)));
    assert_eq!(voronoi.add_point(1), Ok(0));
    assert_eq!(voronoi.radius2(), &vec![10000, 0]);
    assert_eq!(voronoi.cells()[0].radius2, 2025);
    assert_eq!(voronoi.cells()[0].farthest, Some(3));
    assert_eq!(voronoi.next_point(), Ok((3, 2025)));
    assert_eq!(voronoi.add_point(3), Ok(25));
    assert_eq!(voronoi.radius2(), &vec![10000, 0, 25]);
    assert!(voronoi.cells()[0].members.is_empty());
    assert!(voronoi.cells()[1].members.is_empty());
    assert_eq!(voronoi.cells()[2].members, vec![2]);
    assert_eq!(voronoi.cells()[2].farthest, Some(2));
    assert_eq!(voronoi.next_point(), Ok((2, 25)));
    assert_eq!(voronoi.add_point(2), Ok(0));
    assert_eq!(voronoi.radius2(), &vec![10000, 0, 25, 0]);
    assert_eq!(voronoi.next_point(), Err(FpsError::EmptyCandidateSet));
}

#[test]
fn radius_trace_of_the_square() {
    let points = point_set(vec![vec![0, 0], vec![10, 0], vec![0, 10], vec![10, 10], vec![5, 5]]);
    let mut voronoi = VoronoiDecomposer::new(&points, 0).ok().unwrap();
    assert_eq!(voronoi.add_point(3), Ok(0));
    assert_eq!(voronoi.add_point(1), Ok(0));
    assert_eq!(voronoi.radius2(), &vec![200, 0, 0]);
    // Every point lies as near to the seed as to any later center, so the
    // cell of the seed keeps them all.
    assert_eq!(voronoi.cells()[0].members, vec![2, 4]);
    assert_eq!(voronoi.cells()[0].radius2, 100);
    assert_eq!(voronoi.cells()[0].farthest, Some(2));
}

#[test]
fn add_point_returns_the_radius_of_the_new_cell() {
    let points = point_set(vec![vec![0], vec![10], vec![11], vec![13], vec![-1]]);
    let mut voronoi = VoronoiDecomposer::new(&points, 0).ok().unwrap();
    assert_eq!(voronoi.next_point(), Ok((3, 169)));
    // A forced point: 10 takes 11 and 13 from the seed.
    assert_eq!(voronoi.add_point(1), Ok(9));
    assert_eq!(sorted_members(&voronoi.cells()[1]), vec![2, 3]);
    assert_eq!(voronoi.cells()[1].farthest, Some(3));
    assert_eq!(voronoi.cells()[0].members, vec![4]);
    assert_eq!(voronoi.cells()[0].radius2, 1);
    assert_eq!(voronoi.radius2(), &vec![169, 9]);
    assert_eq!(voronoi.next_point(), Ok((3, 9)));
}

#[test]
fn trace_entries_stay_below_the_first() {
    let points = scattered(80, 3, 31337);
    let mut voronoi = VoronoiDecomposer::new(&points, 9).ok().unwrap();
    let mut step: usize = 1;
    while step < 80 {
        let (idx, d) = voronoi.next_point().ok().unwrap();
        let r: u128 = voronoi.add_point(idx).ok().unwrap();
        assert!(r <= d);
        assert_eq!(voronoi.radius2()[step], r);
        assert!(r <= voronoi.radius2()[0]);
        step += 1;
    }
    assert_eq!(voronoi.radius2().len(), 80);
}

#[test]
fn all_radii_vanish_when_every_point_is_selected() {
    let points = scattered(25, 2, 8);
    let mut voronoi = VoronoiDecomposer::new(&points, 24).ok().unwrap();
    let mut step: usize = 1;
    while step < 25 {
        let (idx, _) = voronoi.next_point().ok().unwrap();
        assert!(voronoi.add_point(idx).is_ok());
        step += 1;
    }
    assert_eq!(voronoi.next_point(), Err(FpsError::EmptyCandidateSet));
    let mut k: usize = 0;
    while k < 25 {
        assert_eq!(voronoi.cells()[k].radius2, 0);
        assert!(voronoi.cells()[k].members.is_empty());
        assert_eq!(voronoi.cells()[k].farthest, None);
        k += 1;
    }
    assert_eq!(voronoi.radius2()[24], 0);
}

#[test]
fn pruning_changes_no_cell_of_two_clusters() {
    let points = two_clusters();
    let mut pruned = VoronoiDecomposer::new(&points, 0).ok().unwrap();
    let mut exhaustive = VoronoiDecomposer::new(&points, 0).ok().unwrap();
    same_cells(&pruned, &exhaustive);
    let mut step: usize = 1;
    while step < points.len() {
        let a = pruned.next_point();
        assert_eq!(a, exhaustive.next_point());
        let (idx, _) = a.ok().unwrap();
        assert_eq!(pruned.add_point(idx), exhaustive.add_point_exhaustive(idx));
        same_cells(&pruned, &exhaustive);
        cells_by_definition(&points, &pruned);
        step += 1;
    }
}

#[test]
fn first_steps_of_two_clusters() {
    let points = two_clusters();
    let mut voronoi = VoronoiDecomposer::new(&points, 0).ok().unwrap();
    assert_eq!(voronoi.next_point(), Ok((7, 2004002)));
    // The new center takes its own cluster and nothing else.
    assert_eq!(voronoi.add_point(7), Ok(13));
    assert_eq!(sorted_members(&voronoi.cells()[0]), vec![2, 4, 6, 8]);
    assert_eq!(sorted_members(&voronoi.cells()[1]), vec![1, 3, 5, 9]);
    assert_eq!(voronoi.cells()[0].radius2, 8);
    assert_eq!(voronoi.cells()[0].farthest, Some(8));
    assert_eq!(voronoi.cells()[1].farthest, Some(9));
    assert_eq!(voronoi.next_point(), Ok((9, 13)));
}

#[test]
fn pruning_changes_no_cell_of_scattered_points() {
    let mut round: u64 = 0;
    while round < 5 {
        let n: usize = 40 + 10 * (round as usize);
        let points = scattered(n, 2 + (round as usize) % 2, 500 + round);
        let mut pruned = VoronoiDecomposer::new(&points, 1).ok().unwrap();
        let mut exhaustive = VoronoiDecomposer::new(&points, 1).ok().unwrap();
        let mut step: usize = 1;
        while step < n {
            // Every third point is forced, the others are picked.
            let idx: usize = if step % 3 == 0 {
                let mut p: usize = (step * 7) % n;
                while pruned.selected().contains(&p) {
                    p = (p + 1) % n;
                }
                p
            } else {
                pruned.next_point().ok().unwrap().0
            };
            assert_eq!(pruned.add_point(idx), exhaustive.add_point_exhaustive(idx));
            same_cells(&pruned, &exhaustive);
            step += 1;
        }
        cells_by_definition(&points, &pruned);
        round += 1;
    }
}

#[test]
fn forced_duplicate_of_a_center_leaves_its_cell() {
    // Point 1 sits on the seed: its cell has radius zero once 2 is gone,
    // and the pruning rule alone would skip it.
    let points = point_set(vec![vec![0, 0], vec![0, 0], vec![9, 9]]);
    let mut voronoi = VoronoiDecomposer::new(&points, 0).ok().unwrap();
    assert_eq!(voronoi.add_point(2), Ok(0));
    assert_eq!(voronoi.cells()[0].members, vec![1]);
    assert_eq!(voronoi.cells()[0].radius2, 0);
    assert_eq!(voronoi.add_point(1), Ok(0));
    assert!(voronoi.cells()[0].members.is_empty());
    assert_eq!(voronoi.cells()[0].farthest, None);
    assert!(voronoi.cells()[2].members.is_empty());
    assert_eq!(voronoi.selected(), &vec![0, 2, 1]);
    cells_by_definition(&points, &voronoi);
}

#[test]
fn cells_follow_the_definition() {
    let points = scattered(70, 3, 4242);
    let mut voronoi = VoronoiDecomposer::new(&points, 35).ok().unwrap();
    cells_by_definition(&points, &voronoi);
    let mut step: usize = 1;
    while step < 30 {
        let (idx, _) = voronoi.next_point().ok().unwrap();
        assert!(voronoi.add_point(idx).is_ok());
        cells_by_definition(&points, &voronoi);
        step += 1;
    }
}
