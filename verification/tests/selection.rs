use voronoi_fps::driver::Engine;
use voronoi_fps::error::FpsError;
use voronoi_fps::points::PointSet;
use voronoi_fps::simple::DirectSelector;
use voronoi_fps::voronoi::VoronoiDecomposer;

fn point_set(rows: Vec<Vec<i32>>) -> PointSet {
    match PointSet::from_rows(&rows) {
        Ok(points) => points,
        Err(e) => panic!("a rectangular matrix was refused: {:?}", e),
    }
}

fn square_with_center() -> PointSet {
    point_set(vec![vec![0, 0], vec![10, 0], vec![0, 10], vec![10, 10], vec![5, 5]])
}

fn scattered(n: usize, d: usize, start: u64) -> PointSet {
    let mut state: u64 = start;
    let mut flat: Vec<i32> = Vec::new();
    let mut i: usize = 0;
    while i < n * d {
        state = state.wrapping_mul(6364136223846793005).wrapping_add(1442695040888963407);
        let v: i32 = ((state >> 33) % 41) as i32 - 20;
        flat.push(v);
        i += 1;
    }
    match PointSet::from_shape_vec(n, d, flat) {
        Ok(points) => points,
        Err(e) => panic!("a full matrix was refused: {:?}", e),
    }
}

fn nearest(points: &PointSet, selected: &Vec<usize>, i: usize) -> u128 {
    let mut best: u128 = points.dist2(i, selected[0]);
    let mut k: usize = 1;
    while k < selected.len() {
        let d: u128 = points.dist2(i, selected[k]);
        if d < best {
            best = d;
        }
        k += 1;
    }
    best
}

fn farthest_by_definition(points: &PointSet, selected: &Vec<usize>) -> Option<(usize, u128)> {
    let mut best: Option<(usize, u128)> = None;
    let mut i: usize = 0;
    while i < points.len() {
        if !selected.contains(&i) {
            let d: u128 = nearest(points, selected, i);
            best = match best {
                None => Some((i, d)),
                Some((b, bd)) => if d > bd { Some((i, d)) } else { Some((b, bd)) },
            };
        }
        i += 1;
    }
    best
}

#[test]
fn square_scenario_direct() {
    let points = square_with_center();
    assert_eq!(voronoi_fps::simple::select_fps(&points, 3, 0), Ok(vec![0, 3, 1]));
}

#[test]
fn square_scenario_voronoi() {
    let points = square_with_center();
    assert_eq!(voronoi_fps::voronoi::select_fps(&points, 3, 0), Ok(vec![0, 3, 1]));
}

#[test]
fn square_scenario_in_full() {
    let points = square_with_center();
    assert_eq!(voronoi_fps::simple::select_fps(&points, 5, 0), Ok(vec![0, 3, 1, 2, 4]));
    assert_eq!(voronoi_fps::voronoi::select_fps(&points, 5, 0), Ok(vec![0, 3, 1, 2, 4]));
}

#[test]
fn square_scenario_distances() {
    let points = square_with_center();
    let mut direct = DirectSelector::new(&points, 0).ok().unwrap();
    let mut voronoi = VoronoiDecomposer::new(&points, 0).ok().unwrap();
    let expected: Vec<(usize, u128)> = vec![(3, 200), (1, 100), (2, 100), (4, 50)];
    let mut step: usize = 0;
    while step < expected.len() {
        assert_eq!(direct.next_point(), Ok(expected[step]));
        assert_eq!(voronoi.next_point(), Ok(expected[step]));
        assert_eq!(direct.add_point(expected[step].0), Ok(()));
        assert!(voronoi.add_point(expected[step].0).is_ok());
        step += 1;
    }
    assert_eq!(direct.next_point(), Err(FpsError::EmptyCandidateSet));
    assert_eq!(voronoi.next_point(), Err(FpsError::EmptyCandidateSet));
}

#[test]
fn tie_goes_to_the_lowest_index() {
    // Points 1 and 2 are both at squared distance 25 from the seed.
    let points = point_set(vec![vec![0, 0], vec![3, 4], vec![5, 0], vec![1, 1]]);
    assert_eq!(DirectSelector::new(&points, 0).ok().unwrap().next_point(), Ok((1, 25)));
    assert_eq!(VoronoiDecomposer::new(&points, 0).ok().unwrap().next_point(), Ok((1, 25)));
    // The same points in the other order: the tie still goes to index 1.
    let swapped = point_set(vec![vec![0, 0], vec![5, 0], vec![3, 4], vec![1, 1]]);
    assert_eq!(DirectSelector::new(&swapped, 0).ok().unwrap().next_point(), Ok((1, 25)));
    assert_eq!(VoronoiDecomposer::new(&swapped, 0).ok().unwrap().next_point(), Ok((1, 25)));
}

#[test]
fn single_point_set() {
    let points = point_set(vec![vec![7, -7]]);
    assert_eq!(voronoi_fps::simple::select_fps(&points, 1, 0), Ok(vec![0]));
    assert_eq!(voronoi_fps::voronoi::select_fps(&points, 1, 0), Ok(vec![0]));
    let direct = DirectSelector::new(&points, 0).ok().unwrap();
    assert_eq!(direct.next_point(), Err(FpsError::EmptyCandidateSet));
    let voronoi = VoronoiDecomposer::new(&points, 0).ok().unwrap();
    assert_eq!(voronoi.next_point(), Err(FpsError::EmptyCandidateSet));
    assert_eq!(voronoi.radius2(), &vec![0]);
}

#[test]
fn seed_out_of_range() {
    let points = square_with_center();
    assert!(matches!(DirectSelector::new(&points, 5), Err(FpsError::IndexOutOfRange)));
    assert!(matches!(VoronoiDecomposer::new(&points, 5), Err(FpsError::IndexOutOfRange)));
    assert!(matches!(VoronoiDecomposer::new(&points, usize::MAX), Err(FpsError::IndexOutOfRange)));
    assert_eq!(voronoi_fps::simple::select_fps(&points, 2, 5), Err(FpsError::IndexOutOfRange));
    assert_eq!(voronoi_fps::voronoi::select_fps(&points, 2, 5), Err(FpsError::IndexOutOfRange));
    // The seed is looked at before the count.
    assert_eq!(voronoi_fps::simple::select_fps(&points, 9, 5), Err(FpsError::IndexOutOfRange));
    assert_eq!(voronoi_fps::voronoi::select_fps(&points, 0, 5), Err(FpsError::IndexOutOfRange));
}

#[test]
fn failed_initialize_leaves_the_selection() {
    let points = square_with_center();
    let mut voronoi = VoronoiDecomposer::new(&points, 0).ok().unwrap();
    assert!(voronoi.add_point(3).is_ok());
    assert_eq!(voronoi.initialize(5), Err(FpsError::IndexOutOfRange));
    assert_eq!(voronoi.selected(), &vec![0, 3]);
    assert_eq!(voronoi.next_point(), Ok((1, 100)));
    let mut direct = DirectSelector::new(&points, 0).ok().unwrap();
    assert_eq!(direct.add_point(3), Ok(()));
    assert_eq!(direct.initialize(5), Err(FpsError::IndexOutOfRange));
    assert_eq!(direct.selected(), &vec![0, 3]);
    assert_eq!(direct.next_point(), Ok((1, 100)));
}

#[test]
fn initialize_starts_anew() {
    let points = square_with_center();
    let mut voronoi = VoronoiDecomposer::new(&points, 0).ok().unwrap();
    assert!(voronoi.add_point(3).is_ok());
    assert_eq!(voronoi.initialize(4), Ok(()));
    assert_eq!(voronoi.selected(), &vec![4]);
    assert_eq!(voronoi.radius2(), &vec![50]);
    assert_eq!(voronoi.next_point(), Ok((0, 50)));
    let mut direct = DirectSelector::new(&points, 0).ok().unwrap();
    assert_eq!(direct.add_point(3), Ok(()));
    assert_eq!(direct.initialize(4), Ok(()));
    assert_eq!(direct.selected(), &vec![4]);
    assert_eq!(direct.next_point(), Ok((0, 50)));
}

#[test]
fn not_initialized() {
    let points = square_with_center();
    let mut direct = DirectSelector::unseeded(&points);
    assert_eq!(direct.next_point(), Err(FpsError::NotInitialized));
    assert_eq!(direct.add_point(1), Err(FpsError::NotInitialized));
    assert_eq!(direct.add_point(99), Err(FpsError::NotInitialized));
    assert!(direct.selected().is_empty());
    let mut voronoi = VoronoiDecomposer::unseeded(&points);
    assert_eq!(voronoi.next_point(), Err(FpsError::NotInitialized));
    assert_eq!(voronoi.add_point(1), Err(FpsError::NotInitialized));
    assert_eq!(voronoi.add_point_exhaustive(99), Err(FpsError::NotInitialized));
    assert!(voronoi.selected().is_empty());
    assert!(voronoi.radius2().is_empty());
    assert!(voronoi.cells().is_empty());
    assert_eq!(voronoi.initialize(2), Ok(()));
    assert_eq!(voronoi.next_point(), Ok((1, 200)));
    assert_eq!(direct.initialize(2), Ok(()));
    assert_eq!(direct.next_point(), Ok((1, 200)));
}

#[test]
fn add_point_refuses_bad_indices() {
    let points = square_with_center();
    let mut direct = DirectSelector::new(&points, 0).ok().unwrap();
    let mut voronoi = VoronoiDecomposer::new(&points, 0).ok().unwrap();
    assert_eq!(direct.add_point(5), Err(FpsError::IndexOutOfRange));
    assert_eq!(voronoi.add_point(5), Err(FpsError::IndexOutOfRange));
    assert_eq!(voronoi.add_point_exhaustive(5), Err(FpsError::IndexOutOfRange));
    assert_eq!(direct.add_point(0), Err(FpsError::AlreadySelected));
    assert_eq!(voronoi.add_point(0), Err(FpsError::AlreadySelected));
    assert_eq!(direct.add_point(3), Ok(()));
    assert!(voronoi.add_point(3).is_ok());
    assert_eq!(direct.add_point(3), Err(FpsError::AlreadySelected));
    assert_eq!(voronoi.add_point(3), Err(FpsError::AlreadySelected));
    assert_eq!(voronoi.add_point_exhaustive(3), Err(FpsError::AlreadySelected));
    assert_eq!(direct.selected(), &vec![0, 3]);
    assert_eq!(voronoi.selected(), &vec![0, 3]);
    assert_eq!(voronoi.radius2().len(), 2);
}

#[test]
fn too_many_points_asked_for() {
    let points = square_with_center();
    assert_eq!(voronoi_fps::simple::select_fps(&points, 6, 0), Err(FpsError::EmptyCandidateSet));
    assert_eq!(voronoi_fps::voronoi::select_fps(&points, 6, 0), Err(FpsError::EmptyCandidateSet));
}

#[test]
fn no_points_asked_for() {
    let points = square_with_center();
    assert_eq!(voronoi_fps::simple::select_fps(&points, 0, 2), Ok(vec![]));
    assert_eq!(voronoi_fps::voronoi::select_fps(&points, 0, 2), Ok(vec![]));
}

#[test]
fn only_the_seed_asked_for() {
    let points = square_with_center();
    assert_eq!(voronoi_fps::simple::select_fps(&points, 1, 4), Ok(vec![4]));
    assert_eq!(voronoi_fps::voronoi::select_fps(&points, 1, 4), Ok(vec![4]));
}

#[test]
fn driver_gives_one_result_for_both_engines() {
    let points = scattered(40, 3, 11);
    let mut seed: usize = 0;
    while seed < 40 {
        let direct = voronoi_fps::driver::select_fps(&points, 25, seed, Engine::Direct);
        let voronoi = voronoi_fps::driver::select_fps(&points, 25, seed, Engine::Voronoi);
        assert!(direct.is_ok());
        assert_eq!(direct, voronoi);
        assert_eq!(direct, voronoi_fps::simple::select_fps(&points, 25, seed));
        seed += 7;
    }
    assert_eq!(
        voronoi_fps::driver::select_fps(&points, 41, 0, Engine::Direct),
        Err(FpsError::EmptyCandidateSet)
    );
    assert_eq!(
        voronoi_fps::driver::select_fps(&points, 2, 40, Engine::Voronoi),
        Err(FpsError::IndexOutOfRange)
    );
}

#[test]
fn engines_agree_step_by_step() {
    let mut round: u64 = 0;
    while round < 6 {
        let n: usize = 30 + 5 * (round as usize);
        let points = scattered(n, 2 + (round as usize) % 3, 1000 + round);
        let seed: usize = (round as usize * 13) % n;
        let mut direct = DirectSelector::new(&points, seed).ok().unwrap();
        let mut voronoi = VoronoiDecomposer::new(&points, seed).ok().unwrap();
        let mut step: usize = 1;
        while step < n {
            let a = direct.next_point();
            let b = voronoi.next_point();
            assert!(a.is_ok());
            assert_eq!(a, b);
            let expected = farthest_by_definition(&points, direct.selected());
            assert_eq!(a.ok(), expected);
            let (idx, _) = a.ok().unwrap();
            assert_eq!(direct.add_point(idx), Ok(()));
            assert!(voronoi.add_point(idx).is_ok());
            assert_eq!(direct.selected(), voronoi.selected());
            step += 1;
        }
        assert_eq!(direct.next_point(), Err(FpsError::EmptyCandidateSet));
        assert_eq!(voronoi.next_point(), Err(FpsError::EmptyCandidateSet));
        round += 1;
    }
}

#[test]
fn repeated_runs_give_the_same_sequence() {
    let points = scattered(50, 3, 5);
    let first = voronoi_fps::voronoi::select_fps(&points, 50, 17);
    let second = voronoi_fps::voronoi::select_fps(&points, 50, 17);
    let third = voronoi_fps::simple::select_fps(&points, 50, 17);
    assert!(first.is_ok());
    assert_eq!(first, second);
    assert_eq!(first, third);
    let again = scattered(50, 3, 5);
    assert_eq!(voronoi_fps::voronoi::select_fps(&again, 50, 17), first);
}

#[test]
fn selection_holds_every_point_once() {
    let points = scattered(45, 2, 77);
    let out = voronoi_fps::voronoi::select_fps(&points, 45, 3).ok().unwrap();
    assert_eq!(out.len(), 45);
    assert_eq!(out[0], 3);
    let mut sorted: Vec<usize> = out.clone();
    sorted.sort();
    let mut i: usize = 0;
    while i < 45 {
        assert_eq!(sorted[i], i);
        i += 1;
    }
}

#[test]
fn candidate_distances_never_grow() {
    let points = scattered(60, 3, 2024);
    let mut voronoi = VoronoiDecomposer::new(&points, 0).ok().unwrap();
    let mut last: Option<u128> = None;
    let mut step: usize = 1;
    while step < 60 {
        let (idx, d) = voronoi.next_point().ok().unwrap();
        if let Some(before) = last {
            assert!(d <= before);
        }
        last = Some(d);
        assert!(voronoi.add_point(idx).is_ok());
        step += 1;
    }
}

#[test]
fn duplicate_points_are_selected_last() {
    let points = point_set(vec![vec![0, 0], vec![0, 0], vec![0, 0], vec![5, 5], vec![5, 5]]);
    assert_eq!(voronoi_fps::simple::select_fps(&points, 5, 0), Ok(vec![0, 3, 1, 2, 4]));
    assert_eq!(voronoi_fps::voronoi::select_fps(&points, 5, 0), Ok(vec![0, 3, 1, 2, 4]));
    let mut voronoi = VoronoiDecomposer::new(&points, 0).ok().unwrap();
    assert_eq!(voronoi.next_point(), Ok((3, 50)));
    assert_eq!(voronoi.add_point(3), Ok(0));
    assert_eq!(voronoi.next_point(), Ok((1, 0)));
    assert_eq!(voronoi.add_point(1), Ok(0));
    assert_eq!(voronoi.next_point(), Ok((2, 0)));
    assert_eq!(voronoi.add_point(2), Ok(0));
    assert_eq!(voronoi.next_point(), Ok((4, 0)));
    assert_eq!(voronoi.add_point(4), Ok(0));
    assert_eq!(voronoi.next_point(), Err(FpsError::EmptyCandidateSet));
}

#[test]
fn forced_points_between_automatic_picks() {
    let points = scattered(35, 2, 99);
    let mut direct = DirectSelector::new(&points, 4).ok().unwrap();
    let mut voronoi = VoronoiDecomposer::new(&points, 4).ok().unwrap();
    let forced: Vec<usize> = vec![0, 34, 17, 5];
    let mut k: usize = 0;
    while k < forced.len() {
        let (idx, _) = direct.next_point().ok().unwrap();
        assert_eq!(voronoi.next_point(), direct.next_point());
        assert_eq!(direct.add_point(idx), Ok(()));
        assert!(voronoi.add_point(idx).is_ok());
        let p: usize = forced[k];
        let a = direct.add_point(p);
        let b = voronoi.add_point(p);
        assert_eq!(a.is_ok(), b.is_ok());
        if a.is_err() {
            assert_eq!(a, Err(FpsError::AlreadySelected));
            assert_eq!(b, Err(FpsError::AlreadySelected));
        }
        assert_eq!(direct.selected(), voronoi.selected());
        assert_eq!(voronoi.next_point(), direct.next_point());
        assert_eq!(direct.next_point().ok(), farthest_by_definition(&points, direct.selected()));
        k += 1;
    }
}

#[test]
fn into_selected_hands_out_the_sequence() {
    let points = square_with_center();
    let mut voronoi = VoronoiDecomposer::new(&points, 1).ok().unwrap();
    assert!(voronoi.add_point(2).is_ok());
    assert_eq!(voronoi.into_selected(), vec![1, 2]);
    let mut direct = DirectSelector::new(&points, 1).ok().unwrap();
    assert_eq!(direct.add_point(2), Ok(()));
    assert_eq!(direct.into_selected(), vec![1, 2]);
}
