use rand::rngs::StdRng;
use rand::SeedableRng;
use sliding_puzzle::{
    draw_bound, find_blank, generate_random_board, generate_solvable_board, is_solvable,
    is_solved, layout_board, make_move, make_random_moves, pick_direction, walk_step,
    Direction, RetryPolicy,
};

fn grid(rows: &[&[u8]]) -> Vec<Vec<u8>> {
    rows.iter().map(|r| r.to_vec()).collect()
}

fn is_permutation(b: &Vec<Vec<u8>>) -> bool {
    let n = b.len();
    let mut seen = vec![0u32; n * n];
    for row in b {
        if row.len() != n {
            return false;
        }
        for &x in row {
            if x as usize >= n * n {
                return false;
            }
            seen[x as usize] += 1;
        }
    }
    seen.iter().all(|&c| c == 1)
}

const ALL: [Direction; 4] = [Direction::Up, Direction::Down, Direction::Left, Direction::Right];

#[test]
fn right_move_on_two_by_two() {
    let b = grid(&[&[2, 1], &[0, 3]]);
    assert_eq!(make_move(&b, Direction::Right), Some(grid(&[&[2, 1], &[3, 0]])));
}

#[test]
fn two_by_two_with_one_inversion_is_odd() {
    // tiles 2, 1, 3: one inversion; an even side adds no row
    let b = grid(&[&[2, 1], &[0, 3]]);
    assert!(!is_solvable(&b));
}

#[test]
fn solved_boards_are_solvable() {
    assert!(is_solvable(&grid(&[&[1, 2], &[3, 0]])));
    assert!(is_solvable(&grid(&[&[1, 2, 3], &[4, 5, 6], &[7, 8, 0]])));
    assert!(is_solvable(&grid(&[&[0]])));
}

#[test]
fn odd_side_adds_blank_row() {
    // no inversions, blank in row 1
    assert!(!is_solvable(&grid(&[&[1, 2, 3], &[4, 0, 5], &[6, 7, 8]])));
    // one inversion, blank in row 1
    assert!(is_solvable(&grid(&[&[2, 1, 3], &[4, 0, 5], &[6, 7, 8]])));
    // one inversion, blank in row 0
    assert!(!is_solvable(&grid(&[&[0, 2, 1], &[3, 4, 5], &[6, 7, 8]])));
}

#[test]
fn even_side_counts_inversions_only() {
    // tiles 3, 2, 1: three inversions
    assert!(!is_solvable(&grid(&[&[3, 2], &[1, 0]])));
    // tiles 2, 3, 1: two inversions
    assert!(is_solvable(&grid(&[&[0, 2], &[3, 1]])));
}

#[test]
fn sideways_moves_keep_solvability() {
    let boards = [
        grid(&[&[1, 2], &[3, 0]]),
        grid(&[&[2, 1], &[0, 3]]),
        grid(&[&[1, 2, 3], &[4, 0, 5], &[6, 7, 8]]),
        grid(&[&[8, 1, 3], &[4, 0, 2], &[7, 6, 5]]),
    ];
    for b in boards.iter() {
        for d in [Direction::Left, Direction::Right] {
            if let Some(nb) = make_move(b, d) {
                assert_eq!(is_solvable(&nb), is_solvable(b));
            }
        }
    }
}

#[test]
fn vertical_move_flips_the_verdict() {
    let b = grid(&[&[1, 2], &[3, 0]]);
    let nb = make_move(&b, Direction::Up).unwrap();
    assert_eq!(nb, grid(&[&[1, 0], &[3, 2]]));
    assert!(is_solvable(&b));
    assert!(!is_solvable(&nb));
}

#[test]
fn moves_at_the_edges_are_refused() {
    let top_left = grid(&[&[0, 1, 2], &[3, 4, 5], &[6, 7, 8]]);
    assert_eq!(make_move(&top_left, Direction::Up), None);
    assert_eq!(make_move(&top_left, Direction::Left), None);
    assert_eq!(
        make_move(&top_left, Direction::Down),
        Some(grid(&[&[3, 1, 2], &[0, 4, 5], &[6, 7, 8]]))
    );
    assert_eq!(
        make_move(&top_left, Direction::Right),
        Some(grid(&[&[1, 0, 2], &[3, 4, 5], &[6, 7, 8]]))
    );
    let bottom_right = grid(&[&[1, 2, 3], &[4, 5, 6], &[7, 8, 0]]);
    assert_eq!(make_move(&bottom_right, Direction::Down), None);
    assert_eq!(make_move(&bottom_right, Direction::Right), None);
    assert!(make_move(&bottom_right, Direction::Up).is_some());
    assert!(make_move(&bottom_right, Direction::Left).is_some());
}

#[test]
fn centre_blank_moves_every_way() {
    let b = grid(&[&[1, 2, 3], &[4, 0, 5], &[6, 7, 8]]);
    assert_eq!(make_move(&b, Direction::Up), Some(grid(&[&[1, 0, 3], &[4, 2, 5], &[6, 7, 8]])));
    assert_eq!(make_move(&b, Direction::Down), Some(grid(&[&[1, 2, 3], &[4, 7, 5], &[6, 0, 8]])));
    assert_eq!(make_move(&b, Direction::Left), Some(grid(&[&[1, 2, 3], &[0, 4, 5], &[6, 7, 8]])));
    assert_eq!(make_move(&b, Direction::Right), Some(grid(&[&[1, 2, 3], &[4, 5, 0], &[6, 7, 8]])));
}

#[test]
fn single_cell_has_no_moves() {
    let b = grid(&[&[0]]);
    for d in ALL {
        assert_eq!(make_move(&b, d), None);
    }
}

#[test]
fn move_then_opposite_restores_board() {
    let b = grid(&[&[5, 1, 3], &[4, 0, 2], &[7, 6, 8]]);
    for d in ALL {
        let nb = make_move(&b, d).unwrap();
        assert!(is_permutation(&nb));
        assert_ne!(nb, b);
        assert_eq!(make_move(&nb, d.opposite()), Some(b.clone()));
    }
}

#[test]
fn opposite_directions() {
    assert_eq!(Direction::Up.opposite(), Direction::Down);
    assert_eq!(Direction::Down.opposite(), Direction::Up);
    assert_eq!(Direction::Left.opposite(), Direction::Right);
    assert_eq!(Direction::Right.opposite(), Direction::Left);
}

#[test]
fn first_blank_wins() {
    let b = grid(&[&[1, 0], &[0, 2]]);
    assert_eq!(find_blank(&b), 1);
    assert_eq!(make_move(&b, Direction::Left), Some(grid(&[&[0, 1], &[0, 2]])));
}

#[test]
fn canonical_order_is_solved() {
    assert!(is_solved(&grid(&[&[1, 2], &[3, 0]])));
    assert!(is_solved(&grid(&[&[1, 2, 3], &[4, 5, 6], &[7, 8, 0]])));
    assert!(is_solved(&grid(&[
        &[1, 2, 3, 4],
        &[5, 6, 7, 8],
        &[9, 10, 11, 12],
        &[13, 14, 15, 0]
    ])));
}

#[test]
fn single_cell_is_solved() {
    assert!(is_solved(&grid(&[&[0]])));
}

#[test]
fn other_orders_are_not_solved() {
    assert!(!is_solved(&grid(&[&[1, 2], &[0, 3]])));
    assert!(!is_solved(&grid(&[&[2, 1], &[3, 0]])));
    assert!(!is_solved(&grid(&[&[0, 1], &[2, 3]])));
    assert!(!is_solved(&grid(&[&[1, 2, 3], &[4, 5, 6], &[8, 7, 0]])));
    assert!(!is_solved(&grid(&[&[1, 2, 3], &[4, 5, 6], &[7, 0, 8]])));
}

#[test]
fn every_permutation_of_two_by_two_but_one_is_unsolved() {
    let mut labels = [0u8, 1, 2, 3];
    let mut solved = 0;
    // all 24 orders by Heap's algorithm
    let mut c = [0usize; 4];
    let mut visit = |l: &[u8; 4]| {
        let b = grid(&[&[l[0], l[1]], &[l[2], l[3]]]);
        if is_solved(&b) {
            solved += 1;
            assert_eq!(*l, [1, 2, 3, 0]);
        }
    };
    visit(&labels);
    let mut i = 0;
    while i < 4 {
        if c[i] < i {
            if i % 2 == 0 {
                labels.swap(0, i);
            } else {
                labels.swap(c[i], i);
            }
            visit(&labels);
            c[i] += 1;
            i = 0;
        } else {
            c[i] = 0;
            i += 1;
        }
    }
    assert_eq!(solved, 1);
}

#[test]
fn generated_boards_are_permutations() {
    for size in 1..=5 {
        for seed in 0..20u64 {
            let mut rng = StdRng::seed_from_u64(seed);
            let b = generate_random_board(size, &mut rng);
            assert_eq!(b.len(), size);
            assert!(is_permutation(&b));
        }
    }
}

#[test]
fn largest_board_is_a_permutation() {
    let mut rng = StdRng::seed_from_u64(3);
    let b = generate_random_board(16, &mut rng);
    assert!(is_permutation(&b));
}

#[test]
fn generated_boards_are_shuffled() {
    let identity = grid(&[&[0, 1, 2], &[3, 4, 5], &[6, 7, 8]]);
    let mut differs = 0;
    for seed in 0..10u64 {
        let mut rng = StdRng::seed_from_u64(seed);
        if generate_random_board(3, &mut rng) != identity {
            differs += 1;
        }
    }
    assert!(differs > 0);
}

#[test]
fn retried_generation_yields_solvable_boards() {
    for size in 1..=4 {
        for seed in 0..50u64 {
            let mut rng = StdRng::seed_from_u64(seed);
            let b = generate_solvable_board(size, &mut rng, 200).unwrap();
            assert!(is_permutation(&b));
            assert!(is_solvable(&b));
        }
    }
}

#[test]
fn single_cell_generation_succeeds_at_once() {
    let mut rng = StdRng::seed_from_u64(1);
    assert_eq!(generate_solvable_board(1, &mut rng, 1), Some(grid(&[&[0]])));
}

#[test]
fn no_tries_gives_nothing() {
    let mut rng = StdRng::seed_from_u64(1);
    assert_eq!(generate_solvable_board(2, &mut rng, 0), None);
}

#[test]
fn walker_solves_two_by_two() {
    for policy in [RetryPolicy::Uniform, RetryPolicy::AvoidLastFailed] {
        for seed in 0..10u64 {
            let start = grid(&[&[1, 2], &[0, 3]]);
            assert!(is_solvable(&start));
            let mut rng = StdRng::seed_from_u64(seed);
            let (end, moves) = make_random_moves(&start, policy, 100_000, &mut rng);
            assert!(is_solved(&end));
            assert_eq!(end, grid(&[&[1, 2], &[3, 0]]));
            assert!(moves >= 1);
            assert!(moves < 100_000);
        }
    }
}

#[test]
fn walker_solves_three_by_three_near_goal() {
    let start = grid(&[&[1, 2, 3], &[4, 5, 6], &[7, 0, 8]]);
    assert!(is_solvable(&start));
    let mut rng = StdRng::seed_from_u64(42);
    let (end, moves) = make_random_moves(&start, RetryPolicy::AvoidLastFailed, 5_000_000, &mut rng);
    assert!(is_solved(&end));
    assert!(moves < 5_000_000);
}

#[test]
fn walker_is_reproducible_under_a_seed() {
    let start = grid(&[&[1, 2], &[0, 3]]);
    let mut a = StdRng::seed_from_u64(9);
    let mut b = StdRng::seed_from_u64(9);
    let ra = make_random_moves(&start, RetryPolicy::Uniform, 100_000, &mut a);
    let rb = make_random_moves(&start, RetryPolicy::Uniform, 100_000, &mut b);
    assert_eq!(ra, rb);
}

#[test]
fn walker_leaves_solved_board_alone() {
    let start = grid(&[&[1, 2], &[3, 0]]);
    let mut rng = StdRng::seed_from_u64(0);
    assert_eq!(make_random_moves(&start, RetryPolicy::Uniform, 10, &mut rng), (start.clone(), 0));
}

#[test]
fn walker_stops_at_the_move_budget() {
    // one inversion on an even side: the test calls it unsolvable, and no
    // walk reaches the goal
    let start = grid(&[&[2, 1], &[0, 3]]);
    let mut rng = StdRng::seed_from_u64(5);
    let (end, moves) = make_random_moves(&start, RetryPolicy::Uniform, 1000, &mut rng);
    assert_eq!(moves, 1000);
    assert!(!is_solved(&end));
    assert!(is_permutation(&end));
}

#[test]
fn pick_direction_orders_and_skips() {
    assert_eq!(pick_direction(RetryPolicy::Uniform, None, 0), Direction::Up);
    assert_eq!(pick_direction(RetryPolicy::Uniform, None, 1), Direction::Down);
    assert_eq!(pick_direction(RetryPolicy::Uniform, None, 2), Direction::Left);
    assert_eq!(pick_direction(RetryPolicy::Uniform, None, 3), Direction::Right);
    assert_eq!(pick_direction(RetryPolicy::Uniform, Some(Direction::Up), 0), Direction::Up);
    let f = Some(Direction::Down);
    assert_eq!(pick_direction(RetryPolicy::AvoidLastFailed, f, 0), Direction::Up);
    assert_eq!(pick_direction(RetryPolicy::AvoidLastFailed, f, 1), Direction::Left);
    assert_eq!(pick_direction(RetryPolicy::AvoidLastFailed, f, 2), Direction::Right);
    for last in ALL {
        for draw in 0..3u8 {
            assert_ne!(pick_direction(RetryPolicy::AvoidLastFailed, Some(last), draw), last);
        }
    }
}

#[test]
fn walk_step_reports_refusal_and_success() {
    let b = grid(&[&[0, 1], &[2, 3]]);
    assert_eq!(walk_step(&b, RetryPolicy::Uniform, None, 0), (None, Some(Direction::Up)));
    assert_eq!(
        walk_step(&b, RetryPolicy::AvoidLastFailed, Some(Direction::Up), 0),
        (Some(grid(&[&[2, 1], &[0, 3]])), None)
    );
}

#[test]
fn layout_is_row_major() {
    assert_eq!(layout_board(&vec![3, 1, 0, 2], 2), grid(&[&[3, 1], &[0, 2]]));
    assert_eq!(
        layout_board(&vec![8, 7, 6, 5, 4, 3, 2, 1, 0], 3),
        grid(&[&[8, 7, 6], &[5, 4, 3], &[2, 1, 0]])
    );
    assert_eq!(layout_board(&vec![0], 1), grid(&[&[0]]));
}

#[test]
fn draw_bound_leaves_out_the_refused_direction() {
    assert_eq!(draw_bound(RetryPolicy::Uniform, None), 4);
    assert_eq!(draw_bound(RetryPolicy::Uniform, Some(Direction::Left)), 4);
    assert_eq!(draw_bound(RetryPolicy::AvoidLastFailed, None), 4);
    assert_eq!(draw_bound(RetryPolicy::AvoidLastFailed, Some(Direction::Left)), 3);
}

#[test]
fn swapping_neighbouring_tiles_flips_the_verdict() {
    let boards = [
        grid(&[&[1, 2], &[3, 0]]),
        grid(&[&[2, 1], &[0, 3]]),
        grid(&[&[1, 2, 3], &[4, 5, 6], &[7, 8, 0]]),
        grid(&[&[8, 1, 3], &[4, 0, 2], &[7, 6, 5]]),
    ];
    for b in boards.iter() {
        let n = b.len();
        let flat: Vec<u8> = b.iter().flatten().cloned().collect();
        for k in 0..n * n - 1 {
            if flat[k] != 0 && flat[k + 1] != 0 {
                let mut swapped = flat.clone();
                swapped.swap(k, k + 1);
                let nb = layout_board(&swapped, n);
                assert!(is_permutation(&nb));
                assert_ne!(is_solvable(&nb), is_solvable(b));
            }
        }
    }
}
