use dungeon::Board;
use dungeon::Driver;
use dungeon::RandomSource;
use dungeon::Space;
use dungeon::MAX_ITERS;

fn make_board(rows: [&str; 8], row_t: [u8; 8], col_t: [u8; 8]) -> Board {
    let mut b = Board::new();
    for r in 0..8 {
        let chars: Vec<char> = rows[r].chars().collect();
        assert_eq!(chars.len(), 8);
        for c in 0..8 {
            let s = match chars[c] {
                'W' => Space::Wall,
                '.' => Space::Empty,
                'C' => Space::Chest,
                'M' => Space::Monster,
                _ => Space::Unassigned,
            };
            b.set_cell(r, c, s);
        }
        b.set_row_target(r, row_t[r]);
        b.set_col_target(r, col_t[r]);
    }
    b
}

// The ring puzzle given to the search as all-unassigned cells: the search
// has to find a layout meeting the targets of the ring corridor.
fn ring_search_board() -> Board {
    make_board(
        [
            "UUUUUUUU",
            "UUUUUUUU",
            "UUUUUUUU",
            "UUUUUUUU",
            "UUUUUUUU",
            "UUUUUUUU",
            "UUUUUUUU",
            "UUUUUUUU",
        ],
        [5, 6, 5, 8, 8, 8, 8, 8],
        [5, 6, 5, 8, 8, 8, 8, 8],
    )
}

// The acceptance draw of the annealing schedule: accept an uphill move when
// exp(-(new - old) / temperature) beats a fresh uniform draw from [0, 1).
fn uphill_draw(rng: &mut RandomSource, new_cost: i32, cur_cost: i32, iteration: u32, max_iters: u32) -> bool {
    let temperature = 1.0 - (iteration as f64) / (max_iters as f64);
    let u = (rng.next_u64() >> 11) as f64 / 9007199254740992.0;
    ((-(new_cost - cur_cost)) as f64 / temperature).exp() > u
}

// Run the annealing loop to completion; returns (resets, iteration, steps).
fn run_search(seed: u64, max_iters: u32, step_budget: u64) -> Option<(u32, u32, u64)> {
    let board = ring_search_board();
    assert!(board.has_changeable_cell());
    let mut rng = RandomSource::from_seed(seed);
    let mut driver = Driver::new(board, max_iters, &mut rng);
    let mut steps: u64 = 0;
    while !driver.solved() && steps < step_budget {
        let candidate_cost = driver.propose(&mut rng);
        let up = uphill_draw(&mut rng, candidate_cost, driver.cost(), driver.iteration(), driver.max_iters());
        assert!(driver.is_pending());
        assert!(driver.resets() < u32::MAX);
        driver.decide(up, &mut rng);
        steps += 1;
    }
    if driver.solved() {
        assert!(driver.board().cost() <= 0);
        Some((driver.resets(), driver.iteration(), steps))
    } else {
        None
    }
}

#[test]
fn search_solves_and_is_reproducible_for_a_seed() {
    let first = run_search(12345, 5000, 400_000);
    assert!(first.is_some());
    let second = run_search(12345, 5000, 400_000);
    assert_eq!(first, second);
}

#[test]
fn search_terminates_with_another_seed() {
    let outcome = run_search(987654321, 5000, 400_000);
    assert!(outcome.is_some());
}

#[test]
fn solved_search_yields_valid_layout() {
    let board = ring_search_board();
    let mut rng = RandomSource::from_seed(99);
    let mut driver = Driver::new(board, 5000, &mut rng);
    let mut steps: u64 = 0;
    while !driver.solved() && steps < 400_000 {
        let candidate_cost = driver.propose(&mut rng);
        let up = uphill_draw(&mut rng, candidate_cost, driver.cost(), driver.iteration(), driver.max_iters());
        driver.decide(up, &mut rng);
        steps += 1;
    }
    assert!(driver.solved());
    let b = driver.board();
    assert_eq!(b.cost(), driver.cost());
    assert!(driver.cost() <= 0);
    let mut floor_cells = 0;
    for r in 0..8 {
        for c in 0..8 {
            if b.get(r, c) != Space::Wall {
                floor_cells += 1;
            }
        }
    }
    if driver.cost() == 0 {
        // with one floor region every term is non-negative, so a zero cost
        // means the wall counts meet the targets exactly
        for i in 0..8usize {
            let mut row_walls = 0;
            let mut col_walls = 0;
            for j in 0..8usize {
                if b.get(i as i32, j as i32) == Space::Wall {
                    row_walls += 1;
                }
                if b.get(j as i32, i as i32) == Space::Wall {
                    col_walls += 1;
                }
            }
            assert_eq!(row_walls, i32::from(b.get_row_target(i)));
            assert_eq!(col_walls, i32::from(b.get_col_target(i)));
        }
    } else {
        // a negative cost only ever comes from a board with no floor at all
        assert_eq!(floor_cells, 0);
    }
}

#[test]
fn restart_resets_iteration_and_counts_once() {
    // targets no board can meet: every row wants all walls, every column
    // wants none, so the cost never reaches zero and the budget runs out
    let board = make_board(
        [
            "UUUUUUUU",
            "UUUUUUUU",
            "UUUUUUUU",
            "UUUUUUUU",
            "UUUUUUUU",
            "UUUUUUUU",
            "UUUUUUUU",
            "UUUUUUUU",
        ],
        [8, 8, 8, 8, 8, 8, 8, 8],
        [0, 0, 0, 0, 0, 0, 0, 0],
    );
    let mut rng = RandomSource::from_seed(5);
    let mut driver = Driver::new(board, 1, &mut rng);
    assert!(!driver.solved());
    assert_eq!(driver.iteration(), 0);
    assert_eq!(driver.resets(), 0);
    driver.propose(&mut rng);
    driver.decide(false, &mut rng);
    // the iteration budget of one was spent with positive cost: a restart
    assert_eq!(driver.iteration(), 0);
    assert_eq!(driver.resets(), 1);
    assert!(!driver.is_pending());
    // the board was rerandomized: fresh cost matches a recount
    assert_eq!(driver.cost(), driver.board().cost());
    driver.propose(&mut rng);
    driver.decide(false, &mut rng);
    assert_eq!(driver.iteration(), 0);
    assert_eq!(driver.resets(), 2);
}

#[test]
fn iteration_advances_without_restart() {
    let board = ring_search_board();
    let mut rng = RandomSource::from_seed(31);
    let mut driver = Driver::new(board, MAX_ITERS, &mut rng);
    let before = driver.iteration();
    if !driver.solved() {
        driver.propose(&mut rng);
        driver.decide(false, &mut rng);
        assert_eq!(driver.iteration(), before + 1);
        assert_eq!(driver.resets(), 0);
    }
}

#[test]
fn improving_candidate_is_accepted() {
    let board = ring_search_board();
    let mut rng = RandomSource::from_seed(77);
    let mut driver = Driver::new(board, MAX_ITERS, &mut rng);
    let mut tries = 0;
    while !driver.solved() && tries < 10_000 {
        let candidate_cost = driver.propose(&mut rng);
        let cur = driver.cost();
        driver.decide(false, &mut rng);
        if candidate_cost < cur {
            // strictly better candidates are always taken
            assert_eq!(driver.cost(), candidate_cost);
        } else {
            // with the uphill draw refused, the board keeps its cost
            assert_eq!(driver.cost(), cur);
        }
        tries += 1;
    }
}
