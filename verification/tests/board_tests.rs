use dungeon::Board;
use dungeon::RandomSource;
use dungeon::Space;

fn board_from(rows: [&str; 8], row_t: [u8; 8], col_t: [u8; 8]) -> Board {
    let mut b = Board::new();
    for r in 0..8 {
        let chars: Vec<char> = rows[r].chars().collect();
        assert_eq!(chars.len(), 8);
        for c in 0..8 {
            let s = match chars[c] {
                'W' => Space::Wall,
                '.' => Space::Empty,
                'C' => Space::Chest,
                'M' => Space::Monster,
                _ => Space::Unassigned,
            };
            b.set_cell(r, c, s);
        }
        b.set_row_target(r, row_t[r]);
        b.set_col_target(r, col_t[r]);
    }
    b
}

// A valid layout: one chest in a fully open 3x3 room, sealed except for one
// entrance held by a monster in a dead end; wall counts match the targets.
fn chest_puzzle() -> Board {
    board_from(
        [
            "WWWWWWWW",
            "W...WWWW",
            "W.C.MWWW",
            "W...WWWW",
            "WWWWWWWW",
            "WWWWWWWW",
            "WWWWWWWW",
            "WWWWWWWW",
        ],
        [8, 5, 4, 5, 8, 8, 8, 8],
        [8, 5, 5, 5, 7, 8, 8, 8],
    )
}

// A valid layout without chests or monsters: a ring corridor, no dead ends,
// no open 2x2, one region.
fn ring_puzzle() -> Board {
    board_from(
        [
            "...WWWWW",
            ".W.WWWWW",
            "...WWWWW",
            "WWWWWWWW",
            "WWWWWWWW",
            "WWWWWWWW",
            "WWWWWWWW",
            "WWWWWWWW",
        ],
        [5, 6, 5, 8, 8, 8, 8, 8],
        [5, 6, 5, 8, 8, 8, 8, 8],
    )
}

#[test]
fn zero_cost_chest_layout() {
    assert_eq!(chest_puzzle().cost(), 0);
}

#[test]
fn zero_cost_ring_layout() {
    assert_eq!(ring_puzzle().cost(), 0);
}

#[test]
fn cost_is_deterministic() {
    let b = chest_puzzle();
    let first = b.cost();
    let second = b.cost();
    assert_eq!(first, second);
    let copy = b.duplicate();
    assert_eq!(copy.cost(), first);
}

#[test]
fn get_returns_stored_cell_in_range() {
    let b = chest_puzzle();
    assert_eq!(b.get(2, 2), Space::Chest);
    assert_eq!(b.get(2, 4), Space::Monster);
    assert_eq!(b.get(2, 1), Space::Empty);
    assert_eq!(b.get(0, 0), Space::Wall);
    assert_eq!(b.get(7, 7), Space::Wall);
}

#[test]
fn get_returns_wall_out_of_range() {
    let b = chest_puzzle();
    assert_eq!(b.get(-1, 0), Space::Wall);
    assert_eq!(b.get(0, -1), Space::Wall);
    assert_eq!(b.get(8, 3), Space::Wall);
    assert_eq!(b.get(3, 8), Space::Wall);
    assert_eq!(b.get(-100, 200), Space::Wall);
}

#[test]
fn step_flips_exactly_one_changeable_cell() {
    let b = chest_puzzle();
    let mut rng = RandomSource::from_seed(7);
    for _ in 0..50 {
        let nb = b.step(&mut rng);
        let mut diffs = 0;
        for r in 0..8 {
            for c in 0..8 {
                let old = b.get(r, c);
                let new = nb.get(r, c);
                if old != new {
                    diffs += 1;
                    assert!(old.can_change());
                    assert!(old != Space::Chest && old != Space::Monster);
                    let flipped = if old == Space::Wall { Space::Empty } else { Space::Wall };
                    assert_eq!(new, flipped);
                }
            }
        }
        assert_eq!(diffs, 1);
        for i in 0..8 {
            assert_eq!(nb.get_row_target(i), b.get_row_target(i));
            assert_eq!(nb.get_col_target(i), b.get_col_target(i));
        }
    }
}

#[test]
fn initialize_redraws_only_changeable_cells() {
    let mut b = chest_puzzle();
    let mut rng = RandomSource::from_seed(11);
    b.initialize(&mut rng);
    assert_eq!(b.get(2, 2), Space::Chest);
    assert_eq!(b.get(2, 4), Space::Monster);
    for r in 0..8 {
        for c in 0..8 {
            let s = b.get(r, c);
            if (r, c) != (2, 2) && (r, c) != (2, 4) {
                assert!(s == Space::Wall || s == Space::Empty);
            }
        }
    }
}

#[test]
fn disconnection_costs_exactly_twenty() {
    // two ring corridors joined by a single bridge cell at (1, 3); the
    // targets sit between the two variants so that the wall-count term
    // matches in both
    let bridged = board_from(
        [
            "...W...W",
            ".W...W.W",
            "...W...W",
            "WWWWWWWW",
            "WWWWWWWW",
            "WWWWWWWW",
            "WWWWWWWW",
            "WWWWWWWW",
        ],
        [2, 4, 2, 8, 8, 8, 8, 8],
        [5, 6, 5, 7, 5, 6, 5, 8],
    );
    let split = board_from(
        [
            "...W...W",
            ".W.W.W.W",
            "...W...W",
            "WWWWWWWW",
            "WWWWWWWW",
            "WWWWWWWW",
            "WWWWWWWW",
            "WWWWWWWW",
        ],
        [2, 4, 2, 8, 8, 8, 8, 8],
        [5, 6, 5, 7, 5, 6, 5, 8],
    );
    assert_eq!(bridged.cost(), 1);
    assert_eq!(split.cost(), 21);
    assert_eq!(split.cost() - bridged.cost(), 20);
}

#[test]
fn removing_dead_end_drops_cost_by_four() {
    // two rings joined along column 0, with a stub at (3, 2) that dead-ends;
    // opening (4, 2) turns the stub into a corridor between the rings. The
    // row-4 and column-2 targets sit between the variants so the wall-count
    // term matches in both.
    let with_dead_end = board_from(
        [
            ".....WWW",
            ".WWW.WWW",
            ".....WWW",
            ".W.WWWWW",
            ".WWWWWWW",
            ".....WWW",
            ".WWW.WWW",
            ".....WWW",
        ],
        [3, 6, 3, 6, 6, 3, 6, 3],
        [0, 4, 3, 4, 2, 8, 8, 8],
    );
    let without_dead_end = board_from(
        [
            ".....WWW",
            ".WWW.WWW",
            ".....WWW",
            ".W.WWWWW",
            ".W.WWWWW",
            ".....WWW",
            ".WWW.WWW",
            ".....WWW",
        ],
        [3, 6, 3, 6, 6, 3, 6, 3],
        [0, 4, 3, 4, 2, 8, 8, 8],
    );
    assert_eq!(with_dead_end.cost(), 5);
    assert_eq!(without_dead_end.cost(), 1);
    assert_eq!(with_dead_end.cost() - without_dead_end.cost(), 4);
}

#[test]
fn monster_outside_dead_end_adds_four() {
    let mut b = ring_puzzle();
    assert_eq!(b.cost(), 0);
    // (0, 1) has two open neighbors: not a dead end
    b.set_cell(0, 1, Space::Monster);
    assert_eq!(b.cost(), 4);
    b.set_cell(0, 1, Space::Empty);
    assert_eq!(b.cost(), 0);
}

#[test]
fn sealed_chest_room_costs_ten() {
    // the chest room is fully open but no cell of the surrounding ring is
    let b = board_from(
        [
            "WWWWWWWW",
            "W...WWWW",
            "W.C.WWWW",
            "W...WWWW",
            "WWWWWWWW",
            "WWWWWWWW",
            "WWWWWWWW",
            "WWWWWWWW",
        ],
        [8, 5, 5, 5, 8, 8, 8, 8],
        [8, 5, 5, 5, 8, 8, 8, 8],
    );
    assert_eq!(b.cost(), 10);
}

#[test]
fn second_entrance_and_bare_dead_end_cost_five() {
    // the chest grid with one more opening at (4, 2): a second entrance to
    // the room (+1) and a dead end without a monster (+4)
    let b = board_from(
        [
            "WWWWWWWW",
            "W...WWWW",
            "W.C.MWWW",
            "W...WWWW",
            "WW.WWWWW",
            "WWWWWWWW",
            "WWWWWWWW",
            "WWWWWWWW",
        ],
        [8, 5, 4, 5, 7, 8, 8, 8],
        [8, 5, 4, 5, 7, 8, 8, 8],
    );
    assert_eq!(b.cost(), 5);
}

#[test]
fn wall_count_deviation_is_absolute_distance() {
    // an all-empty board with one region and no other faults: only the
    // wall-count term is nonzero... except the open 2x2 blocks; use an
    // all-wall board instead, where rows off target by one each cost one
    let mut b = board_from(
        [
            "WWWWWWWW",
            "WWWWWWWW",
            "WWWWWWWW",
            "WWWWWWWW",
            "WWWWWWWW",
            "WWWWWWWW",
            "WWWWWWWW",
            "WWWWWWWW",
        ],
        [7, 7, 7, 7, 7, 7, 7, 7],
        [8, 8, 8, 8, 8, 8, 8, 8],
    );
    // eight rows each |8 - 7| = 1, columns exact, no floor: region term -20
    assert_eq!(b.cost(), 8 - 20);
    for i in 0..8 {
        b.set_row_target(i, 8);
    }
    assert_eq!(b.cost(), -20);
}

#[test]
fn all_wall_board_scores_minus_twenty() {
    // no floor at all: zero regions make the connectivity term (0 - 1) * 20
    let b = board_from(
        [
            "WWWWWWWW",
            "WWWWWWWW",
            "WWWWWWWW",
            "WWWWWWWW",
            "WWWWWWWW",
            "WWWWWWWW",
            "WWWWWWWW",
            "WWWWWWWW",
        ],
        [8, 8, 8, 8, 8, 8, 8, 8],
        [8, 8, 8, 8, 8, 8, 8, 8],
    );
    assert_eq!(b.cost(), -20);
}

#[test]
fn space_can_change() {
    assert!(Space::Empty.can_change());
    assert!(Space::Wall.can_change());
    assert!(Space::Unassigned.can_change());
    assert!(!Space::Chest.can_change());
    assert!(!Space::Monster.can_change());
}

#[test]
fn space_to_str() {
    assert_eq!(Space::Empty.to_str(), " ");
    assert_eq!(Space::Unassigned.to_str(), " ");
    assert_eq!(Space::Chest.to_str(), "0");
    assert_eq!(Space::Monster.to_str(), "!");
    assert_eq!(Space::Wall.to_str(), "#");
}

#[test]
fn has_changeable_cell_detection() {
    let b = chest_puzzle();
    assert!(b.has_changeable_cell());
    let mut all_fixed = Board::new();
    for r in 0..8 {
        for c in 0..8 {
            all_fixed.set_cell(r, c, Space::Chest);
        }
    }
    assert!(!all_fixed.has_changeable_cell());
}

#[test]
fn new_board_is_empty_with_zero_targets() {
    let b = Board::new();
    for r in 0..8 {
        for c in 0..8 {
            assert_eq!(b.get(r, c), Space::Empty);
        }
    }
    for i in 0..8 {
        assert_eq!(b.get_row_target(i), 0);
        assert_eq!(b.get_col_target(i), 0);
    }
}
