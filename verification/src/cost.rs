use vstd::prelude::*;
use crate::grid::Board;
use crate::grid::Space;
use crate::connect::region_term;

verus! {

pub open spec fn is_wall(b: Board, r: int, c: int) -> bool {
    b.cell(r, c) == Space::Wall
}

/// 1 for a non-wall cell, 0 for a wall; boundary cells count as walls.
pub open spec fn nw(b: Board, r: int, c: int) -> int {
    if is_wall(b, r, c) {
        0int
    } else {
        1int
    }
}

// ---------------------------------------------------------------- term 1

pub open spec fn row_walls_upto(b: Board, r: int, n: int) -> int
    decreases n,
{
    if n <= 0 {
        0
    } else {
        row_walls_upto(b, r, n - 1) + (if is_wall(b, r, n - 1) {
            1int
        } else {
            0int
        })
    }
}

/// Walls actually present in row `r`.
pub open spec fn row_wall_count(b: Board, r: int) -> int {
    row_walls_upto(b, r, 8)
}

pub open spec fn col_walls_upto(b: Board, c: int, n: int) -> int
    decreases n,
{
    if n <= 0 {
        0
    } else {
        col_walls_upto(b, c, n - 1) + (if is_wall(b, n - 1, c) {
            1int
        } else {
            0int
        })
    }
}

/// Walls actually present in column `c`.
pub open spec fn col_wall_count(b: Board, c: int) -> int {
    col_walls_upto(b, c, 8)
}

pub open spec fn abs_diff(a: int, b: int) -> int {
    if a >= b {
        a - b
    } else {
        b - a
    }
}

pub open spec fn wall_term_upto(b: Board, n: int) -> int
    decreases n,
{
    if n <= 0 {
        0
    } else {
        wall_term_upto(b, n - 1) + abs_diff(row_wall_count(b, n - 1), b.row_target(n - 1))
            + abs_diff(col_wall_count(b, n - 1), b.col_target(n - 1))
    }
}

/// Wall-count deviation: how far each row and column is from its target.
pub open spec fn wall_count_term(b: Board) -> int {
    wall_term_upto(b, 8)
}

// ---------------------------------------------------------------- term 2

/// Openness of the 3x3 room centered at (cr, cc): its non-wall cells, 0 to 9.
pub open spec fn open_score(b: Board, cr: int, cc: int) -> int {
    nw(b, cr - 1, cc - 1) + nw(b, cr - 1, cc) + nw(b, cr - 1, cc + 1) + nw(b, cr, cc - 1) + nw(
        b,
        cr,
        cc,
    ) + nw(b, cr, cc + 1) + nw(b, cr + 1, cc - 1) + nw(b, cr + 1, cc) + nw(b, cr + 1, cc + 1)
}

/// The k-th candidate center offset around a chest, row-major scan order.
pub open spec fn cand_off(k: int) -> (int, int) {
    (k / 3 - 1, k % 3 - 1)
}

/// Fold over the first `k` of the nine candidate centers around a chest at
/// (r, c), keeping the first center of maximal openness. Candidates whose 3x3
/// room would leave the board (center outside [1,6] each way) are skipped.
/// The triple is (row, col, score), starting from (0, 0, 0).
pub open spec fn best_room_upto(b: Board, r: int, c: int, k: int) -> (int, int, int)
    decreases k,
{
    if k <= 0 {
        (0int, 0int, 0int)
    } else {
        let prev = best_room_upto(b, r, c, k - 1);
        let cr = r + cand_off(k - 1).0;
        let cc = c + cand_off(k - 1).1;
        if 1 <= cr <= 6 && 1 <= cc <= 6 && open_score(b, cr, cc) > prev.2 {
            (cr, cc, open_score(b, cr, cc))
        } else {
            prev
        }
    }
}

/// The room chosen for a chest at (r, c): center and openness score.
pub open spec fn chest_room(b: Board, r: int, c: int) -> (int, int, int) {
    best_room_upto(b, r, c, 9)
}

/// Non-wall cells on the ring at Chebyshev distance 2 from the room center:
/// the three cells flanking each compass direction two steps out.
pub open spec fn entrance_count(b: Board, cr: int, cc: int) -> int {
    nw(b, cr - 2, cc - 1) + nw(b, cr - 2, cc) + nw(b, cr - 2, cc + 1) + nw(b, cr + 2, cc - 1) + nw(
        b,
        cr + 2,
        cc,
    ) + nw(b, cr + 2, cc + 1) + nw(b, cr - 1, cc - 2) + nw(b, cr, cc - 2) + nw(b, cr + 1, cc - 2)
        + nw(b, cr - 1, cc + 2) + nw(b, cr, cc + 2) + nw(b, cr + 1, cc + 2)
}

/// What one chest adds: missing openness, plus 10 for a sealed room or one
/// per entrance beyond the first.
pub open spec fn chest_cost_at(b: Board, r: int, c: int) -> int {
    let room = chest_room(b, r, c);
    let e = entrance_count(b, room.0, room.1);
    (9 - room.2) + (if e == 0 {
        10int
    } else {
        e - 1
    })
}

pub open spec fn chest_term_upto(b: Board, n: int) -> int
    decreases n,
{
    if n <= 0 {
        0
    } else {
        chest_term_upto(b, n - 1) + (if b.cell((n - 1) / 8, (n - 1) % 8) == Space::Chest {
            chest_cost_at(b, (n - 1) / 8, (n - 1) % 8)
        } else {
            0int
        })
    }
}

/// Chest-room quality over every chest of the board.
pub open spec fn chest_term(b: Board) -> int {
    chest_term_upto(b, 64)
}

/// Cell (r, c) lies in the 3x3 room of the chest at position k (row-major).
pub open spec fn chest_covers(b: Board, k: int, r: int, c: int) -> bool {
    &&& b.cell(k / 8, k % 8) == Space::Chest
    &&& chest_room(b, k / 8, k % 8).0 - 1 <= r <= chest_room(b, k / 8, k % 8).0 + 1
    &&& chest_room(b, k / 8, k % 8).1 - 1 <= c <= chest_room(b, k / 8, k % 8).1 + 1
}

pub open spec fn masked_upto(b: Board, n: int, r: int, c: int) -> bool {
    exists|k: int| 0 <= k < n && #[trigger] chest_covers(b, k, r, c)
}

/// Cell (r, c) lies in some chest room: open space is tolerated there.
pub open spec fn masked(b: Board, r: int, c: int) -> bool {
    masked_upto(b, 64, r, c)
}

// ---------------------------------------------------------------- term 3

pub open spec fn block_open(b: Board, i: int, j: int) -> bool {
    !is_wall(b, i, j) && !is_wall(b, i, j + 1) && !is_wall(b, i + 1, j) && !is_wall(b, i + 1, j + 1)
}

pub open spec fn block_masked(b: Board, i: int, j: int) -> bool {
    masked(b, i, j) && masked(b, i, j + 1) && masked(b, i + 1, j) && masked(b, i + 1, j + 1)
}

/// A 2x2 all-open square costs 5 unless it lies wholly inside chest rooms.
pub open spec fn block_cost(b: Board, i: int, j: int) -> int {
    if block_open(b, i, j) && !block_masked(b, i, j) {
        5int
    } else {
        0int
    }
}

pub open spec fn block_term_upto(b: Board, n: int) -> int
    decreases n,
{
    if n <= 0 {
        0
    } else {
        block_term_upto(b, n - 1) + block_cost(b, (n - 1) / 7, (n - 1) % 7)
    }
}

/// Spurious open 2x2 blocks, top-left corners scanned over [0,7) each way.
pub open spec fn block_term(b: Board) -> int {
    block_term_upto(b, 49)
}

// ---------------------------------------------------------------- term 5

/// Walls among the four orthogonal neighbors; the border counts as wall.
pub open spec fn wall_nbrs(b: Board, r: int, c: int) -> int {
    (if is_wall(b, r, c + 1) {
        1int
    } else {
        0int
    }) + (if is_wall(b, r + 1, c) {
        1int
    } else {
        0int
    }) + (if is_wall(b, r - 1, c) {
        1int
    } else {
        0int
    }) + (if is_wall(b, r, c - 1) {
        1int
    } else {
        0int
    })
}

/// Dead-end consistency: a non-wall cell with exactly three wall neighbors
/// must hold a monster, and a monster must sit in such a cell; each violation
/// costs 4.
pub open spec fn deadend_cost_at(b: Board, r: int, c: int) -> int {
    if is_wall(b, r, c) {
        0int
    } else {
        (if wall_nbrs(b, r, c) == 3 && b.cell(r, c) != Space::Monster {
            4int
        } else {
            0int
        }) + (if b.cell(r, c) == Space::Monster && wall_nbrs(b, r, c) != 3 {
            4int
        } else {
            0int
        })
    }
}

pub open spec fn deadend_term_upto(b: Board, n: int) -> int
    decreases n,
{
    if n <= 0 {
        0
    } else {
        deadend_term_upto(b, n - 1) + deadend_cost_at(b, (n - 1) / 8, (n - 1) % 8)
    }
}

pub open spec fn deadend_term(b: Board) -> int {
    deadend_term_upto(b, 64)
}

// ---------------------------------------------------------------- total

/// The full badness score: zero exactly on a valid layout. The five terms are
/// independent; the search only ever compares and sums them.
pub open spec fn cost_spec(b: Board) -> int {
    wall_count_term(b) + chest_term(b) + block_term(b) + region_term(b) + deadend_term(b)
}

// ------------------------------------------------------------ executables

fn count_row_walls(b: &Board, r: usize) -> (n: i32)
    requires
        r < 8,
    ensures
        n as int == row_wall_count(*b, r as int),
        0 <= n <= 8,
{
    let mut n: i32 = 0;
    let mut c: usize = 0;
    while c < 8
        invariant
            r < 8,
            c <= 8,
            0 <= n <= c,
            n as int == row_walls_upto(*b, r as int, c as int),
        decreases 8 - c,
    {
        let s = b.get(r as i32, c as i32);
        if matches!(s, Space::Wall) {
            n += 1;
        }
        c += 1;
    }
    n
}

fn count_col_walls(b: &Board, c: usize) -> (n: i32)
    requires
        c < 8,
    ensures
        n as int == col_wall_count(*b, c as int),
        0 <= n <= 8,
{
    let mut n: i32 = 0;
    let mut r: usize = 0;
    while r < 8
        invariant
            c < 8,
            r <= 8,
            0 <= n <= r,
            n as int == col_walls_upto(*b, c as int, r as int),
        decreases 8 - r,
    {
        let s = b.get(r as i32, c as i32);
        if matches!(s, Space::Wall) {
            n += 1;
        }
        r += 1;
    }
    n
}

/// Term 1: summed distance of the row and column wall counts from their
/// targets.
pub fn wall_count_cost(b: &Board) -> (t: i32)
    ensures
        t as int == wall_count_term(*b),
        0 <= t <= 4080,
{
    let mut t: i32 = 0;
    let mut i: usize = 0;
    while i < 8
        invariant
            i <= 8,
            t as int == wall_term_upto(*b, i as int),
            0 <= t <= 510 * i,
        decreases 8 - i,
    {
        let rw = count_row_walls(b, i);
        let cw = count_col_walls(b, i);
        let rt: i32 = b.get_row_target(i) as i32;
        let ct: i32 = b.get_col_target(i) as i32;
        let rd: i32 = if rw >= rt {
            rw - rt
        } else {
            rt - rw
        };
        let cd: i32 = if cw >= ct {
            cw - ct
        } else {
            ct - cw
        };
        t = t + rd + cd;
        i += 1;
    }
    t
}

fn open_cell(b: &Board, r: i32, c: i32) -> (k: i32)
    requires
        -8 <= r <= 15,
        -8 <= c <= 15,
    ensures
        k as int == nw(*b, r as int, c as int),
{
    let s = b.get(r, c);
    if matches!(s, Space::Wall) {
        0
    } else {
        1
    }
}

fn room_openness(b: &Board, cr: i32, cc: i32) -> (s: i32)
    requires
        1 <= cr <= 6,
        1 <= cc <= 6,
    ensures
        s as int == open_score(*b, cr as int, cc as int),
        0 <= s <= 9,
{
    let s: i32 = open_cell(b, cr - 1, cc - 1) + open_cell(b, cr - 1, cc) + open_cell(
        b,
        cr - 1,
        cc + 1,
    ) + open_cell(b, cr, cc - 1) + open_cell(b, cr, cc) + open_cell(b, cr, cc + 1) + open_cell(
        b,
        cr + 1,
        cc - 1,
    ) + open_cell(b, cr + 1, cc) + open_cell(b, cr + 1, cc + 1);
    s
}

fn entrance_total(b: &Board, cr: i32, cc: i32) -> (e: i32)
    requires
        1 <= cr <= 6,
        1 <= cc <= 6,
    ensures
        e as int == entrance_count(*b, cr as int, cc as int),
        0 <= e <= 12,
{
    let e: i32 = open_cell(b, cr - 2, cc - 1) + open_cell(b, cr - 2, cc) + open_cell(
        b,
        cr - 2,
        cc + 1,
    ) + open_cell(b, cr + 2, cc - 1) + open_cell(b, cr + 2, cc) + open_cell(b, cr + 2, cc + 1)
        + open_cell(b, cr - 1, cc - 2) + open_cell(b, cr, cc - 2) + open_cell(b, cr + 1, cc - 2)
        + open_cell(b, cr - 1, cc + 2) + open_cell(b, cr, cc + 2) + open_cell(b, cr + 1, cc + 2);
    e
}

proof fn lemma_best_room_shape(b: Board, r: int, c: int, k: int)
    requires
        0 <= k <= 9,
    ensures
        ({
            let t = best_room_upto(b, r, c, k);
            (t.0 == 0 && t.1 == 0 && t.2 == 0) || (1 <= t.0 <= 6 && 1 <= t.1 <= 6 && t.2
                == open_score(b, t.0, t.1) && 1 <= t.2 <= 9)
        }),
    decreases k,
{
    if k > 0 {
        lemma_best_room_shape(b, r, c, k - 1);
    }
}

proof fn lemma_best_room_at_least(b: Board, r: int, c: int, k: int, m: int)
    requires
        0 <= m < k <= 9,
        1 <= r + cand_off(m).0 <= 6,
        1 <= c + cand_off(m).1 <= 6,
    ensures
        best_room_upto(b, r, c, k).2 >= open_score(b, r + cand_off(m).0, c + cand_off(m).1),
    decreases k,
{
    if m < k - 1 {
        lemma_best_room_at_least(b, r, c, k - 1, m);
    }
}

/// The room chosen for a chest is a real candidate: its center keeps the 3x3
/// inside the board and its score counts at least the chest cell itself.
pub proof fn lemma_chest_room_valid(b: Board, r: int, c: int)
    requires
        0 <= r < 8,
        0 <= c < 8,
        b.cell(r, c) == Space::Chest,
    ensures
        ({
            let t = chest_room(b, r, c);
            1 <= t.0 <= 6 && 1 <= t.1 <= 6 && t.2 == open_score(b, t.0, t.1) && 1 <= t.2 <= 9
        }),
{
    let io: int = if r < 1 {
        1
    } else if r > 6 {
        -1
    } else {
        0
    };
    let jo: int = if c < 1 {
        1
    } else if c > 6 {
        -1
    } else {
        0
    };
    let m = (io + 1) * 3 + (jo + 1);
    assert(cand_off(m).0 == io && cand_off(m).1 == jo);
    assert(nw(b, r, c) == 1);
    assert(open_score(b, r + io, c + jo) >= 1);
    lemma_best_room_at_least(b, r, c, 9, m);
    lemma_best_room_shape(b, r, c, 9);
}

fn find_chest_room(b: &Board, r: usize, c: usize) -> (room: (i32, i32, i32))
    requires
        r < 8,
        c < 8,
    ensures
        room.0 as int == chest_room(*b, r as int, c as int).0,
        room.1 as int == chest_room(*b, r as int, c as int).1,
        room.2 as int == chest_room(*b, r as int, c as int).2,
{
    let mut br: i32 = 0;
    let mut bc: i32 = 0;
    let mut bs: i32 = 0;
    let mut k: usize = 0;
    while k < 9
        invariant
            k <= 9,
            r < 8,
            c < 8,
            br as int == best_room_upto(*b, r as int, c as int, k as int).0,
            bc as int == best_room_upto(*b, r as int, c as int, k as int).1,
            bs as int == best_room_upto(*b, r as int, c as int, k as int).2,
            (br == 0 && bc == 0 && bs == 0) || (1 <= br <= 6 && 1 <= bc <= 6 && 0 <= bs <= 9),
        decreases 9 - k,
    {
        let cr: i32 = r as i32 + (k as i32) / 3 - 1;
        let cc: i32 = c as i32 + (k as i32) % 3 - 1;
        if 1 <= cr && cr <= 6 && 1 <= cc && cc <= 6 {
            let s = room_openness(b, cr, cc);
            if s > bs {
                br = cr;
                bc = cc;
                bs = s;
            }
        }
        k += 1;
    }
    (br, bc, bs)
}

/// The mask bit of cell (r, c) in a row-major mask of the board.
pub open spec fn mask_at(m: Seq<bool>, r: int, c: int) -> bool {
    m[r * 8 + c]
}

/// Mark the 3x3 box with top-left corner (mr, mc) in the room mask.
#[verifier::rlimit(50)]
fn mark_room(mask: &mut Vec<bool>, mr: usize, mc: usize)
    requires
        old(mask)@.len() == 64,
        mr <= 5,
        mc <= 5,
    ensures
        final(mask)@.len() == 64,
        forall|r: int, c: int|
            0 <= r < 8 && 0 <= c < 8 ==> #[trigger] mask_at(final(mask)@, r, c) == (mask_at(
                old(mask)@,
                r,
                c,
            ) || (mr <= r <= mr + 2 && mc <= c <= mc + 2)),
{
    mask[mr * 8 + mc] = true;
    mask[mr * 8 + mc + 1] = true;
    mask[mr * 8 + mc + 2] = true;
    mask[(mr + 1) * 8 + mc] = true;
    mask[(mr + 1) * 8 + mc + 1] = true;
    mask[(mr + 1) * 8 + mc + 2] = true;
    mask[(mr + 2) * 8 + mc] = true;
    mask[(mr + 2) * 8 + mc + 1] = true;
    mask[(mr + 2) * 8 + mc + 2] = true;
    proof {
        assert forall|r: int, c: int| 0 <= r < 8 && 0 <= c < 8 implies #[trigger] mask_at(
            mask@,
            r,
            c,
        ) == (mask_at(old(mask)@, r, c) || (mr <= r <= mr + 2 && mc <= c <= mc + 2)) by {
            assert(0 <= r * 8 + c < 64);
        }
    }
}

/// Term 2 and its side product: the chest cost and the room mask that term 3
/// reads. `mask[r * 8 + c]` says whether (r, c) lies in some chest room.
pub fn chest_cost_and_mask(b: &Board) -> (res: (i32, Vec<bool>))
    ensures
        res.0 as int == chest_term(*b),
        0 <= res.0 <= 1216,
        res.1@.len() == 64,
        forall|r: int, c: int|
            0 <= r < 8 && 0 <= c < 8 ==> #[trigger] mask_at(res.1@, r, c) == masked(*b, r, c),
{
    let mut mask: Vec<bool> = Vec::new();
    let mut z: usize = 0;
    while z < 64
        invariant
            z <= 64,
            mask@.len() == z,
            forall|m: int| 0 <= m < z ==> mask@[m] == false,
        decreases 64 - z,
    {
        mask.push(false);
        z += 1;
    }
    let mut t: i32 = 0;
    let mut n: usize = 0;
    while n < 64
        invariant
            n <= 64,
            mask@.len() == 64,
            t as int == chest_term_upto(*b, n as int),
            0 <= t <= 19 * n,
            forall|r: int, c: int|
                0 <= r < 8 && 0 <= c < 8 ==> #[trigger] mask_at(mask@, r, c) == masked_upto(*b, n as int, r, c),
        decreases 64 - n,
    {
        let r: usize = n / 8;
        let c: usize = n % 8;
        let s = b.get(r as i32, c as i32);
        if matches!(s, Space::Chest) {
            proof {
                lemma_chest_room_valid(*b, r as int, c as int);
            }
            let room = find_chest_room(b, r, c);
            let e = entrance_total(b, room.0, room.1);
            let mut add: i32 = 9 - room.2;
            if e == 0 {
                add += 10;
            } else {
                add += e - 1;
            }
            t += add;
            mark_room(&mut mask, (room.0 - 1) as usize, (room.1 - 1) as usize);
            proof {
                assert forall|rr: int, cc: int| 0 <= rr < 8 && 0 <= cc < 8 implies #[trigger] mask_at(
                    mask@,
                    rr,
                    cc,
                ) == masked_upto(*b, n as int + 1, rr, cc) by {
                    if mask_at(mask@, rr, cc) {
                        if masked_upto(*b, n as int, rr, cc) {
                            let k = choose|k: int|
                                0 <= k < n as int && #[trigger] chest_covers(*b, k, rr, cc);
                            assert(chest_covers(*b, k, rr, cc));
                        } else {
                            assert(chest_covers(*b, n as int, rr, cc));
                        }
                    } else {
                        assert(!masked_upto(*b, n as int, rr, cc));
                        assert(!chest_covers(*b, n as int, rr, cc));
                        if masked_upto(*b, n as int + 1, rr, cc) {
                            let k = choose|k: int|
                                0 <= k < n as int + 1 && #[trigger] chest_covers(*b, k, rr, cc);
                            assert(false);
                        }
                    }
                }
            }
        } else {
            proof {
                assert forall|rr: int, cc: int| 0 <= rr < 8 && 0 <= cc < 8 implies #[trigger] mask_at(
                    mask@,
                    rr,
                    cc,
                ) == masked_upto(*b, n as int + 1, rr, cc) by {
                    assert(!chest_covers(*b, n as int, rr, cc));
                    if masked_upto(*b, n as int + 1, rr, cc) {
                        let k = choose|k: int|
                            0 <= k < n as int + 1 && #[trigger] chest_covers(*b, k, rr, cc);
                        assert(0 <= k < n as int);
                    }
                    if masked_upto(*b, n as int, rr, cc) {
                        let k = choose|k: int|
                            0 <= k < n as int && #[trigger] chest_covers(*b, k, rr, cc);
                        assert(chest_covers(*b, k, rr, cc));
                    }
                }
            }
        }
        n += 1;
    }
    (t, mask)
}

/// Term 3: five per open 2x2 square not fully inside chest rooms.
pub fn block_cost_total(b: &Board, mask: &Vec<bool>) -> (t: i32)
    requires
        mask@.len() == 64,
        forall|r: int, c: int| 0 <= r < 8 && 0 <= c < 8 ==> #[trigger] mask_at(mask@, r, c) == masked(*b, r, c),
    ensures
        t as int == block_term(*b),
        0 <= t <= 245,
{
    let mut t: i32 = 0;
    let mut n: usize = 0;
    while n < 49
        invariant
            n <= 49,
            mask@.len() == 64,
            forall|r: int, c: int|
                0 <= r < 8 && 0 <= c < 8 ==> #[trigger] mask_at(mask@, r, c) == masked(*b, r, c),
            t as int == block_term_upto(*b, n as int),
            0 <= t <= 5 * n,
        decreases 49 - n,
    {
        let i: usize = n / 7;
        let j: usize = n % 7;
        let open = !matches!(b.get(i as i32, j as i32), Space::Wall) && !matches!(
            b.get(i as i32, j as i32 + 1),
            Space::Wall,
        ) && !matches!(b.get(i as i32 + 1, j as i32), Space::Wall) && !matches!(
            b.get(i as i32 + 1, j as i32 + 1),
            Space::Wall,
        );
        let covered = mask[i * 8 + j] && mask[i * 8 + j + 1] && mask[(i + 1) * 8 + j] && mask[(i
            + 1) * 8 + j + 1];
        proof {
            assert((n as int) / 7 == i as int && (n as int) % 7 == j as int);
            assert(mask_at(mask@, i as int, j as int) == masked(*b, i as int, j as int));
            assert(mask_at(mask@, i as int, j as int + 1) == masked(*b, i as int, j as int + 1));
            assert(mask_at(mask@, i as int + 1, j as int) == masked(*b, i as int + 1, j as int));
            assert(mask_at(mask@, i as int + 1, j as int + 1) == masked(
                *b,
                i as int + 1,
                j as int + 1,
            ));
            assert(covered == block_masked(*b, i as int, j as int));
            assert(open == block_open(*b, i as int, j as int));
        }
        if open && !covered {
            t += 5;
        }
        n += 1;
    }
    t
}

/// Term 5: dead ends must hold monsters and monsters must sit in dead ends.
pub fn deadend_cost_total(b: &Board) -> (t: i32)
    ensures
        t as int == deadend_term(*b),
        0 <= t <= 256,
{
    let mut t: i32 = 0;
    let mut n: usize = 0;
    while n < 64
        invariant
            n <= 64,
            t as int == deadend_term_upto(*b, n as int),
            0 <= t <= 4 * n,
        decreases 64 - n,
    {
        let r: usize = n / 8;
        let c: usize = n % 8;
        let here = b.get(r as i32, c as i32);
        if !matches!(here, Space::Wall) {
            let walls: i32 = open_cell_inv(b, r as i32, c as i32 + 1) + open_cell_inv(
                b,
                r as i32 + 1,
                c as i32,
            ) + open_cell_inv(b, r as i32 - 1, c as i32) + open_cell_inv(b, r as i32, c as i32 - 1);
            let is_monster = matches!(here, Space::Monster);
            if walls == 3 && !is_monster {
                t += 4;
            }
            if is_monster && walls != 3 {
                t += 4;
            }
        }
        n += 1;
    }
    t
}

fn open_cell_inv(b: &Board, r: i32, c: i32) -> (k: i32)
    requires
        -8 <= r <= 15,
        -8 <= c <= 15,
    ensures
        k as int == 1 - nw(*b, r as int, c as int),
{
    let s = b.get(r, c);
    if matches!(s, Space::Wall) {
        1
    } else {
        0
    }
}

/// The five terms summed: the score the annealing search minimizes.
impl Board {
    /// Score the board: wall-count deviation, chest-room quality, spurious
    /// open 2x2 blocks, connectivity, and dead-end consistency, summed.
    /// A fully valid layout scores 0; the result never changes unless the
    /// cells or the targets do.
    pub fn cost(&self) -> (t: i32)
        ensures
            t as int == cost_spec(*self),
            -20 <= t <= 7057,
    {
        let t1 = wall_count_cost(self);
        let pair = chest_cost_and_mask(self);
        let t3 = block_cost_total(self, &pair.1);
        let t4 = crate::connect::region_cost(self);
        let t5 = deadend_cost_total(self);
        t1 + pair.0 + t3 + t4 + t5
    }
}

} // verus!

