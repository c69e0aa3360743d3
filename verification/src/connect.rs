use vstd::prelude::*;
use crate::grid::Board;
use crate::grid::Space;

verus! {

pub open spec fn in_grid(r: int, c: int) -> bool {
    0 <= r < 8 && 0 <= c < 8
}

/// A floor cell: in range and not a wall. These are the nodes of the
/// connectivity graph; the virtual wall border keeps them inside the board.
pub open spec fn floor_at(b: Board, p: (int, int)) -> bool {
    in_grid(p.0, p.1) && b.cell(p.0, p.1) != Space::Wall
}

/// Four-directional adjacency.
pub open spec fn adj(p: (int, int), q: (int, int)) -> bool {
    (p.0 == q.0 && (p.1 == q.1 + 1 || q.1 == p.1 + 1)) || (p.1 == q.1 && (p.0 == q.0 + 1 || q.0
        == p.0 + 1))
}

/// A walk over floor cells, each step orthogonal.
pub open spec fn is_path(b: Board, path: Seq<(int, int)>) -> bool {
    &&& forall|k: int| 0 <= k < path.len() ==> floor_at(b, #[trigger] path[k])
    &&& forall|k: int| 0 <= k < path.len() - 1 ==> adj(#[trigger] path[k], path[k + 1])
}

/// Two cells of one floor region: some walk joins them.
pub open spec fn connected(b: Board, p: (int, int), q: (int, int)) -> bool {
    exists|path: Seq<(int, int)>|
        #[trigger] is_path(b, path) && path.len() > 0 && path[0] == p && path.last() == q
}

/// Row-major position of a cell.
pub open spec fn idx_of(p: (int, int)) -> int {
    p.0 * 8 + p.1
}

/// The row-major-first cell of its floor region. Every region has exactly one
/// such cell, so counting roots counts the regions.
pub open spec fn is_root(b: Board, p: (int, int)) -> bool {
    floor_at(b, p) && forall|q: (int, int)| #[trigger] connected(b, p, q) ==> idx_of(p) <= idx_of(q)
}

pub open spec fn root_count_upto(b: Board, n: int) -> int
    decreases n,
{
    if n <= 0 {
        0
    } else {
        root_count_upto(b, n - 1) + (if is_root(b, ((n - 1) / 8, (n - 1) % 8)) {
            1int
        } else {
            0int
        })
    }
}

/// The number of connected floor regions of the board.
pub open spec fn region_count(b: Board) -> int {
    root_count_upto(b, 64)
}

/// Connectivity cost: every region beyond the first costs 20.
pub open spec fn region_term(b: Board) -> int {
    (region_count(b) - 1) * 20
}

pub proof fn lemma_connected_refl(b: Board, p: (int, int))
    requires
        floor_at(b, p),
    ensures
        connected(b, p, p),
{
    let path: Seq<(int, int)> = seq![p];
    assert(is_path(b, path));
    assert(path[0] == p && path.last() == p);
}

pub proof fn lemma_connected_step(b: Board, p: (int, int), q: (int, int), s: (int, int))
    requires
        connected(b, p, q),
        adj(q, s),
        floor_at(b, s),
    ensures
        connected(b, p, s),
{
    let path = choose|path: Seq<(int, int)>|
        #[trigger] is_path(b, path) && path.len() > 0 && path[0] == p && path.last() == q;
    let path2 = path.push(s);
    assert(is_path(b, path2)) by {
        assert(forall|k: int| 0 <= k < path2.len() - 1 ==> path2[k] == path[k]);
        assert(path2[path2.len() - 1] == s);
        assert(path2[path2.len() - 2] == path.last());
    }
    assert(path2[0] == p && path2.last() == s && path2.len() > 0);
}

pub proof fn lemma_connected_sym(b: Board, p: (int, int), q: (int, int))
    requires
        connected(b, p, q),
    ensures
        connected(b, q, p),
{
    let path = choose|path: Seq<(int, int)>|
        #[trigger] is_path(b, path) && path.len() > 0 && path[0] == p && path.last() == q;
    let n = path.len() as int;
    let rev = Seq::new(n as nat, |i: int| path[n - 1 - i]);
    assert(is_path(b, rev)) by {
        assert(forall|k: int| 0 <= k < n ==> rev[k] == path[n - 1 - k]);
        assert forall|k: int| 0 <= k < rev.len() - 1 implies adj(#[trigger] rev[k], rev[k + 1]) by {
            assert(adj(path[n - 2 - k], path[n - 1 - k]));
        }
    }
    assert(rev[0] == q && rev.last() == p && rev.len() > 0);
}

/// Walking a path that starts inside an adjacency-closed set never leaves it.
pub open spec fn msk(m: Seq<bool>, p: (int, int)) -> bool {
    in_grid(p.0, p.1) && m[p.0 * 8 + p.1]
}

pub open spec fn mask_closed(b: Board, m: Seq<bool>) -> bool {
    forall|p: (int, int), q: (int, int)|
        msk(m, p) && floor_at(b, q) && #[trigger] adj(p, q) ==> msk(m, q)
}

pub proof fn lemma_closed_reaches(b: Board, m: Seq<bool>, path: Seq<(int, int)>)
    requires
        is_path(b, path),
        path.len() > 0,
        msk(m, path[0]),
        mask_closed(b, m),
    ensures
        msk(m, path.last()),
    decreases path.len(),
{
    if path.len() > 1 {
        let pre = path.drop_last();
        assert(is_path(b, pre)) by {
            assert(forall|k: int| 0 <= k < pre.len() ==> pre[k] == path[k]);
        }
        lemma_closed_reaches(b, m, pre);
        assert(pre.last() == path[path.len() - 2]);
        assert(adj(path[path.len() - 2], path[path.len() - 1]));
        assert(floor_at(b, path.last()));
    }
}

/// Everything connected to a member of an adjacency-closed set is in the set.
pub proof fn lemma_closed_component(b: Board, m: Seq<bool>, p: (int, int), q: (int, int))
    requires
        mask_closed(b, m),
        msk(m, p),
        connected(b, p, q),
    ensures
        msk(m, q),
{
    let path = choose|path: Seq<(int, int)>|
        #[trigger] is_path(b, path) && path.len() > 0 && path[0] == p && path.last() == q;
    lemma_closed_reaches(b, m, path);
}

/// Two roots of one region coincide.
pub proof fn lemma_unique_root(b: Board, p: (int, int), q: (int, int))
    requires
        is_root(b, p),
        is_root(b, q),
        connected(b, p, q),
    ensures
        p == q,
{
    lemma_connected_sym(b, p, q);
    assert(idx_of(p) <= idx_of(q));
    assert(idx_of(q) <= idx_of(p));
    assert(p.0 == q.0 && p.1 == q.1);
}

/// The end of a walk is a floor cell.
pub proof fn lemma_connected_floor(b: Board, p: (int, int), q: (int, int))
    requires
        connected(b, p, q),
    ensures
        floor_at(b, q),
        floor_at(b, p),
{
    let path = choose|path: Seq<(int, int)>|
        #[trigger] is_path(b, path) && path.len() > 0 && path[0] == p && path.last() == q;
    assert(floor_at(b, path[0]));
    assert(floor_at(b, path[path.len() - 1]));
}

// ------------------------------------------------- counting the regions

pub open spec fn num_true(m: Seq<bool>, n: int) -> int
    decreases n,
{
    if n <= 0 {
        0
    } else {
        num_true(m, n - 1) + (if m[n - 1] {
            1int
        } else {
            0int
        })
    }
}

/// Roots already swallowed by the flood fill: the count the search keeps.
pub open spec fn masked_root_count(b: Board, m: Seq<bool>, n: int) -> int
    decreases n,
{
    if n <= 0 {
        0
    } else {
        masked_root_count(b, m, n - 1) + (if m[n - 1] && is_root(b, ((n - 1) / 8, (n - 1) % 8)) {
            1int
        } else {
            0int
        })
    }
}

proof fn lemma_num_true_update(m1: Seq<bool>, m2: Seq<bool>, pos: int, n: int)
    requires
        0 <= pos < 64,
        m1.len() == 64,
        m2 == m1.update(pos, true),
        !m1[pos],
        0 <= n <= 64,
    ensures
        num_true(m2, n) == num_true(m1, n) + if pos < n {
            1int
        } else {
            0int
        },
    decreases n,
{
    if n > 0 {
        lemma_num_true_update(m1, m2, pos, n - 1);
    }
}

proof fn lemma_num_true_bound(m: Seq<bool>, n: int)
    requires
        0 <= n,
    ensures
        0 <= num_true(m, n) <= n,
    decreases n,
{
    if n > 0 {
        lemma_num_true_bound(m, n - 1);
    }
}

proof fn lemma_count_update(b: Board, m1: Seq<bool>, m2: Seq<bool>, pos: int, n: int)
    requires
        0 <= pos < 64,
        m1.len() == 64,
        m2 == m1.update(pos, true),
        !m1[pos],
        0 <= n <= 64,
    ensures
        masked_root_count(b, m2, n) == masked_root_count(b, m1, n) + if pos < n && is_root(
            b,
            (pos / 8, pos % 8),
        ) {
            1int
        } else {
            0int
        },
    decreases n,
{
    if n > 0 {
        lemma_count_update(b, m1, m2, pos, n - 1);
    }
}

proof fn lemma_count_le_num_true(b: Board, m: Seq<bool>, n: int)
    requires
        0 <= n,
    ensures
        0 <= masked_root_count(b, m, n) <= num_true(m, n),
    decreases n,
{
    if n > 0 {
        lemma_count_le_num_true(b, m, n - 1);
    }
}

proof fn lemma_counts_all_false(b: Board, m: Seq<bool>, n: int)
    requires
        0 <= n,
        forall|i: int| 0 <= i < n ==> !m[i],
    ensures
        masked_root_count(b, m, n) == 0,
        num_true(m, n) == 0,
    decreases n,
{
    if n > 0 {
        lemma_counts_all_false(b, m, n - 1);
    }
}

/// Once every floor cell is masked, the masked roots are all the roots.
proof fn lemma_count_full(b: Board, m: Seq<bool>, n: int)
    requires
        m.len() == 64,
        0 <= n <= 64,
        forall|p: (int, int)| #[trigger] floor_at(b, p) ==> msk(m, p),
    ensures
        masked_root_count(b, m, n) == root_count_upto(b, n),
    decreases n,
{
    if n > 0 {
        lemma_count_full(b, m, n - 1);
        let p: (int, int) = ((n - 1) / 8, (n - 1) % 8);
        if is_root(b, p) {
            assert(floor_at(b, p));
            assert(msk(m, p));
            assert(p.0 * 8 + p.1 == n - 1);
        }
    }
}


// ------------------------------------------------------ the flood fill

pub open spec fn stack_ok(b: Board, m: Seq<bool>, seed: (int, int), e: (usize, usize)) -> bool {
    &&& e.0 < 8
    &&& e.1 < 8
    &&& msk(m, (e.0 as int, e.1 as int))
    &&& connected(b, seed, (e.0 as int, e.1 as int))
}

pub open spec fn stack_has(st: Seq<(usize, usize)>, p: (int, int)) -> bool {
    exists|k: int|
        0 <= k < st.len() && (#[trigger] st[k]).0 as int == p.0 && st[k].1 as int == p.1
}

/// The i-th orthogonal neighbor of a cell, in the order the fill probes them.
pub open spec fn nbr(p: (int, int), i: int) -> (int, int) {
    if i == 0 {
        (p.0, p.1 + 1)
    } else if i == 1 {
        (p.0 + 1, p.1)
    } else if i == 2 {
        (p.0 - 1, p.1)
    } else {
        (p.0, p.1 - 1)
    }
}

/// The fill's resting invariant: any masked cell with an unmasked floor
/// neighbor is still on the stack, waiting to be processed.
#[verifier::opaque]
pub open spec fn deficit_plain(b: Board, m: Seq<bool>, st: Seq<(usize, usize)>) -> bool {
    forall|x: (int, int), y: (int, int)|
        msk(m, x) && floor_at(b, y) && #[trigger] adj(x, y) && !msk(m, y) ==> stack_has(st, x)
}

/// The fill's working invariant: as the resting one, except for the cell
/// `pp` being processed, whose neighbors from `done` on are still unprobed.
#[verifier::opaque]
pub open spec fn deficit_holds(
    b: Board,
    m: Seq<bool>,
    st: Seq<(usize, usize)>,
    pp: (int, int),
    done: int,
) -> bool {
    forall|x: (int, int), y: (int, int)|
        msk(m, x) && floor_at(b, y) && #[trigger] adj(x, y) && !msk(m, y) ==> stack_has(st, x) || (
        x == pp && exists|i: int| done <= i < 4 && y == nbr(pp, i))
}

/// After the seed of a fresh fill is masked and pushed, the resting
/// invariant holds: the seed is the only masked cell that may have unmasked
/// floor neighbors, and it sits on the stack.
proof fn lemma_deficit_seed(
    b: Board,
    m0: Seq<bool>,
    m: Seq<bool>,
    st: Seq<(usize, usize)>,
    seed: (int, int),
)
    requires
        m0.len() == 64,
        mask_closed(b, m0),
        in_grid(seed.0, seed.1),
        m == m0.update(seed.0 * 8 + seed.1, true),
        st.len() == 1,
        st[0].0 as int == seed.0,
        st[0].1 as int == seed.1,
    ensures
        deficit_plain(b, m, st),
{
    reveal(deficit_plain);
    assert forall|x: (int, int), y: (int, int)|
        msk(m, x) && floor_at(b, y) && #[trigger] adj(x, y) && !msk(m, y) implies stack_has(
        st,
        x,
    ) by {
        if msk(m0, x) {
            assert(msk(m0, y));
            assert(msk(m, y));
            assert(false);
        } else {
            assert(x.0 * 8 + x.1 == seed.0 * 8 + seed.1);
            assert(x.0 == seed.0 && x.1 == seed.1);
            assert(st[0].0 as int == x.0 && st[0].1 as int == x.1);
        }
    }
}

/// Popping the top cell turns the resting invariant into the working one:
/// every neighbor of the popped cell is still to be probed.
proof fn lemma_deficit_after_pop(
    b: Board,
    m: Seq<bool>,
    st_pre: Seq<(usize, usize)>,
    st: Seq<(usize, usize)>,
    pp: (int, int),
)
    requires
        deficit_plain(b, m, st_pre),
        st_pre.len() > 0,
        st == st_pre.subrange(0, st_pre.len() - 1),
        st_pre[st_pre.len() - 1].0 as int == pp.0,
        st_pre[st_pre.len() - 1].1 as int == pp.1,
    ensures
        deficit_holds(b, m, st, pp, 0),
{
    reveal(deficit_plain);
    reveal(deficit_holds);
    assert forall|x: (int, int), y: (int, int)|
        msk(m, x) && floor_at(b, y) && #[trigger] adj(x, y) && !msk(m, y) implies stack_has(
        st,
        x,
    ) || (x == pp && exists|i: int| 0 <= i < 4 && y == nbr(pp, i)) by {
        if x == pp {
            assert(y == nbr(pp, 0) || y == nbr(pp, 1) || y == nbr(pp, 2) || y == nbr(pp, 3));
        } else {
            assert(stack_has(st_pre, x));
            let k = choose|k: int|
                0 <= k < st_pre.len() && (#[trigger] st_pre[k]).0 as int == x.0 && st_pre[k].1
                    as int == x.1;
            assert(k < st_pre.len() - 1);
            assert(st[k] == st_pre[k]);
        }
    }
}

/// Once all four neighbors are probed, the resting invariant is back.
proof fn lemma_deficit_finish(
    b: Board,
    m: Seq<bool>,
    st: Seq<(usize, usize)>,
    pp: (int, int),
)
    requires
        deficit_holds(b, m, st, pp, 4),
    ensures
        deficit_plain(b, m, st),
{
    reveal(deficit_plain);
    reveal(deficit_holds);
    assert forall|x: (int, int), y: (int, int)|
        msk(m, x) && floor_at(b, y) && #[trigger] adj(x, y) && !msk(m, y) implies stack_has(
        st,
        x,
    ) by {
        if !stack_has(st, x) {
            let i = choose|i: int| 4 <= i < 4 && y == nbr(pp, i);
            assert(false);
        }
    }
}

/// With an empty stack the resting invariant says the mask is closed.
proof fn lemma_deficit_closed(b: Board, m: Seq<bool>, st: Seq<(usize, usize)>)
    requires
        deficit_plain(b, m, st),
        st.len() == 0,
    ensures
        mask_closed(b, m),
{
    reveal(deficit_plain);
    assert forall|p: (int, int), q: (int, int)|
        msk(m, p) && floor_at(b, q) && #[trigger] adj(p, q) implies msk(m, q) by {
        if !msk(m, q) {
            assert(stack_has(st, p));
            assert(false);
        }
    }
}

/// Probing a floor neighbor masks and pushes it; this keeps the working
/// invariant, the probed neighbor now being excused by the stack instead.
proof fn lemma_deficit_push(
    b: Board,
    mpre: Seq<bool>,
    mpost: Seq<bool>,
    spre: Seq<(usize, usize)>,
    spost: Seq<(usize, usize)>,
    pp: (int, int),
    i: int,
    q: (int, int),
)
    requires
        mpre.len() == 64,
        0 <= i < 4,
        q == nbr(pp, i),
        in_grid(q.0, q.1),
        mpost == mpre.update(q.0 * 8 + q.1, true),
        !mpre[q.0 * 8 + q.1],
        spost.len() == spre.len() + 1,
        forall|k: int| 0 <= k < spre.len() ==> spost[k] == spre[k],
        spost[spre.len() as int].0 as int == q.0,
        spost[spre.len() as int].1 as int == q.1,
        deficit_holds(b, mpre, spre, pp, i),
    ensures
        deficit_holds(b, mpost, spost, pp, i + 1),
{
    reveal(deficit_holds);
    assert(msk(mpost, q));
    assert forall|x: (int, int), y: (int, int)|
        msk(mpost, x) && floor_at(b, y) && #[trigger] adj(x, y) && !msk(mpost, y) implies
        stack_has(spost, x) || (x == pp && exists|j: int| i + 1 <= j < 4 && y == nbr(pp, j)) by {
        assert(!msk(mpre, y));
        if msk(mpre, x) {
            if stack_has(spre, x) {
                let k = choose|k: int|
                    0 <= k < spre.len() && (#[trigger] spre[k]).0 as int == x.0 && spre[k].1
                        as int == x.1;
                assert(spost[k] == spre[k]);
                assert(stack_has(spost, x));
            } else {
                assert(x == pp);
                let j = choose|j: int| i <= j < 4 && y == nbr(pp, j);
                assert(y != q);
                assert(j != i);
            }
        } else {
            assert(x.0 * 8 + x.1 == q.0 * 8 + q.1);
            assert(x.0 == q.0 && x.1 == q.1);
            assert(spost[spre.len() as int].0 as int == x.0 && spost[spre.len() as int].1 as int
                == x.1);
            assert(stack_has(spost, x));
        }
    }
}

/// A neighbor that is wall or already masked leaves everything as it was;
/// only the excuse shrinks.
proof fn lemma_deficit_skip(
    b: Board,
    m: Seq<bool>,
    st: Seq<(usize, usize)>,
    pp: (int, int),
    i: int,
)
    requires
        0 <= i < 4,
        deficit_holds(b, m, st, pp, i),
        !floor_at(b, nbr(pp, i)) || msk(m, nbr(pp, i)),
    ensures
        deficit_holds(b, m, st, pp, i + 1),
{
    reveal(deficit_holds);
    assert forall|x: (int, int), y: (int, int)|
        msk(m, x) && floor_at(b, y) && #[trigger] adj(x, y) && !msk(m, y) implies stack_has(
        st,
        x,
    ) || (x == pp && exists|j: int| i + 1 <= j < 4 && y == nbr(pp, j)) by {
        if !stack_has(st, x) && x == pp {
            let j = choose|j: int| i <= j < 4 && y == nbr(pp, j);
            assert(j != i);
        }
    }
}

/// Look at neighbor number `i` of the cell `pp` just taken off the stack: if
/// it is floor and not yet masked, mask it and push it. The masked root count
/// never moves, because a newly masked cell sits in the seed's region and the
/// seed is that region's only root.
#[verifier::rlimit(100)]
fn visit_neighbor(
    b: &Board,
    mask: &mut Vec<bool>,
    stack: &mut Vec<(usize, usize)>,
    nr: i32,
    nc: i32,
    Ghost(seed): Ghost<(int, int)>,
    Ghost(pp): Ghost<(int, int)>,
    Ghost(i): Ghost<int>,
)
    requires
        old(mask)@.len() == 64,
        is_root(*b, seed),
        msk(old(mask)@, seed),
        connected(*b, seed, pp),
        0 <= i < 4,
        (nr as int, nc as int) == nbr(pp, i),
        adj(pp, (nr as int, nc as int)),
        deficit_holds(*b, old(mask)@, old(stack)@, pp, i),
    ensures
        final(mask)@.len() == 64,
        forall|p: (int, int)| msk(old(mask)@, p) ==> msk(final(mask)@, p),
        forall|p: (int, int)|
            #[trigger] msk(final(mask)@, p) ==> msk(old(mask)@, p) || (p == (nr as int, nc as int)
                && floor_at(*b, p) && connected(*b, seed, p)),
        forall|k: int| 0 <= k < old(stack)@.len() ==> final(stack)@[k] == old(stack)@[k],
        forall|k: int|
            old(stack)@.len() <= k < final(stack)@.len() ==> stack_ok(
                *b,
                final(mask)@,
                seed,
                #[trigger] final(stack)@[k],
            ),
        masked_root_count(*b, final(mask)@, 64) == masked_root_count(*b, old(mask)@, 64),
        (num_true(final(mask)@, 64) == num_true(old(mask)@, 64) + 1 && final(stack)@.len() == old(
            stack,
        )@.len() + 1) || (num_true(final(mask)@, 64) == num_true(old(mask)@, 64) && final(stack)@
            == old(stack)@),
        deficit_holds(*b, final(mask)@, final(stack)@, pp, i + 1),
{
    let s = b.get(nr, nc);
    let mut probed = false;
    if !matches!(s, Space::Wall) {
        proof {
            assert(in_grid(nr as int, nc as int));
        }
        let ni: usize = (nr as usize) * 8 + (nc as usize);
        if !mask[ni] {
            probed = true;
            let ghost mpre = mask@;
            let ghost spre = stack@;
            mask[ni] = true;
            stack.push((nr as usize, nc as usize));
            proof {
                let q: (int, int) = (nr as int, nc as int);
                lemma_connected_step(*b, seed, pp, q);
                if is_root(*b, q) {
                    lemma_unique_root(*b, seed, q);
                    assert(false);
                }
                lemma_count_update(*b, mpre, mask@, q.0 * 8 + q.1, 64);
                lemma_num_true_update(mpre, mask@, q.0 * 8 + q.1, 64);
                assert forall|p: (int, int)| #[trigger] msk(mask@, p) implies msk(mpre, p) || (p
                    == q && floor_at(*b, p) && connected(*b, seed, p)) by {
                    if p.0 * 8 + p.1 == q.0 * 8 + q.1 && in_grid(p.0, p.1) {
                        assert(p.0 == q.0 && p.1 == q.1);
                    }
                }
                assert(stack@[spre.len() as int] == (nr as usize, nc as usize));
                assert(msk(mask@, q));
                lemma_deficit_push(*b, mpre, mask@, spre, stack@, pp, i, q);
            }
        }
    }
    if !probed {
        proof {
            assert(final(mask)@ == old(mask)@);
            assert(!floor_at(*b, (nr as int, nc as int)) || msk(old(mask)@, (nr as int, nc as int)));
            lemma_deficit_skip(*b, mask@, stack@, pp, i);
        }
    }
}

/// Term 4, computed as repeated depth-first flood fill from the first
/// unmasked floor cell, counting how many fills it takes. Each floor region
/// beyond the first costs 20; a board with no floor at all contributes -20.
#[verifier::rlimit(100)]
pub fn region_cost(b: &Board) -> (t: i32)
    ensures
        t as int == region_term(*b),
        -20 <= t <= 1260,
{
    let mut mask: Vec<bool> = Vec::new();
    let mut z: usize = 0;
    while z < 64
        invariant
            z <= 64,
            mask@.len() == z,
            forall|m: int| 0 <= m < z ==> !mask@[m],
        decreases 64 - z,
    {
        mask.push(false);
        z += 1;
    }
    proof {
        lemma_counts_all_false(*b, mask@, 64);
    }
    let mut regions: i32 = 0;
    loop
        invariant
            mask@.len() == 64,
            forall|p: (int, int)| #[trigger] msk(mask@, p) ==> floor_at(*b, p),
            mask_closed(*b, mask@),
            regions as int == masked_root_count(*b, mask@, 64),
            0 <= regions <= 64,
        ensures
            mask@.len() == 64,
            regions as int == masked_root_count(*b, mask@, 64),
            forall|p: (int, int)| #[trigger] floor_at(*b, p) ==> msk(mask@, p),
            0 <= regions <= 64,
        decreases 64 - num_true(mask@, 64),
    {
        proof {
            lemma_num_true_bound(mask@, 64);
        }
        let mut found: bool = false;
        let mut fr: usize = 0;
        let mut fc: usize = 0;
        let mut n: usize = 0;
        while n < 64 && !found
            invariant
                n <= 64,
                mask@.len() == 64,
                !found ==> forall|p: (int, int)|
                    #[trigger] floor_at(*b, p) && idx_of(p) < n as int ==> msk(mask@, p),
                found ==> fr < 8 && fc < 8 && floor_at(*b, (fr as int, fc as int)) && !mask@[fr
                    as int * 8 + fc as int] && (forall|p: (int, int)|
                    #[trigger] floor_at(*b, p) && idx_of(p) < fr as int * 8 + fc as int ==> msk(
                        mask@,
                        p,
                    )),
            decreases 64 - n,
        {
            let r: usize = n / 8;
            let c: usize = n % 8;
            let s = b.get(r as i32, c as i32);
            if !matches!(s, Space::Wall) && !mask[n] {
                found = true;
                fr = r;
                fc = c;
                proof {
                    assert(fr as int * 8 + fc as int == n as int);
                }
            } else {
                proof {
                    assert forall|p: (int, int)|
                        #[trigger] floor_at(*b, p) && idx_of(p) < n as int + 1 implies msk(
                        mask@,
                        p,
                    ) by {
                        if idx_of(p) == n as int {
                            assert(p.0 == n as int / 8 && p.1 == n as int % 8);
                            assert(p.0 * 8 + p.1 == n as int);
                        }
                    }
                }
            }
            n += 1;
        }
        if !found {
            proof {
                assert forall|p: (int, int)| #[trigger] floor_at(*b, p) implies msk(
                    mask@,
                    p,
                ) by {
                    assert(idx_of(p) < 64);
                }
            }
            break;
        }
        let ghost seed: (int, int) = (fr as int, fc as int);
        proof {
            assert forall|q: (int, int)| #[trigger] connected(*b, seed, q) implies idx_of(seed)
                <= idx_of(q) by {
                if idx_of(q) < idx_of(seed) {
                    lemma_connected_floor(*b, seed, q);
                    assert(msk(mask@, q));
                    lemma_connected_sym(*b, seed, q);
                    lemma_closed_component(*b, mask@, q, seed);
                    assert(false);
                }
            }
            assert(is_root(*b, seed));
            lemma_connected_refl(*b, seed);
        }
        let ghost m0 = mask@;
        mask[fr * 8 + fc] = true;
        proof {
            lemma_count_update(*b, m0, mask@, seed.0 * 8 + seed.1, 64);
            lemma_num_true_update(m0, mask@, seed.0 * 8 + seed.1, 64);
            lemma_count_le_num_true(*b, mask@, 64);
            lemma_num_true_bound(mask@, 64);
            assert forall|p: (int, int)| #[trigger] msk(mask@, p) implies floor_at(*b, p) by {
                if !msk(m0, p) {
                    assert(p.0 * 8 + p.1 == seed.0 * 8 + seed.1);
                    assert(p.0 == seed.0 && p.1 == seed.1);
                    assert(floor_at(*b, seed));
                }
            }
        }
        regions += 1;
        let mut stack: Vec<(usize, usize)> = Vec::new();
        stack.push((fr, fc));
        let ghost nt0 = num_true(mask@, 64);
        proof {
            lemma_deficit_seed(*b, m0, mask@, stack@, seed);
        }
        while stack.len() > 0
            invariant
                mask@.len() == 64,
                is_root(*b, seed),
                msk(mask@, seed),
                forall|p: (int, int)| #[trigger] msk(mask@, p) ==> floor_at(*b, p),
                regions as int == masked_root_count(*b, mask@, 64),
                1 <= regions <= 64,
                forall|k: int|
                    0 <= k < stack@.len() ==> stack_ok(*b, mask@, seed, #[trigger] stack@[k]),
                deficit_plain(*b, mask@, stack@),
                nt0 <= num_true(mask@, 64) <= 64,
            decreases 64 - num_true(mask@, 64), stack@.len(),
        {
            proof {
                lemma_num_true_bound(mask@, 64);
            }
            let ghost stack_pre = stack@;
            let p: (usize, usize) = stack.pop().unwrap();
            let ghost pp: (int, int) = (p.0 as int, p.1 as int);
            proof {
                assert(stack_ok(*b, mask@, seed, stack_pre[stack_pre.len() - 1]));
                assert(connected(*b, seed, pp));
                assert(msk(mask@, pp));
                lemma_deficit_after_pop(*b, mask@, stack_pre, stack@, pp);
            }
            visit_neighbor(b, &mut mask, &mut stack, p.0 as i32, p.1 as i32 + 1, Ghost(seed), Ghost(pp), Ghost(0));
            visit_neighbor(b, &mut mask, &mut stack, p.0 as i32 + 1, p.1 as i32, Ghost(seed), Ghost(pp), Ghost(1));
            visit_neighbor(b, &mut mask, &mut stack, p.0 as i32 - 1, p.1 as i32, Ghost(seed), Ghost(pp), Ghost(2));
            visit_neighbor(b, &mut mask, &mut stack, p.0 as i32, p.1 as i32 - 1, Ghost(seed), Ghost(pp), Ghost(3));
            proof {
                lemma_count_le_num_true(*b, mask@, 64);
                lemma_num_true_bound(mask@, 64);
                lemma_deficit_finish(*b, mask@, stack@, pp);
            }
        }
        proof {
            lemma_deficit_closed(*b, mask@, stack@);
        }
    }
    proof {
        lemma_count_full(*b, mask@, 64);
    }
    (regions - 1) * 20
}

} // verus!
