use vstd::prelude::*;
use crate::grid::Board;
use crate::cost::block_term_upto;
use crate::cost::best_room_upto;
use crate::cost::chest_covers;
use crate::cost::chest_term_upto;
use crate::cost::cost_spec;
use crate::cost::deadend_term_upto;
use crate::cost::masked;
use crate::cost::row_walls_upto;
use crate::cost::col_walls_upto;
use crate::cost::wall_term_upto;
use crate::connect::connected;
use crate::connect::is_path;
use crate::connect::is_root;
use crate::connect::root_count_upto;

verus! {

proof fn lemma_row_walls_agrees(a: Board, b: Board, r: int, n: int)
    requires
        a.agrees(b),
    ensures
        row_walls_upto(a, r, n) == row_walls_upto(b, r, n),
    decreases n,
{
    if n > 0 {
        lemma_row_walls_agrees(a, b, r, n - 1);
    }
}

proof fn lemma_col_walls_agrees(a: Board, b: Board, c: int, n: int)
    requires
        a.agrees(b),
    ensures
        col_walls_upto(a, c, n) == col_walls_upto(b, c, n),
    decreases n,
{
    if n > 0 {
        lemma_col_walls_agrees(a, b, c, n - 1);
    }
}

proof fn lemma_wall_term_agrees(a: Board, b: Board, n: int)
    requires
        a.agrees(b),
        0 <= n <= 8,
    ensures
        wall_term_upto(a, n) == wall_term_upto(b, n),
    decreases n,
{
    if n > 0 {
        lemma_wall_term_agrees(a, b, n - 1);
        lemma_row_walls_agrees(a, b, n - 1, 8);
        lemma_col_walls_agrees(a, b, n - 1, 8);
    }
}

proof fn lemma_best_room_agrees(a: Board, b: Board, r: int, c: int, k: int)
    requires
        a.agrees(b),
    ensures
        best_room_upto(a, r, c, k) == best_room_upto(b, r, c, k),
    decreases k,
{
    if k > 0 {
        lemma_best_room_agrees(a, b, r, c, k - 1);
    }
}

proof fn lemma_chest_term_agrees(a: Board, b: Board, n: int)
    requires
        a.agrees(b),
    ensures
        chest_term_upto(a, n) == chest_term_upto(b, n),
    decreases n,
{
    if n > 0 {
        lemma_chest_term_agrees(a, b, n - 1);
        lemma_best_room_agrees(a, b, (n - 1) / 8, (n - 1) % 8, 9);
    }
}

proof fn lemma_masked_agrees(a: Board, b: Board, r: int, c: int)
    requires
        a.agrees(b),
    ensures
        masked(a, r, c) == masked(b, r, c),
{
    if masked(a, r, c) {
        let k = choose|k: int| 0 <= k < 64 && #[trigger] chest_covers(a, k, r, c);
        lemma_best_room_agrees(a, b, k / 8, k % 8, 9);
        assert(chest_covers(b, k, r, c));
    }
    if masked(b, r, c) {
        let k = choose|k: int| 0 <= k < 64 && #[trigger] chest_covers(b, k, r, c);
        lemma_best_room_agrees(a, b, k / 8, k % 8, 9);
        assert(chest_covers(a, k, r, c));
    }
}

proof fn lemma_block_term_agrees(a: Board, b: Board, n: int)
    requires
        a.agrees(b),
    ensures
        block_term_upto(a, n) == block_term_upto(b, n),
    decreases n,
{
    if n > 0 {
        lemma_block_term_agrees(a, b, n - 1);
        let i = (n - 1) / 7;
        let j = (n - 1) % 7;
        lemma_masked_agrees(a, b, i, j);
        lemma_masked_agrees(a, b, i, j + 1);
        lemma_masked_agrees(a, b, i + 1, j);
        lemma_masked_agrees(a, b, i + 1, j + 1);
    }
}

proof fn lemma_deadend_term_agrees(a: Board, b: Board, n: int)
    requires
        a.agrees(b),
    ensures
        deadend_term_upto(a, n) == deadend_term_upto(b, n),
    decreases n,
{
    if n > 0 {
        lemma_deadend_term_agrees(a, b, n - 1);
    }
}

proof fn lemma_connected_agrees(a: Board, b: Board, p: (int, int), q: (int, int))
    requires
        a.agrees(b),
        connected(a, p, q),
    ensures
        connected(b, p, q),
{
    let path = choose|path: Seq<(int, int)>|
        #[trigger] is_path(a, path) && path.len() > 0 && path[0] == p && path.last() == q;
    assert(is_path(b, path)) by {
        assert(forall|k: int|
            0 <= k < path.len() ==> a.cell((#[trigger] path[k]).0, path[k].1) == b.cell(
                path[k].0,
                path[k].1,
            ));
    }
}

proof fn lemma_root_agrees(a: Board, b: Board, p: (int, int))
    requires
        a.agrees(b),
    ensures
        is_root(a, p) == is_root(b, p),
{
    assert(b.agrees(a)) by {
        assert(forall|r: int, c: int| #[trigger] b.cell(r, c) == a.cell(r, c));
    }
    if is_root(a, p) {
        assert forall|q: (int, int)| #[trigger] connected(b, p, q) implies crate::connect::idx_of(
            p,
        ) <= crate::connect::idx_of(q) by {
            lemma_connected_agrees(b, a, p, q);
        }
    }
    if is_root(b, p) {
        assert forall|q: (int, int)| #[trigger] connected(a, p, q) implies crate::connect::idx_of(
            p,
        ) <= crate::connect::idx_of(q) by {
            lemma_connected_agrees(a, b, p, q);
        }
    }
}

proof fn lemma_root_count_agrees(a: Board, b: Board, n: int)
    requires
        a.agrees(b),
    ensures
        root_count_upto(a, n) == root_count_upto(b, n),
    decreases n,
{
    if n > 0 {
        lemma_root_count_agrees(a, b, n - 1);
        lemma_root_agrees(a, b, ((n - 1) / 8, (n - 1) % 8));
    }
}

/// The cost reads nothing but the cells and the targets: any two boards that
/// hold the same cells everywhere (walls, chests, monsters) and the same
/// row and column targets score exactly the same. In particular, scoring an
/// unchanged board twice yields the same value.
pub proof fn lemma_cost_agrees(a: Board, b: Board)
    requires
        a.agrees(b),
    ensures
        cost_spec(a) == cost_spec(b),
{
    lemma_wall_term_agrees(a, b, 8);
    lemma_chest_term_agrees(a, b, 64);
    lemma_block_term_agrees(a, b, 49);
    lemma_deadend_term_agrees(a, b, 64);
    lemma_root_count_agrees(a, b, 64);
}

} // verus!
