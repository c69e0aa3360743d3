use vstd::prelude::*;
use crate::grid::Board;
use crate::grid::Space;
use crate::grid::lemma_flip_changes;
use crate::rng::RandomSource;
use crate::cost::cost_spec;

verus! {

/// The default iteration budget of one annealing cycle: when `iteration`
/// reaches it, the search restarts from a fresh random board.
pub const MAX_ITERS: u32 = 40000;

/// A perturbation keeps some cell changeable: the flipped cell still is.
pub proof fn lemma_flip_keeps_changeable(pre: Board, post: Board)
    requires
        Board::one_flip(pre, post),
    ensures
        post.has_changeable(),
{
    let (r, c) = choose|r: int, c: int| #[trigger] Board::flipped_at(pre, post, r, c);
    lemma_flip_changes(pre.cell(r, c));
    assert((#[trigger] post.cell(r, c)).spec_can_change());
}

/// Randomization keeps some cell changeable: redrawn cells stay changeable.
pub proof fn lemma_randomized_keeps_changeable(post: Board, pre: Board)
    requires
        Board::randomized_from(post, pre),
        pre.has_changeable(),
    ensures
        post.has_changeable(),
{
    let (r, c) = choose|r: int, c: int|
        0 <= r < 8 && 0 <= c < 8 && (#[trigger] pre.cell(r, c)).spec_can_change();
    assert((#[trigger] post.cell(r, c)).spec_can_change());
}

/// The annealing search driver: it owns the evolving board, its cost, and
/// the iteration and restart counters. One iteration of the search is one
/// `propose` followed by one `decide`; the caller supplies the annealing
/// draw that `decide` uses for uphill moves, and stops when `solved`.
pub struct Driver {
    board: Board,
    cost: i32,
    pending: Option<(Board, i32)>,
    iteration: u32,
    resets: u32,
    max_iters: u32,
}

impl Driver {
    /// What the search keeps true between iterations.
    pub closed spec fn wf(self) -> bool {
        &&& self.cost as int == cost_spec(self.board)
        &&& self.board.has_changeable()
        &&& self.max_iters >= 1
        &&& (self.cost > 0 ==> self.iteration < self.max_iters)
        &&& match self.pending {
            Some(p) => p.1 as int == cost_spec(p.0) && Board::one_flip(self.board, p.0),
            None => true,
        }
    }

    pub closed spec fn spec_board(self) -> Board {
        self.board
    }

    pub closed spec fn spec_cost(self) -> int {
        self.cost as int
    }

    pub closed spec fn spec_iteration(self) -> int {
        self.iteration as int
    }

    pub closed spec fn spec_resets(self) -> int {
        self.resets as int
    }

    pub closed spec fn spec_max_iters(self) -> int {
        self.max_iters as int
    }

    pub closed spec fn has_pending(self) -> bool {
        self.pending is Some
    }

    pub closed spec fn pending_board(self) -> Board {
        match self.pending {
            Some(p) => p.0,
            None => self.board,
        }
    }

    pub closed spec fn pending_cost(self) -> int {
        match self.pending {
            Some(p) => p.1 as int,
            None => 0,
        }
    }

    /// Start a search: randomize every changeable cell of the starting
    /// board, score it, and zero the counters.
    pub fn new(board: Board, max_iters: u32, rng: &mut RandomSource) -> (d: Driver)
        requires
            board.has_changeable(),
            max_iters >= 1,
        ensures
            d.wf(),
            Board::randomized_from(d.spec_board(), board),
            d.spec_cost() == cost_spec(d.spec_board()),
            d.spec_iteration() == 0,
            d.spec_resets() == 0,
            d.spec_max_iters() == max_iters as int,
            !d.has_pending(),
    {
        let ghost b0 = board;
        let mut b = board;
        b.initialize(rng);
        proof {
            lemma_randomized_keeps_changeable(b, b0);
        }
        let c = b.cost();
        Driver { board: b, cost: c, pending: None, iteration: 0, resets: 0, max_iters }
    }

    /// The search is over the moment the cost is no longer positive.
    pub fn solved(&self) -> (r: bool)
        ensures
            r == (self.spec_cost() <= 0),
    {
        self.cost <= 0
    }

    pub fn cost(&self) -> (c: i32)
        ensures
            c as int == self.spec_cost(),
    {
        self.cost
    }

    pub fn iteration(&self) -> (i: u32)
        ensures
            i as int == self.spec_iteration(),
    {
        self.iteration
    }

    pub fn resets(&self) -> (r: u32)
        ensures
            r as int == self.spec_resets(),
    {
        self.resets
    }

    pub fn max_iters(&self) -> (m: u32)
        ensures
            m as int == self.spec_max_iters(),
    {
        self.max_iters
    }

    pub fn board(&self) -> (b: &Board)
        ensures
            *b == self.spec_board(),
    {
        &self.board
    }

    pub fn is_pending(&self) -> (r: bool)
        ensures
            r == self.has_pending(),
    {
        self.pending.is_some()
    }

    /// Propose one candidate: a one-cell perturbation of the current board,
    /// scored. The driver holds it until `decide` resolves it; the returned
    /// cost lets the caller draw its acceptance test.
    pub fn propose(&mut self, rng: &mut RandomSource) -> (c: i32)
        requires
            old(self).wf(),
        ensures
            final(self).wf(),
            final(self).has_pending(),
            Board::one_flip(old(self).spec_board(), final(self).pending_board()),
            c as int == cost_spec(final(self).pending_board()),
            final(self).pending_cost() == c as int,
            final(self).spec_board() == old(self).spec_board(),
            final(self).spec_cost() == old(self).spec_cost(),
            final(self).spec_iteration() == old(self).spec_iteration(),
            final(self).spec_resets() == old(self).spec_resets(),
            final(self).spec_max_iters() == old(self).spec_max_iters(),
    {
        let cand = self.board.step(rng);
        let cc = cand.cost();
        self.pending = Some((cand, cc));
        cc
    }

    /// Resolve the pending candidate: accept it when it scores strictly
    /// better, or when the caller's annealing draw `accept_uphill` says so.
    /// Then count the iteration; if that exhausts the budget while the cost
    /// is still positive, restart: zero the iteration counter, redraw every
    /// changeable cell, rescore, and count the reset.
    pub fn decide(&mut self, accept_uphill: bool, rng: &mut RandomSource)
        requires
            old(self).wf(),
            old(self).has_pending(),
            old(self).spec_cost() > 0,
            old(self).spec_resets() < 0xffff_ffff,
        ensures
            final(self).wf(),
            !final(self).has_pending(),
            final(self).spec_max_iters() == old(self).spec_max_iters(),
            ({
                let accepted = old(self).pending_cost() < old(self).spec_cost() || accept_uphill;
                let mid_board = if accepted {
                    old(self).pending_board()
                } else {
                    old(self).spec_board()
                };
                let mid_cost = if accepted {
                    old(self).pending_cost()
                } else {
                    old(self).spec_cost()
                };
                if mid_cost > 0 && old(self).spec_iteration() + 1 >= old(self).spec_max_iters() {
                    &&& final(self).spec_iteration() == 0
                    &&& final(self).spec_resets() == old(self).spec_resets() + 1
                    &&& Board::randomized_from(final(self).spec_board(), mid_board)
                    &&& final(self).spec_cost() == cost_spec(final(self).spec_board())
                } else {
                    &&& final(self).spec_iteration() == old(self).spec_iteration() + 1
                    &&& final(self).spec_resets() == old(self).spec_resets()
                    &&& final(self).spec_board() == mid_board
                    &&& final(self).spec_cost() == mid_cost
                }
            }),
    {
        let mut pending: Option<(Board, i32)> = None;
        std::mem::swap(&mut pending, &mut self.pending);
        let p = pending.unwrap();
        let cand = p.0;
        let cc: i32 = p.1;
        let accepted = cc < self.cost || accept_uphill;
        if accepted {
            proof {
                lemma_flip_keeps_changeable(self.board, cand);
            }
            self.board = cand;
            self.cost = cc;
        }
        if self.cost > 0 && self.iteration >= self.max_iters - 1 {
            let ghost mid = self.board;
            self.iteration = 0;
            self.board.initialize(rng);
            proof {
                lemma_randomized_keeps_changeable(self.board, mid);
            }
            self.cost = self.board.cost();
            self.resets = self.resets + 1;
        } else {
            self.iteration = self.iteration + 1;
        }
    }
}

} // verus!
