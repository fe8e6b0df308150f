//! The random walk over masking states: from the layout in which every
//! value stands alone in a register of its own, by additions of one
//! register into another that lose no value and give none away.

use crate::echelon::lemma_rank_of_diagonal;
use crate::gf2::{diagonal_matrix, rank_of, row_added};
use crate::rng::{pick_below, thread_rng};
use crate::safety::{
    covers, exposes_plaintext, is_end_state, lemma_diagonal_hides, lemma_unit_row, ones,
    ones_upto, row_is_plaintext, row_is_unit,
};
use crate::states::{views, StateSet};
use crate::swap::XMatrix;
use rand::rngs::ThreadRng;
use vstd::prelude::*;

verus! {

/// From which pairs of rows the moves are taken.
#[derive(Debug, Clone, Copy, PartialEq, Eq)]
pub enum Pairing {
    /// From every ordered pair of two rows: any row may be added into any
    /// other row.
    Ordered,
    /// From the pairs whose first row stands above the second: a row may
    /// be added into the rows above it only.
    Triangular,
}

impl Pairing {
    /// Whether adding row `j` into row `i` is a move at all.
    pub open spec fn pairs(self, i: int, j: int) -> bool {
        match self {
            Pairing::Ordered => i != j,
            Pairing::Triangular => i < j,
        }
    }

    /// Whether adding row `j` into row `i` is a move at all.
    pub fn allows(&self, i: usize, j: usize) -> (yes: bool)
        ensures
            yes == self.pairs(i as int, j as int),
    {
        match self {
            Pairing::Ordered => i != j,
            Pairing::Triangular => i < j,
        }
    }
}

/// Whether adding row `j` into row `i` is a legal move from `m`: it is a
/// move, the rank stays, and the new state gives no value away.
pub open spec fn is_safe_step(m: Seq<Seq<bool>>, pairing: Pairing, i: int, j: int) -> bool {
    &&& pairing.pairs(i, j)
    &&& rank_of(row_added(m, i, j)) == rank_of(m)
    &&& !exposes_plaintext(row_added(m, i, j))
}

/// The states that legal moves into row `i` lead to, taking the rows
/// before `n` as the row that is added, in order.
pub open spec fn row_successors(m: Seq<Seq<bool>>, pairing: Pairing, i: int, n: int) -> Seq<
    Seq<Seq<bool>>,
>
    decreases n,
{
    if n <= 0 {
        Seq::empty()
    } else if is_safe_step(m, pairing, i, n - 1) {
        row_successors(m, pairing, i, n - 1).push(row_added(m, i, n - 1))
    } else {
        row_successors(m, pairing, i, n - 1)
    }
}

/// The states that legal moves into one of the rows before `n` lead to,
/// row by row.
pub open spec fn successors_upto(m: Seq<Seq<bool>>, pairing: Pairing, n: int) -> Seq<
    Seq<Seq<bool>>,
>
    decreases n,
{
    if n <= 0 {
        Seq::empty()
    } else {
        successors_upto(m, pairing, n - 1) + row_successors(m, pairing, n - 1, m.len() as int)
    }
}

/// All states one legal move away from `m`: for every pair of rows
/// `(i, j)` that the pairing takes, in the order of `i` and then of `j`,
/// the state after adding row `j` into row `i`, where that move is legal.
pub open spec fn successors_by(m: Seq<Seq<bool>>, pairing: Pairing) -> Seq<Seq<Seq<bool>>> {
    successors_upto(m, pairing, m.len() as int)
}

/// All states one legal move away from `m`, the moves taken from every
/// ordered pair of two rows.
pub open spec fn successors(m: Seq<Seq<bool>>) -> Seq<Seq<Seq<bool>>> {
    successors_by(m, Pairing::Ordered)
}

/// Whether `m` loses no value and gives none away: its rank is `cols`,
/// and no register exposes a pair.
pub open spec fn safe_state(m: Seq<Seq<bool>>, cols: nat) -> bool {
    rank_of(m) == cols && !exposes_plaintext(m)
}

/// Unpermutated layout for C/2 cipher-key pairs in R physical registers.
pub fn default_layout<const R: usize, const C: usize>() -> (x: XMatrix<R, C>)
    requires
        R >= C,
        C % 2 == 0,
    ensures
        x@ == diagonal_matrix(R as nat, C as nat),
{
    let mut x = XMatrix::<R, C>::new();
    assert(x@ =~~= Seq::new(R as nat, |r: int| Seq::new(C as nat, |c: int| r == c && r < 0)));
    let mut i: usize = 0;
    while i < C
        invariant
            i <= C <= R,
            x@ == Seq::new(R as nat, |r: int| Seq::new(C as nat, |c: int| r == c && r < i)),
        decreases C - i,
    {
        x.set(i, i, 1);
        i += 1;
        assert(x@ =~~= Seq::new(R as nat, |r: int| Seq::new(C as nat, |c: int| r == c && r < i)));
    }
    assert(x@ =~~= diagonal_matrix(R as nat, C as nat));
    x
}

/// The number of ones in row `r`.
fn row_sum<const R: usize, const C: usize>(x: &XMatrix<R, C>, r: usize) -> (sum: usize)
    requires
        r < R,
    ensures
        sum == ones(x@[r as int]),
{
    let mut sum: usize = 0;
    let mut c: usize = 0;
    while c < C
        invariant
            r < R,
            c <= C,
            sum <= c,
            sum == ones_upto(x@[r as int], c as int),
        decreases C - c,
    {
        if x.get(r, c) == 1 {
            sum += 1;
        }
        c += 1;
    }
    sum
}

/// Checks if any physical register contains a single cipher/key xor'd together.
pub fn has_plaintext<const R: usize, const C: usize>(x: &XMatrix<R, C>) -> (found: bool)
    requires
        C % 2 == 0,
    ensures
        found == exposes_plaintext(x@),
{
    let num_pairs = C / 2;
    let mut r: usize = 0;
    while r < R
        invariant
            r <= R,
            num_pairs == C / 2,
            forall|k: int| 0 <= k < r ==> !row_is_plaintext(#[trigger] x@[k]),
        decreases R - r,
    {
        if row_sum(x, r) == 2 {
            let mut p: usize = 0;
            while p < num_pairs
                invariant
                    r < R,
                    p <= num_pairs,
                    num_pairs == C / 2,
                    ones(x@[r as int]) == 2,
                    forall|q: int|
                        0 <= q < p ==> !(x@[r as int][2 * q] && #[trigger] x@[r as int][2 * q + 1]),
                decreases num_pairs - p,
            {
                if x.get(r, p * 2) == 1 && x.get(r, p * 2 + 1) == 1 {
                    assert(x@[r as int][2 * p] && x@[r as int][2 * p + 1]);
                    assert(row_is_plaintext(x@[r as int]));
                    return true;
                }
                p += 1;
            }
        }
        r += 1;
    }
    false
}

/// Whether a subset of the registers forms a permutation of the default
/// layout's first `C` rows: each value stands alone in some register.
pub fn valid_end_state<const R: usize, const C: usize>(x: &XMatrix<R, C>) -> (valid: bool)
    requires
        C % 2 == 0,
    ensures
        valid == is_end_state(x@, C as nat),
{
    let mut indicator_rows: [u8; C] = [0; C];
    let mut r: usize = 0;
    while r < R
        invariant
            r <= R,
            forall|c: int|
                0 <= c < C ==> (#[trigger] indicator_rows[c] == 1) == exists|k: int|
                    0 <= k < r && row_is_unit(#[trigger] x@[k], c),
        decreases R - r,
    {
        let ghost row = x@[r as int];
        let mut sum: usize = 0;
        let mut first: usize = 0;
        let mut c: usize = 0;
        while c < C
            invariant
                r < R,
                c <= C,
                row == x@[r as int],
                sum <= c,
                sum == ones_upto(row, c as int),
                sum == 0 ==> first == 0,
                sum == 1 ==> first < c && row[first as int],
            decreases C - c,
        {
            if x.get(r, c) == 1 {
                sum += 1;
                if first == 0 {
                    first = c;
                }
            }
            c += 1;
        }
        let ghost before = indicator_rows;
        if sum == 1 {
            indicator_rows[first] = 1;
        }
        assert forall|c: int| 0 <= c < C implies (#[trigger] indicator_rows[c] == 1) == exists|
            k: int,
        |
            0 <= k < r + 1 && row_is_unit(#[trigger] x@[k], c) by {
            if row_is_unit(row, c) {
                lemma_unit_row(row, c, first as int);
                assert(row_is_unit(x@[r as int], c));
            }
            if before[c] == 1 {
                let k = choose|k: int| 0 <= k < r && row_is_unit(#[trigger] x@[k], c);
                assert(row_is_unit(x@[k], c));
            }
            if exists|k: int| 0 <= k < r + 1 && row_is_unit(#[trigger] x@[k], c) {
                let k = choose|k: int| 0 <= k < r + 1 && row_is_unit(#[trigger] x@[k], c);
                if k < r {
                    assert(before[c] == 1);
                }
            }
        }
        r += 1;
    }
    let mut c: usize = 0;
    while c < C
        invariant
            c <= C,
            forall|d: int|
                0 <= d < C ==> (#[trigger] indicator_rows[d] == 1) == covers(x@, d),
            forall|d: int| 0 <= d < c ==> covers(x@, d),
        decreases C - c,
    {
        if indicator_rows[c] != 1 {
            assert(!covers(x@, c as int));
            return false;
        }
        c += 1;
    }
    true
}

/// All states one legal move away from `x`: what comes of adding one row
/// into another, where that keeps the rank and gives no value away.
pub fn neighbors<const R: usize, const C: usize>(x: &XMatrix<R, C>) -> (out: Vec<XMatrix<R, C>>)
    requires
        C % 2 == 0,
    ensures
        views(out@) == successors(x@),
        forall|k: int|
            0 <= k < out.len() ==> rank_of(#[trigger] out[k]@) == rank_of(x@) && !exposes_plaintext(
                out[k]@,
            ),
{
    neighbors_by(x, Pairing::Ordered)
}

/// All states one legal move away from `x`, the moves taken from the
/// pairs of rows of `pairing`.
pub fn neighbors_by<const R: usize, const C: usize>(x: &XMatrix<R, C>, pairing: Pairing) -> (out:
    Vec<XMatrix<R, C>>)
    requires
        C % 2 == 0,
    ensures
        views(out@) == successors_by(x@, pairing),
        forall|k: int|
            0 <= k < out.len() ==> rank_of(#[trigger] out[k]@) == rank_of(x@) && !exposes_plaintext(
                out[k]@,
            ),
{
    let mut out: Vec<XMatrix<R, C>> = Vec::new();
    let rank = x.rank();
    let mut i: usize = 0;
    assert(views(out@) =~= successors_upto(x@, pairing, 0));
    while i < R
        invariant
            i <= R,
            C % 2 == 0,
            rank == rank_of(x@),
            views(out@) == successors_upto(x@, pairing, i as int),
            forall|k: int|
                0 <= k < out.len() ==> rank_of(#[trigger] out[k]@) == rank_of(x@)
                    && !exposes_plaintext(out[k]@),
        decreases R - i,
    {
        let ghost done = views(out@);
        let mut j: usize = 0;
        assert(views(out@) =~= done + row_successors(x@, pairing, i as int, 0));
        while j < R
            invariant
                i < R,
                j <= R,
                C % 2 == 0,
                rank == rank_of(x@),
                done == successors_upto(x@, pairing, i as int),
                views(out@) == done + row_successors(x@, pairing, i as int, j as int),
                forall|k: int|
                    0 <= k < out.len() ==> rank_of(#[trigger] out[k]@) == rank_of(x@)
                        && !exposes_plaintext(out[k]@),
            decreases R - j,
        {
            let ghost before = views(out@);
            if pairing.allows(i, j) {
                let mut y = x.clone();
                y.add_row(i, j);
                if y.rank() == rank && !has_plaintext(&y) {
                    out.push(y);
                    assert(views(out@) =~= before.push(y@));
                }
            }
            j += 1;
            assert(views(out@) =~= done + row_successors(x@, pairing, i as int, j as int));
        }
        i += 1;
    }
    out
}

/// What a walk holds, as the bits of its matrices.
pub struct WalkState {
    /// The state the walk stands on.
    pub current: Seq<Seq<bool>>,
    /// The distinct states recorded so far, in the order in which they
    /// were first stood on.
    pub seen: Seq<Seq<Seq<bool>>>,
    /// The end states among them, in the order in which they were found.
    pub end_states: Seq<Seq<Seq<bool>>>,
    /// Whether the walk has met a state without a legal move.
    pub stuck: bool,
    /// From which pairs of rows the walk takes its moves.
    pub pairing: Pairing,
}

impl WalkState {
    /// Whether the state the walk stands on has not been recorded.
    pub open spec fn is_fresh(self) -> bool {
        !self.seen.contains(self.current)
    }

    /// The walk after recording the state it stands on: a state not seen
    /// before joins the seen states, and the end states too if it is one.
    pub open spec fn recorded(self, cols: nat) -> WalkState {
        WalkState {
            seen: if self.is_fresh() {
                self.seen.push(self.current)
            } else {
                self.seen
            },
            end_states: if self.is_fresh() && is_end_state(self.current, cols) {
                self.end_states.push(self.current)
            } else {
                self.end_states
            },
            ..self
        }
    }

    /// The walk after moving to the candidate picked, or stuck where it
    /// is if there is no candidate.
    pub open spec fn moved(self, candidates: Seq<Seq<Seq<bool>>>, pick: int) -> WalkState {
        if candidates.len() == 0 {
            WalkState { stuck: true, ..self }
        } else {
            WalkState { current: candidates[pick], ..self }
        }
    }

    /// The walk one step on: the state is recorded, and the walk moves to
    /// the legal successor picked, or is stuck if there is none.
    pub open spec fn stepped(self, cols: nat, pick: int) -> WalkState {
        self.recorded(cols).moved(successors_by(self.current, self.pairing), pick)
    }

    /// Whether `pick` picks one of the legal successors of the state the
    /// walk stands on. Where there is none, every pick will do.
    pub open spec fn can_pick(self, pick: int) -> bool {
        0 <= pick && (pick < successors_by(self.current, self.pairing).len() || successors_by(
            self.current,
            self.pairing,
        ).len() == 0)
    }

    /// Whether `n` steps, with some pick at each, lead from this walk to
    /// `after`.
    pub open spec fn reaches(self, after: WalkState, n: nat, cols: nat) -> bool
        decreases n,
    {
        if n == 0 {
            after == self
        } else {
            exists|mid: WalkState, pick: int|
                self.reaches(mid, (n - 1) as nat, cols) && mid.can_pick(pick) && after
                    == #[trigger] mid.stepped(cols, pick)
        }
    }

    /// What holds of a walk throughout: every state that it stands on or
    /// has recorded is safe, no state is recorded twice, every end state
    /// found is one and is among the seen states, and a stuck walk stands
    /// on a state without a legal move.
    pub open spec fn is_sound(self, cols: nat) -> bool {
        &&& cols % 2 == 0
        &&& safe_state(self.current, cols)
        &&& forall|k: int| 0 <= k < self.seen.len() ==> safe_state(#[trigger] self.seen[k], cols)
        &&& self.seen.no_duplicates()
        &&& self.end_states.no_duplicates()
        &&& forall|k: int|
            0 <= k < self.end_states.len() ==> is_end_state(#[trigger] self.end_states[k], cols)
                && self.seen.contains(self.end_states[k])
        &&& self.stuck ==> successors_by(self.current, self.pairing).len() == 0
    }
}

/// A random walk over safe states.
pub struct Walk<const R: usize, const C: usize> {
    pairing: Pairing,
    current: XMatrix<R, C>,
    seen: StateSet<R, C>,
    end_states: Vec<XMatrix<R, C>>,
    stuck: bool,
}

impl<const R: usize, const C: usize> View for Walk<R, C> {
    type V = WalkState;

    closed spec fn view(&self) -> WalkState {
        WalkState {
            current: self.current@,
            seen: self.seen@,
            end_states: views(self.end_states@),
            stuck: self.stuck,
            pairing: self.pairing,
        }
    }
}

impl<const R: usize, const C: usize> Walk<R, C> {
    /// Whether the walk is in order: what holds of a walk throughout holds
    /// of it, and its seen states are kept so that they are found again.
    pub open spec fn wf(&self) -> bool {
        self@.is_sound(C as nat) && self.seen_in_order()
    }

    /// Whether the seen states are kept so that they are found again.
    pub closed spec fn seen_in_order(&self) -> bool {
        self.seen.wf()
    }

    /// A walk that stands on the default layout, has recorded nothing and
    /// takes its moves from every ordered pair of two rows.
    pub fn new() -> (walk: Self)
        requires
            R >= C,
            C % 2 == 0,
        ensures
            walk.wf(),
            walk@.current == diagonal_matrix(R as nat, C as nat),
            walk@.seen.len() == 0,
            walk@.end_states.len() == 0,
            !walk@.stuck,
            walk@.pairing == Pairing::Ordered,
    {
        Self::with_pairing(Pairing::Ordered)
    }

    /// A walk that stands on the default layout, has recorded nothing and
    /// takes its moves from the pairs of rows of `pairing`.
    pub fn with_pairing(pairing: Pairing) -> (walk: Self)
        requires
            R >= C,
            C % 2 == 0,
        ensures
            walk.wf(),
            walk@.current == diagonal_matrix(R as nat, C as nat),
            walk@.seen.len() == 0,
            walk@.end_states.len() == 0,
            !walk@.stuck,
            walk@.pairing == pairing,
    {
        let current = default_layout::<R, C>();
        proof {
            lemma_rank_of_diagonal(R as nat, C as nat);
            lemma_diagonal_hides(R as nat, C as nat);
        }
        Walk { pairing, current, seen: StateSet::new(), end_states: Vec::new(), stuck: false }
    }

    /// From which pairs of rows the walk takes its moves.
    pub fn pairing(&self) -> (pairing: Pairing)
        ensures
            pairing == self@.pairing,
    {
        self.pairing
    }

    /// The state the walk stands on.
    pub fn current(&self) -> (x: &XMatrix<R, C>)
        ensures
            x@ == self@.current,
    {
        &self.current
    }

    /// The distinct states recorded so far.
    pub fn seen(&self) -> (states: &Vec<XMatrix<R, C>>)
        ensures
            views(states@) == self@.seen,
    {
        self.seen.states()
    }

    /// The end states found so far.
    pub fn end_states(&self) -> (states: &Vec<XMatrix<R, C>>)
        ensures
            views(states@) == self@.end_states,
    {
        &self.end_states
    }

    /// Whether the walk has met a state without a legal move.
    pub fn is_stuck(&self) -> (stuck: bool)
        ensures
            stuck == self@.stuck,
    {
        self.stuck
    }

    /// Records the state the walk stands on. Says whether that state is an
    /// end state not seen before.
    pub fn record(&mut self) -> (found: bool)
        requires
            old(self).wf(),
        ensures
            final(self)@ == old(self)@.recorded(C as nat),
            final(self).wf(),
            found == (old(self)@.is_fresh() && is_end_state(old(self)@.current, C as nat)),
    {
        let ghost before = self@;
        let fresh = self.seen.insert(self.current);
        let found = fresh && valid_end_state(&self.current);
        if found {
            self.end_states.push(self.current);
            assert(views(self.end_states@) =~= before.end_states.push(before.current));
        }
        proof {
            let after = self@;
            assert(after == before.recorded(C as nat));
            assert forall|k: int| 0 <= k < after.end_states.len() implies after.seen.contains(
                #[trigger] after.end_states[k],
            ) by {
                if k < before.end_states.len() {
                    let at = choose|at: int|
                        0 <= at < before.seen.len() && before.seen[at] == before.end_states[k];
                    assert(after.seen[at] == after.end_states[k]);
                } else {
                    assert(after.seen[before.seen.len() as int] == before.current);
                }
            }
            if found {
                assert forall|k: int| 0 <= k < before.end_states.len() implies before.end_states[k]
                    != before.current by {
                    assert(before.seen.contains(before.end_states[k]));
                }
            }
        }
        found
    }

    /// Moves to the candidate picked; without candidates the walk is stuck
    /// where it stands.
    pub fn advance(&mut self, candidates: &Vec<XMatrix<R, C>>, pick: usize)
        requires
            old(self).wf(),
            views(candidates@) == successors_by(old(self)@.current, old(self)@.pairing),
            candidates.len() == 0 || pick < candidates.len(),
        ensures
            final(self)@ == old(self)@.moved(views(candidates@), pick as int),
            final(self).wf(),
    {
        if candidates.len() == 0 {
            self.stuck = true;
        } else {
            proof {
                lemma_successors_safe(self@.current, self@.pairing, C as nat, pick as int);
            }
            self.current = candidates[pick];
            assert(self.current@ == views(candidates@)[pick as int]);
        }
    }

    /// One step of the walk: records the state, then moves to a legal
    /// successor picked at random, or is stuck if there is none. Says
    /// whether the state recorded is an end state not seen before.
    pub fn step(&mut self, rng: &mut ThreadRng) -> (found: bool)
        requires
            old(self).wf(),
        ensures
            final(self).wf(),
            exists|pick: int|
                old(self)@.can_pick(pick) && final(self)@ == #[trigger] old(self)@.stepped(
                    C as nat,
                    pick,
                ),
            found == (old(self)@.is_fresh() && is_end_state(old(self)@.current, C as nat)),
    {
        let found = self.record();
        let candidates = neighbors_by(&self.current, self.pairing);
        let pick = if candidates.len() == 0 {
            0
        } else {
            pick_below(rng, candidates.len())
        };
        self.advance(&candidates, pick);
        assert(old(self)@.can_pick(pick as int) && self@ == old(self)@.stepped(
            C as nat,
            pick as int,
        ));
        found
    }

    /// Walks until `budget` steps are done or the walk is stuck, with the
    /// generator of the current thread. Says how many steps were done.
    pub fn run(&mut self, budget: usize) -> (steps: usize)
        requires
            old(self).wf(),
        ensures
            final(self).wf(),
            old(self)@.reaches(final(self)@, steps as nat, C as nat),
            steps <= budget,
            steps < budget ==> final(self)@.stuck,
            old(self)@.stuck ==> steps == 0,
            old(self)@.seen.is_prefix_of(final(self)@.seen),
            old(self)@.end_states.is_prefix_of(final(self)@.end_states),
            final(self)@.seen.len() <= old(self)@.seen.len() + steps,
    {
        let mut rng = thread_rng();
        let mut steps: usize = 0;
        while steps < budget && !self.stuck
            invariant
                self.wf(),
                old(self)@.reaches(self@, steps as nat, C as nat),
                steps <= budget,
                old(self)@.stuck ==> steps == 0,
                old(self)@.seen.is_prefix_of(self@.seen),
                old(self)@.end_states.is_prefix_of(self@.end_states),
                self@.seen.len() <= old(self)@.seen.len() + steps,
            decreases budget - steps,
        {
            let ghost mid = self@;
            self.step(&mut rng);
            steps += 1;
            proof {
                let pick = choose|pick: int|
                    mid.can_pick(pick) && self@ == #[trigger] mid.stepped(C as nat, pick);
                assert(old(self)@.reaches(mid, (steps - 1) as nat, C as nat));
                assert(mid.can_pick(pick) && self@ == mid.stepped(C as nat, pick));
            }
        }
        steps
    }
}

/// Every legal successor of a safe state is safe.
pub proof fn lemma_successors_safe(m: Seq<Seq<bool>>, pairing: Pairing, cols: nat, pick: int)
    requires
        safe_state(m, cols),
        0 <= pick < successors_by(m, pairing).len(),
    ensures
        safe_state(successors_by(m, pairing)[pick], cols),
{
    lemma_successors_upto_safe(m, pairing, m.len() as int, pick);
}

proof fn lemma_row_successors_safe(m: Seq<Seq<bool>>, pairing: Pairing, i: int, n: int, pick: int)
    requires
        0 <= pick < row_successors(m, pairing, i, n).len(),
    ensures
        rank_of(row_successors(m, pairing, i, n)[pick]) == rank_of(m),
        !exposes_plaintext(row_successors(m, pairing, i, n)[pick]),
    decreases n,
{
    if n > 0 {
        if pick < row_successors(m, pairing, i, n - 1).len() {
            lemma_row_successors_safe(m, pairing, i, n - 1, pick);
        }
    }
}

proof fn lemma_successors_upto_safe(m: Seq<Seq<bool>>, pairing: Pairing, n: int, pick: int)
    requires
        0 <= pick < successors_upto(m, pairing, n).len(),
    ensures
        rank_of(successors_upto(m, pairing, n)[pick]) == rank_of(m),
        !exposes_plaintext(successors_upto(m, pairing, n)[pick]),
    decreases n,
{
    if n > 0 {
        let before = successors_upto(m, pairing, n - 1);
        if pick < before.len() {
            lemma_successors_upto_safe(m, pairing, n - 1, pick);
        } else {
            lemma_row_successors_safe(m, pairing, n - 1, m.len() as int, pick - before.len());
        }
    }
}

} // verus!
