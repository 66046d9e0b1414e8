//! The randomized local search: propose a small batch of cross-table
//! swaps, evaluate the mutated assignment, and either keep it or
//! revert it, steered by an adaptive acceptance temperature.

use vstd::prelude::*;
use rand::Rng;
use crate::cost::{
    spec_cost_of, spec_individual_of, lemma_individual_cost_bounded, Cost, PairScorer, MAX_SEATS,
};
use crate::ids::Id;
use crate::tables::{
    lemma_coverage_exists, lemma_swap_self_inverse, range_contains, spec_swap, Seats, Tables,
};

verus! {

/// The temperature unit: `TEMP_SCALE` units stand for acceptance
/// probability 1, so one unit is a probability of 1e-10.
pub const TEMP_SCALE: u64 = 10_000_000_000;

/// How far the temperature drops each time a trial is accepted
/// (probability 0.2).
pub const TEMP_DROP: u64 = 2_000_000_000;

/// How far the temperature rises each time a trial is rejected (one
/// unit, probability 1e-10): many consecutive rejections are needed
/// before a worsening trial stands a real chance.
pub const TEMP_RISE: u64 = 1;

/// Relies on `rand::Rng::gen_range` over `0..n`, via
/// `rand::thread_rng`: yields a value of the non-empty range, so the
/// result is below `n`; which value comes back is chance, and
/// nothing more is assumed.
#[verifier::external_body]
fn rand_below(n: u64) -> (r: u64)
    requires
        n > 0,
    ensures
        r < n,
{
    rand::thread_rng().gen_range(0..n)
}

/// A candidate swap of two seat indices on different tables.
#[derive(Debug, Clone, Copy, PartialEq, Eq, Structural)]
pub struct Move {
    pub a: usize,
    pub b: usize,
}

/// A move is valid for a layout when both indices are seats and the
/// second lies outside the first's table.
pub open spec fn spec_move_valid(m: Move, t: Tables) -> bool {
    &&& m.a < t.spec_seat_count()
    &&& m.b < t.spec_seat_count()
    &&& !range_contains(t.spec_table_of(m.a as int), m.b as int)
}

/// Whether every move of the batch is valid for the layout.
pub open spec fn spec_moves_valid(ms: Seq<Move>, t: Tables) -> bool {
    forall|i: int| 0 <= i < ms.len() ==> spec_move_valid(#[trigger] ms[i], t)
}

/// Whether every move of the batch addresses existing slots.
pub open spec fn spec_moves_in_bounds(ms: Seq<Move>, len: int) -> bool {
    forall|i: int| 0 <= i < ms.len() ==> (#[trigger] ms[i]).a < len && ms[i].b < len
}

/// The slot contents after applying the moves first to last.
pub open spec fn spec_apply_moves(s: Seq<Option<Id>>, ms: Seq<Move>) -> Seq<Option<Id>>
    decreases ms.len(),
{
    if ms.len() == 0 {
        s
    } else {
        spec_apply_moves(spec_swap(s, ms[0].a as int, ms[0].b as int), ms.drop_first())
    }
}

/// The slot contents after applying the moves last to first: the
/// revert order.
pub open spec fn spec_unapply_moves(s: Seq<Option<Id>>, ms: Seq<Move>) -> Seq<Option<Id>>
    decreases ms.len(),
{
    if ms.len() == 0 {
        s
    } else {
        spec_unapply_moves(
            spec_swap(s, ms.last().a as int, ms.last().b as int),
            ms.drop_last(),
        )
    }
}

/// Applying moves keeps the number of slots.
pub proof fn lemma_apply_moves_len(s: Seq<Option<Id>>, ms: Seq<Move>)
    requires
        spec_moves_in_bounds(ms, s.len() as int),
    ensures
        spec_apply_moves(s, ms).len() == s.len(),
    decreases ms.len(),
{
    if ms.len() > 0 {
        let s1 = spec_swap(s, ms[0].a as int, ms[0].b as int);
        assert(s1.len() == s.len());
        assert(spec_moves_in_bounds(ms.drop_first(), s1.len() as int));
        lemma_apply_moves_len(s1, ms.drop_first());
    }
}

/// Appending a move to a batch swaps after everything else.
proof fn lemma_apply_moves_push(s: Seq<Option<Id>>, ms: Seq<Move>, m: Move)
    ensures
        spec_apply_moves(s, ms.push(m)) == spec_swap(
            spec_apply_moves(s, ms),
            m.a as int,
            m.b as int,
        ),
    decreases ms.len(),
{
    let sw = spec_swap(s, m.a as int, m.b as int);
    if ms.len() == 0 {
        let one = ms.push(m);
        assert(one[0] == m);
        assert(one.drop_first() =~= Seq::<Move>::empty());
        assert(spec_apply_moves(s, one) == spec_apply_moves(sw, Seq::<Move>::empty()));
        assert(spec_apply_moves(sw, Seq::<Move>::empty()) == sw);
        assert(spec_apply_moves(s, ms) == s);
    } else {
        let s1 = spec_swap(s, ms[0].a as int, ms[0].b as int);
        assert(ms.push(m)[0] == ms[0]);
        assert(ms.push(m).drop_first() =~= ms.drop_first().push(m));
        lemma_apply_moves_push(s1, ms.drop_first(), m);
        assert(spec_apply_moves(s, ms.push(m)) == spec_apply_moves(s1, ms.drop_first().push(m)));
        assert(spec_apply_moves(s, ms) == spec_apply_moves(s1, ms.drop_first()));
    }
}

/// Unapplying a non-empty batch ends by swapping its first move.
proof fn lemma_unapply_moves_first(s: Seq<Option<Id>>, ms: Seq<Move>)
    requires
        ms.len() > 0,
    ensures
        spec_unapply_moves(s, ms) == spec_swap(
            spec_unapply_moves(s, ms.drop_first()),
            ms[0].a as int,
            ms[0].b as int,
        ),
    decreases ms.len(),
{
    let s1 = spec_swap(s, ms.last().a as int, ms.last().b as int);
    if ms.len() == 1 {
        assert(ms.drop_last() =~= Seq::<Move>::empty());
        assert(ms.drop_first() =~= Seq::<Move>::empty());
        assert(ms.last() == ms[0]);
        assert(spec_unapply_moves(s, ms) == spec_unapply_moves(s1, ms.drop_last()));
        assert(spec_unapply_moves(s1, Seq::<Move>::empty()) == s1);
        assert(spec_unapply_moves(s, ms.drop_first()) == s);
    } else {
        assert(ms.drop_last()[0] == ms[0]);
        lemma_unapply_moves_first(s1, ms.drop_last());
        assert(spec_unapply_moves(s, ms) == spec_unapply_moves(s1, ms.drop_last()));
        assert(ms.drop_last().drop_first() =~= ms.drop_first().drop_last());
        assert(ms.drop_first().last() == ms.last());
        assert(ms.drop_first().len() > 0);
        assert(spec_unapply_moves(s, ms.drop_first()) == spec_unapply_moves(
            s1,
            ms.drop_first().drop_last(),
        ));
    }
}

/// Law: unapplying an applied batch restores the slot contents
/// exactly; each move is its own inverse and the batch is undone in
/// reverse order.
pub proof fn lemma_unapply_apply(s: Seq<Option<Id>>, ms: Seq<Move>)
    requires
        spec_moves_in_bounds(ms, s.len() as int),
    ensures
        spec_unapply_moves(spec_apply_moves(s, ms), ms) == s,
    decreases ms.len(),
{
    if ms.len() > 0 {
        let m = ms[0];
        let s1 = spec_swap(s, m.a as int, m.b as int);
        let rest = ms.drop_first();
        assert(spec_moves_in_bounds(rest, s1.len() as int));
        lemma_unapply_apply(s1, rest);
        lemma_apply_moves_len(s1, rest);
        lemma_unapply_moves_first(spec_apply_moves(s1, rest), ms);
        lemma_swap_self_inverse(s, m.a as int, m.b as int);
    }
}

impl Move {
    /// A move of seat `a`'s contents to seat `b` and back; validity
    /// against a layout is the caller's affair.
    pub fn new(a: usize, b: usize) -> (m: Move)
        ensures
            m.a == a,
            m.b == b,
    {
        Move { a, b }
    }

    /// Draw a random move between two different tables: the first
    /// seat uniformly over all seats, the second uniformly over the
    /// seats of every other table.
    pub fn random(seats: &Seats) -> (m: Move)
        requires
            seats.wf(),
            seats.spec_tables().spec_multi_table(),
        ensures
            spec_move_valid(m, seats.spec_tables()),
    {
        let len = seats.len();
        let a = rand_below(len as u64) as usize;
        let r = seats.indexes_on_table_with_index(a);
        proof {
            lemma_coverage_exists(seats.spec_tables()@, a as int);
            crate::tables::lemma_range_in_total(
                seats.spec_tables()@,
                seats.spec_tables().spec_table_index_of(a as int),
            );
        }
        let table_size = r.end - r.start;
        let outside = len - table_size;
        let k = rand_below(outside as u64) as usize;
        let b = if k < r.start {
            k
        } else {
            k + table_size
        };
        Move { a, b }
    }

    /// Apply the move: exchange the two slots.
    pub fn apply(&self, seats: &mut Seats)
        requires
            self.a < old(seats)@.len(),
            self.b < old(seats)@.len(),
        ensures
            final(seats)@ == spec_swap(old(seats)@, self.a as int, self.b as int),
            final(seats).spec_tables() == old(seats).spec_tables(),
    {
        seats.swap(self.a, self.b);
    }

    /// Try the move and report the marginal cost of its two seats in
    /// the mutated arrangement; the move is applied a second time on
    /// the way out, so the assignment comes back unchanged.
    pub fn cost_of_move<S: PairScorer>(&self, seats: &mut Seats, cost: &Cost<S>) -> (c: i64)
        requires
            old(seats).wf(),
            old(seats)@.len() <= MAX_SEATS,
            self.a < old(seats)@.len(),
            self.b < old(seats)@.len(),
        ensures
            final(seats)@ == old(seats)@,
            final(seats).spec_tables() == old(seats).spec_tables(),
            ({
                let trial = spec_swap(old(seats)@, self.a as int, self.b as int);
                let t = old(seats).spec_tables();
                c == spec_individual_of(cost.spec_scorer(), trial, t, self.a as int)
                    + spec_individual_of(cost.spec_scorer(), trial, t, self.b as int)
            }),
    {
        self.apply(seats);
        let ca = cost.individual_cost(seats, self.a);
        let cb = cost.individual_cost(seats, self.b);
        proof {
            let t = seats.spec_tables();
            lemma_individual_cost_bounded(cost.spec_scorer(), seats@, t, self.a as int);
            lemma_individual_cost_bounded(cost.spec_scorer(), seats@, t, self.b as int);
        }
        let after = ca + cb;
        self.apply(seats);
        proof {
            lemma_swap_self_inverse(old(seats)@, self.a as int, self.b as int);
        }
        after
    }
}

/// A batch of moves, applied in order and reverted in reverse
/// order.
#[derive(Debug)]
pub struct Moves {
    moves: Vec<Move>,
}

impl View for Moves {
    type V = Seq<Move>;

    closed spec fn view(&self) -> Seq<Move> {
        self.moves@
    }
}

impl Moves {
    /// Wrap an explicit batch of moves.
    pub fn from_vec(moves: Vec<Move>) -> (ms: Moves)
        ensures
            ms@ == moves@,
    {
        Moves { moves }
    }

    /// Draw a batch of `count` random cross-table moves.
    pub fn random(seats: &Seats, count: usize) -> (ms: Moves)
        requires
            seats.wf(),
            seats.spec_tables().spec_multi_table(),
        ensures
            ms@.len() == count,
            spec_moves_valid(ms@, seats.spec_tables()),
    {
        let mut moves: Vec<Move> = Vec::new();
        for i in 0..count
            invariant
                seats.wf(),
                seats.spec_tables().spec_multi_table(),
                moves@.len() == i,
                spec_moves_valid(moves@, seats.spec_tables()),
        {
            moves.push(Move::random(seats));
        }
        Moves { moves }
    }

    /// Apply all moves, first to last.
    pub fn apply(&self, seats: &mut Seats)
        requires
            spec_moves_in_bounds(self@, old(seats)@.len() as int),
        ensures
            final(seats)@ == spec_apply_moves(old(seats)@, self@),
            final(seats).spec_tables() == old(seats).spec_tables(),
    {
        let n = self.moves.len();
        for i in 0..n
            invariant
                n == self@.len(),
                spec_moves_in_bounds(self@, old(seats)@.len() as int),
                seats@.len() == old(seats)@.len(),
                seats@ == spec_apply_moves(old(seats)@, self@.take(i as int)),
                seats.spec_tables() == old(seats).spec_tables(),
        {
            let m = self.moves[i];
            m.apply(seats);
            proof {
                lemma_apply_moves_push(old(seats)@, self@.take(i as int), m);
                assert(self@.take(i as int).push(m) =~= self@.take(i + 1));
            }
        }
        proof {
            assert(self@.take(n as int) =~= self@);
        }
    }

    /// Revert all moves, last to first.
    pub fn unapply(&self, seats: &mut Seats)
        requires
            spec_moves_in_bounds(self@, old(seats)@.len() as int),
        ensures
            final(seats)@ == spec_unapply_moves(old(seats)@, self@),
            final(seats).spec_tables() == old(seats).spec_tables(),
    {
        let mut i = self.moves.len();
        while i > 0
            invariant
                i <= self@.len(),
                spec_moves_in_bounds(self@, old(seats)@.len() as int),
                seats@.len() == old(seats)@.len(),
                seats@ == spec_unapply_moves(old(seats)@, self@.skip(i as int)),
                seats.spec_tables() == old(seats).spec_tables(),
            decreases i,
        {
            i = i - 1;
            let m = self.moves[i];
            m.apply(seats);
            proof {
                lemma_unapply_moves_first(old(seats)@, self@.skip(i as int));
                assert(self@.skip(i as int).drop_first() =~= self@.skip(i + 1));
                assert(self@.skip(i as int)[0] == self@[i as int]);
            }
        }
        proof {
            assert(self@.skip(0) =~= self@);
        }
    }

    /// Try the batch: apply it, take the total cost of the mutated
    /// assignment, and revert; the assignment comes back unchanged
    /// and the result is the cost the batch would bring about.
    pub fn cost_of_moves<S: PairScorer>(&self, seats: &mut Seats, cost: &Cost<S>) -> (c: i64)
        requires
            old(seats).wf(),
            old(seats)@.len() <= MAX_SEATS,
            spec_moves_in_bounds(self@, old(seats)@.len() as int),
        ensures
            final(seats)@ == old(seats)@,
            final(seats).spec_tables() == old(seats).spec_tables(),
            c == spec_cost_of(
                cost.spec_scorer(),
                spec_apply_moves(old(seats)@, self@),
                old(seats).spec_tables()@,
            ),
    {
        self.apply(seats);
        proof {
            lemma_apply_moves_len(old(seats)@, self@);
        }
        let c = cost.total_cost(seats);
        self.unapply(seats);
        proof {
            lemma_unapply_apply(old(seats)@, self@);
        }
        c
    }
}

/// The local search engine: the live assignment, its cached cost,
/// and the acceptance temperature.
pub struct Search<S> {
    cost: Cost<S>,
    current: Seats,
    current_cost: i64,
    temperature: u64,
}

impl<S: PairScorer> Search<S> {
    /// The scorer the engine evaluates against.
    pub closed spec fn spec_scorer(&self) -> S {
        self.cost.spec_scorer()
    }

    /// The live assignment.
    pub closed spec fn spec_current(&self) -> Seats {
        self.current
    }

    /// The cached cost of the live assignment.
    pub closed spec fn spec_cost(&self) -> i64 {
        self.current_cost
    }

    /// The acceptance temperature, in `TEMP_RISE` units.
    pub closed spec fn spec_temperature(&self) -> u64 {
        self.temperature
    }

    /// The engine's invariant: the assignment is well formed, small
    /// enough for the evaluator, spans at least two tables, and the
    /// cached cost is exactly the cost of the live assignment.
    pub open spec fn wf(&self) -> bool {
        &&& self.spec_current().wf()
        &&& self.spec_current()@.len() <= MAX_SEATS
        &&& self.spec_current().spec_tables().spec_multi_table()
        &&& self.spec_cost() as int == spec_cost_of(
            self.spec_scorer(),
            self.spec_current()@,
            self.spec_current().spec_tables()@,
        )
    }

    /// Start a search on an initial assignment: the cost is computed
    /// once and cached, and the temperature starts at 0.
    pub fn new(seats: Seats, scorer: S) -> (r: Search<S>)
        requires
            seats.wf(),
            seats@.len() <= MAX_SEATS,
            seats.spec_tables().spec_multi_table(),
        ensures
            r.wf(),
            r.spec_current()@ == seats@,
            r.spec_current().spec_tables() == seats.spec_tables(),
            r.spec_scorer() == scorer,
            r.spec_cost() as int == spec_cost_of(scorer, seats@, seats.spec_tables()@),
            r.spec_temperature() == 0,
    {
        let cost = Cost::new(scorer);
        let current_cost = cost.total_cost(&seats);
        Search { cost, current: seats, current_cost, temperature: 0 }
    }

    /// What one deterministic step does, given the drawn move batch
    /// and the drawn acceptance value: the trial assignment is the
    /// batch applied to the current one; it is accepted if it costs
    /// less, or if the draw falls below the temperature.  Acceptance
    /// keeps the trial and cools by `TEMP_DROP`, floored at 0;
    /// rejection keeps everything and warms by `TEMP_RISE`.
    pub open spec fn spec_step_outcome(pre: Search<S>, post: Search<S>, ms: Seq<Move>, draw: u64) -> bool {
        let trial = spec_apply_moves(pre.spec_current()@, ms);
        let tc = spec_cost_of(pre.spec_scorer(), trial, pre.spec_current().spec_tables()@);
        let accept = tc < pre.spec_cost() as int || draw < pre.spec_temperature();
        &&& post.spec_current().spec_tables() == pre.spec_current().spec_tables()
        &&& post.spec_scorer() == pre.spec_scorer()
        &&& if accept {
            &&& post.spec_current()@ == trial
            &&& post.spec_cost() as int == tc
            &&& post.spec_temperature() == if pre.spec_temperature() >= TEMP_DROP {
                (pre.spec_temperature() - TEMP_DROP) as u64
            } else {
                0u64
            }
        } else {
            &&& post.spec_current()@ == pre.spec_current()@
            &&& post.spec_cost() == pre.spec_cost()
            &&& post.spec_temperature() == if pre.spec_temperature() <= u64::MAX - TEMP_RISE {
                (pre.spec_temperature() + TEMP_RISE) as u64
            } else {
                u64::MAX
            }
        }
    }

    /// One step of the search with the randomness handed in: fully
    /// deterministic, so a fixed draw sequence reproduces the same
    /// accept-or-reject decisions and costs.
    pub fn step_with(&mut self, moves: &Moves, draw: u64)
        requires
            old(self).wf(),
            spec_moves_valid(moves@, old(self).spec_current().spec_tables()),
        ensures
            final(self).wf(),
            Self::spec_step_outcome(*old(self), *final(self), moves@, draw),
    {
        proof {
            assert forall|i: int| 0 <= i < moves@.len() implies (#[trigger] moves@[i]).a
                < self.spec_current()@.len() && moves@[i].b < self.spec_current()@.len() by {
                assert(spec_move_valid(moves@[i], self.spec_current().spec_tables()));
            }
        }
        let c = moves.cost_of_moves(&mut self.current, &self.cost);
        if c < self.current_cost || draw < self.temperature {
            moves.apply(&mut self.current);
            self.current_cost = c;
            self.temperature = if self.temperature >= TEMP_DROP {
                self.temperature - TEMP_DROP
            } else {
                0
            };
            proof {
                lemma_apply_moves_len(old(self).spec_current()@, moves@);
            }
        } else {
            self.temperature = if self.temperature <= u64::MAX - TEMP_RISE {
                self.temperature + TEMP_RISE
            } else {
                u64::MAX
            };
        }
    }

    /// One step of the search: draw a batch of one to four random
    /// cross-table moves and an acceptance value, and take the
    /// deterministic step they determine.
    pub fn step(&mut self)
        requires
            old(self).wf(),
        ensures
            final(self).wf(),
            exists|ms: Seq<Move>, draw: u64|
                {
                    &&& #[trigger] Self::spec_step_outcome(*old(self), *final(self), ms, draw)
                    &&& spec_moves_valid(ms, old(self).spec_current().spec_tables())
                    &&& 1 <= ms.len() <= 4
                    &&& draw < TEMP_SCALE
                },
    {
        let n = (rand_below(4) + 1) as usize;
        let moves = Moves::random(&self.current, n);
        let draw = rand_below(TEMP_SCALE);
        self.step_with(&moves, draw);
        proof {
            let ms = moves@;
            assert(Self::spec_step_outcome(*old(self), *self, ms, draw)
                && spec_moves_valid(ms, old(self).spec_current().spec_tables()) && 1 <= ms.len()
                <= 4 && draw < TEMP_SCALE);
        }
    }

    /// A read reference to the live assignment.  The engine keeps no
    /// best-ever snapshot: a caller wanting the best seen over many
    /// steps snapshots whenever `cost()` improves.
    pub fn best(&self) -> (r: &Seats)
        ensures
            *r == self.spec_current(),
    {
        &self.current
    }

    /// The cached cost of the live assignment, with no
    /// recomputation.
    pub fn cost(&self) -> (c: i64)
        ensures
            c == self.spec_cost(),
    {
        self.current_cost
    }

    /// The acceptance temperature, in `TEMP_RISE` units.
    pub fn temperature(&self) -> (t: u64)
        ensures
            t == self.spec_temperature(),
    {
        self.temperature
    }
}

/// Law: the temperature never falls below zero.  An accepted step
/// cools by `TEMP_DROP` but is clamped at zero; a rejected step
/// warms, so from temperature zero any run of rejections leaves it
/// non-negative and an acceptance returns it to exactly zero or
/// above.
pub proof fn lemma_temperature_floor<S: PairScorer>(
    pre: Search<S>,
    post: Search<S>,
    ms: Seq<Move>,
    draw: u64,
)
    requires
        Search::spec_step_outcome(pre, post, ms, draw),
    ensures
        post.spec_temperature() >= 0,
        post.spec_temperature() < pre.spec_temperature() ==> pre.spec_temperature()
            >= post.spec_temperature() >= pre.spec_temperature() - TEMP_DROP,
{
}

} // verus!
