//! The cost evaluator: sums pairwise affinity scores over the
//! tablemates of each table, for a whole assignment or for one seat.

use vstd::prelude::*;
use crate::ids::{Id, Scores};
use crate::tables::{ranges_wf, spec_total, lemma_range_in_total, SeatRange, Seats};

verus! {

/// The most seats an assignment handled by the evaluator may have;
/// keeps every partial cost sum comfortably inside an `i64`.
pub const MAX_SEATS: usize = 16384;

/// A symmetric pairwise scoring capability: the evaluator and the
/// search engine see affinities only through this trait, staying
/// decoupled from how the scores are stored.
pub trait PairScorer: Sized {
    /// The score this scorer gives to the unordered pair `{a, b}`;
    /// absence means neutral.
    spec fn score_spec(self, a: Id, b: Id) -> Option<i32>;

    /// The scoring is symmetric in its two arguments.
    proof fn lemma_symmetric(&self, a: Id, b: Id)
        ensures
            self.score_spec(a, b) == self.score_spec(b, a),
    ;

    /// Score the pair `{a, b}`.
    fn score(&self, a: Id, b: Id) -> (r: Option<i32>)
        ensures
            r == self.score_spec(a, b),
    ;
}

impl PairScorer for Scores {
    open spec fn score_spec(self, a: Id, b: Id) -> Option<i32> {
        self.spec_score(a, b)
    }

    proof fn lemma_symmetric(&self, a: Id, b: Id) {
        crate::ids::lemma_score_symmetric(*self, a, b);
    }

    fn score(&self, a: Id, b: Id) -> (r: Option<i32>) {
        self.get_score(a, b)
    }
}

/// The cost two slots contribute to their shared table: the score of
/// their occupants, or 0 if either slot is empty or the pair is
/// unscored.
pub open spec fn spec_score_or_zero<S: PairScorer>(sc: S, x: Option<Id>, y: Option<Id>) -> int {
    match (x, y) {
        (Some(a), Some(b)) => match sc.score_spec(a, b) {
            Some(v) => v as int,
            None => 0,
        },
        _ => 0,
    }
}

/// The cost seat `i` accrues against seats `[j, end)`.
pub open spec fn spec_seat_vs_rest<S: PairScorer>(
    sc: S,
    s: Seq<Option<Id>>,
    i: int,
    j: int,
    end: int,
) -> int
    decreases end - j,
{
    if j >= end {
        0
    } else {
        spec_score_or_zero(sc, s[i], s[j]) + spec_seat_vs_rest(sc, s, i, j + 1, end)
    }
}

/// The cost of all unordered pairs within seats `[i, end)`, each
/// pair counted exactly once.
pub open spec fn spec_pairs_cost<S: PairScorer>(
    sc: S,
    s: Seq<Option<Id>>,
    i: int,
    end: int,
) -> int
    decreases end - i,
{
    if i >= end {
        0
    } else {
        spec_seat_vs_rest(sc, s, i, i + 1, end) + spec_pairs_cost(sc, s, i + 1, end)
    }
}

/// The summed pair cost of the tables from index `k` on.
pub open spec fn spec_tables_cost<S: PairScorer>(
    sc: S,
    s: Seq<Option<Id>>,
    rs: Seq<SeatRange>,
    k: int,
) -> int
    decreases rs.len() - k,
{
    if k < 0 || k >= rs.len() {
        0
    } else {
        spec_pairs_cost(sc, s, rs[k].start as int, rs[k].end as int) + spec_tables_cost(
            sc,
            s,
            rs,
            k + 1,
        )
    }
}

/// The total cost of slot contents `s` under layout `rs`.
pub open spec fn spec_cost_of<S: PairScorer>(
    sc: S,
    s: Seq<Option<Id>>,
    rs: Seq<SeatRange>,
) -> int {
    spec_tables_cost(sc, s, rs, 0)
}

/// The total cost of an assignment: over every table, the scores of
/// all unordered pairs of occupied seats.
pub open spec fn spec_total_cost<S: PairScorer>(sc: S, seats: &Seats) -> int {
    spec_cost_of(sc, seats@, seats.spec_tables()@)
}

/// The cost seat `i` accrues against every other seat of `[j, end)`,
/// skipping `i` itself.
pub open spec fn spec_seat_cost_excl<S: PairScorer>(
    sc: S,
    s: Seq<Option<Id>>,
    i: int,
    j: int,
    end: int,
) -> int
    decreases end - j,
{
    if j >= end {
        0
    } else {
        (if j == i {
            0
        } else {
            spec_score_or_zero(sc, s[i], s[j])
        }) + spec_seat_cost_excl(sc, s, i, j + 1, end)
    }
}

/// The marginal cost of seat `i` of slot contents `s` against its
/// tablemates under layout `t`.
pub open spec fn spec_individual_of<S: PairScorer>(
    sc: S,
    s: Seq<Option<Id>>,
    t: crate::tables::Tables,
    i: int,
) -> int {
    let r = t.spec_table_of(i);
    spec_seat_cost_excl(sc, s, i, r.start as int, r.end as int)
}

/// The marginal cost of seat `i` against its tablemates.
pub open spec fn spec_individual_cost<S: PairScorer>(sc: S, seats: &Seats, i: int) -> int {
    spec_individual_of(sc, seats@, seats.spec_tables(), i)
}

/// The marginal cost of one seat is at most one full row of maximal
/// scores in either direction.
pub proof fn lemma_individual_cost_bounded<S: PairScorer>(
    sc: S,
    s: Seq<Option<Id>>,
    t: crate::tables::Tables,
    i: int,
)
    requires
        t.wf(),
        0 <= i < t.spec_seat_count(),
        t.spec_seat_count() <= MAX_SEATS,
    ensures
        -(16384 * 0x8000_0000) <= spec_individual_of(sc, s, t, i) <= 16384 * 0x8000_0000,
{
    crate::tables::lemma_coverage_exists(t@, i);
    let k = t.spec_table_index_of(i);
    lemma_range_in_total(t@, k);
    let r = t.spec_table_of(i);
    lemma_seat_cost_excl_bound(sc, s, i, r.start as int, r.end as int);
}

proof fn lemma_seat_vs_rest_bound<S: PairScorer>(
    sc: S,
    s: Seq<Option<Id>>,
    i: int,
    j: int,
    end: int,
)
    requires
        j <= end,
    ensures
        -((end - j) * 0x8000_0000) <= spec_seat_vs_rest(sc, s, i, j, end) <= (end - j)
            * 0x8000_0000,
    decreases end - j,
{
    if j < end {
        lemma_seat_vs_rest_bound(sc, s, i, j + 1, end);
    }
}

proof fn lemma_seat_cost_excl_bound<S: PairScorer>(
    sc: S,
    s: Seq<Option<Id>>,
    i: int,
    j: int,
    end: int,
)
    requires
        j <= end,
    ensures
        -((end - j) * 0x8000_0000) <= spec_seat_cost_excl(sc, s, i, j, end) <= (end - j)
            * 0x8000_0000,
    decreases end - j,
{
    if j < end {
        lemma_seat_cost_excl_bound(sc, s, i, j + 1, end);
    }
}

proof fn lemma_pairs_cost_bound<S: PairScorer>(sc: S, s: Seq<Option<Id>>, i: int, end: int)
    requires
        i <= end,
    ensures
        -((end - i) * (end - i) * 0x8000_0000) <= spec_pairs_cost(sc, s, i, end) <= (end - i) * (
        end - i) * 0x8000_0000,
    decreases end - i,
{
    if i < end {
        lemma_seat_vs_rest_bound(sc, s, i, i + 1, end);
        lemma_pairs_cost_bound(sc, s, i + 1, end);
        let d = end - i;
        assert((d - 1) + (d - 1) * (d - 1) <= d * d) by (nonlinear_arith)
            requires
                d >= 1,
        {
        }
        assert(((d - 1) + (d - 1) * (d - 1)) * 0x8000_0000 <= d * d * 0x8000_0000);
    }
}

/// The seats of a layout still to be visited from table `k` on: the
/// whole capacity past the `k`-th table's start.
spec fn spec_rest_width(rs: Seq<SeatRange>, k: int) -> int {
    if 0 <= k < rs.len() {
        spec_total(rs) - rs[k].start
    } else {
        0
    }
}

proof fn lemma_tables_cost_bound<S: PairScorer>(
    sc: S,
    s: Seq<Option<Id>>,
    rs: Seq<SeatRange>,
    k: int,
)
    requires
        ranges_wf(rs),
        0 <= k,
    ensures
        -(spec_rest_width(rs, k) * spec_rest_width(rs, k) * 0x8000_0000) <= spec_tables_cost(
            sc,
            s,
            rs,
            k,
        ) <= spec_rest_width(rs, k) * spec_rest_width(rs, k) * 0x8000_0000,
        spec_rest_width(rs, k) >= 0,
    decreases rs.len() - k,
{
    if k >= rs.len() {
    } else {
        lemma_range_in_total(rs, k);
        lemma_pairs_cost_bound(sc, s, rs[k].start as int, rs[k].end as int);
        lemma_tables_cost_bound(sc, s, rs, k + 1);
        let a = rs[k].end - rs[k].start;
        let b = spec_rest_width(rs, k + 1);
        let w = spec_rest_width(rs, k);
        assert(b <= spec_total(rs) - rs[k].end);
        assert(a * a * 0x8000_0000 + b * b * 0x8000_0000 <= w * w * 0x8000_0000)
            by (nonlinear_arith)
            requires
                a >= 0,
                b >= 0,
                w >= a + b,
        {
        }
    }
}

/// Evaluates assignments against a symmetric pairwise scorer.
pub struct Cost<S> {
    scorer: S,
}

impl<S: PairScorer> Cost<S> {
    pub closed spec fn spec_scorer(&self) -> S {
        self.scorer
    }

    pub fn new(scorer: S) -> (c: Cost<S>)
        ensures
            c.spec_scorer() == scorer,
    {
        Cost { scorer }
    }

    /// The total cost of the assignment: for every table, the sum of
    /// scores over every unordered pair of occupied seats, counted
    /// once.  Tables with fewer than two occupants contribute 0.
    pub fn total_cost(&self, seats: &Seats) -> (c: i64)
        requires
            seats.wf(),
            seats@.len() <= MAX_SEATS,
        ensures
            c == spec_total_cost(self.spec_scorer(), seats),
    {
        let ghost sc = self.scorer;
        let ghost s = seats@;
        let ghost rs = seats.spec_tables()@;
        let ranges = seats.indexes_on_each_table();
        let nt = ranges.len();
        let mut acc: i64 = 0;
        proof {
            lemma_tables_cost_bound(sc, s, rs, 0);
        }
        for k in 0..nt
            invariant
                seats.wf(),
                s == seats@,
                rs == seats.spec_tables()@,
                s.len() <= MAX_SEATS,
                sc == self.spec_scorer(),
                ranges@ == rs,
                nt == rs.len(),
                acc == spec_tables_cost(sc, s, rs, 0) - spec_tables_cost(sc, s, rs, k as int),
        {
            let r = ranges[k];
            proof {
                lemma_range_in_total(rs, k as int);
            }
            for i in r.start..r.end
                invariant
                    seats.wf(),
                    s == seats@,
                    rs == seats.spec_tables()@,
                    s.len() <= MAX_SEATS,
                    sc == self.spec_scorer(),
                    ranges@ == rs,
                    nt == rs.len(),
                    k < nt,
                    r == rs[k as int],
                    r.start <= r.end <= s.len(),
                    acc == spec_tables_cost(sc, s, rs, 0) - (spec_pairs_cost(
                        sc,
                        s,
                        i as int,
                        r.end as int,
                    ) + spec_tables_cost(sc, s, rs, k + 1)),
            {
                for j in (i + 1)..r.end
                    invariant
                        seats.wf(),
                        s == seats@,
                        rs == seats.spec_tables()@,
                        s.len() <= MAX_SEATS,
                        sc == self.spec_scorer(),
                        ranges@ == rs,
                        nt == rs.len(),
                        k < nt,
                        r == rs[k as int],
                        r.start <= i < r.end <= s.len(),
                        acc == spec_tables_cost(sc, s, rs, 0) - (spec_seat_vs_rest(
                            sc,
                            s,
                            i as int,
                            j as int,
                            r.end as int,
                        ) + spec_pairs_cost(sc, s, i + 1, r.end as int) + spec_tables_cost(
                            sc,
                            s,
                            rs,
                            k + 1,
                        )),
                {
                    let x: i32 = match (seats.get(i), seats.get(j)) {
                        (Some(a), Some(b)) => match self.scorer.score(a, b) {
                            Some(v) => v,
                            None => 0,
                        },
                        _ => 0,
                    };
                    proof {
                        assert(x as int == spec_score_or_zero(sc, s[i as int], s[j as int]));
                        lemma_tables_cost_bound(sc, s, rs, 0);
                        lemma_tables_cost_bound(sc, s, rs, k + 1);
                        lemma_seat_vs_rest_bound(sc, s, i as int, j + 1, r.end as int);
                        lemma_pairs_cost_bound(sc, s, i + 1, r.end as int);
                        let l = s.len() as int;
                        let w0 = spec_rest_width(rs, 0);
                        let wk = spec_rest_width(rs, k + 1);
                        let dp = r.end - (i + 1);
                        assert(w0 <= l && wk <= l && dp <= l);
                        assert(w0 * w0 <= 16384 * 16384) by (nonlinear_arith)
                            requires
                                0 <= w0 <= 16384,
                        {
                        }
                        assert(wk * wk <= 16384 * 16384) by (nonlinear_arith)
                            requires
                                0 <= wk <= 16384,
                        {
                        }
                        assert(dp * dp <= 16384 * 16384) by (nonlinear_arith)
                            requires
                                0 <= dp <= 16384,
                        {
                        }
                    }
                    acc = acc + x as i64;
                }
            }
        }
        acc
    }

    /// The cost of the one seat at `index` against each of its
    /// tablemates, skipping itself and empty slots on either side.
    pub fn individual_cost(&self, seats: &Seats, index: usize) -> (c: i64)
        requires
            seats.wf(),
            seats@.len() <= MAX_SEATS,
            index < seats@.len(),
        ensures
            c == spec_individual_cost(self.spec_scorer(), seats, index as int),
    {
        let ghost sc = self.scorer;
        let ghost s = seats@;
        let r = seats.indexes_on_table_with_index(index);
        proof {
            crate::tables::lemma_coverage_exists(seats.spec_tables()@, index as int);
            crate::tables::lemma_range_in_total(
                seats.spec_tables()@,
                seats.spec_tables().spec_table_index_of(index as int),
            );
        }
        let mut acc: i64 = 0;
        for j in r.start..r.end
            invariant
                seats.wf(),
                s == seats@,
                s.len() <= MAX_SEATS,
                sc == self.spec_scorer(),
                index < s.len(),
                r == seats.spec_tables().spec_table_of(index as int),
                r.start <= r.end <= s.len(),
                acc == spec_seat_cost_excl(sc, s, index as int, r.start as int, r.end as int)
                    - spec_seat_cost_excl(sc, s, index as int, j as int, r.end as int),
        {
            let x: i32 = if j == index {
                0
            } else {
                match (seats.get(index), seats.get(j)) {
                    (Some(a), Some(b)) => match self.scorer.score(a, b) {
                        Some(v) => v,
                        None => 0,
                    },
                    _ => 0,
                }
            };
            proof {
                lemma_seat_cost_excl_bound(sc, s, index as int, r.start as int, r.end as int);
                lemma_seat_cost_excl_bound(sc, s, index as int, j + 1, r.end as int);
            }
            acc = acc + x as i64;
        }
        acc
    }
}

/// Law: an assignment with every seat empty costs 0, whatever the
/// affinity table says.
pub proof fn lemma_all_empty_cost_zero<S: PairScorer>(sc: S, seats: &Seats)
    requires
        seats.wf(),
        forall|i: int| 0 <= i < seats@.len() ==> seats@[i] is None,
    ensures
        spec_total_cost(sc, seats) == 0,
{
    lemma_tables_cost_empty(sc, seats@, seats.spec_tables()@, 0);
}

proof fn lemma_seat_vs_rest_empty<S: PairScorer>(
    sc: S,
    s: Seq<Option<Id>>,
    i: int,
    j: int,
    end: int,
)
    requires
        0 <= j,
        end <= s.len(),
        forall|m: int| 0 <= m < s.len() ==> s[m] is None,
    ensures
        spec_seat_vs_rest(sc, s, i, j, end) == 0,
    decreases end - j,
{
    if j < end {
        lemma_seat_vs_rest_empty(sc, s, i, j + 1, end);
    }
}

proof fn lemma_pairs_cost_empty<S: PairScorer>(sc: S, s: Seq<Option<Id>>, i: int, end: int)
    requires
        0 <= i,
        end <= s.len(),
        forall|m: int| 0 <= m < s.len() ==> s[m] is None,
    ensures
        spec_pairs_cost(sc, s, i, end) == 0,
    decreases end - i,
{
    if i < end {
        lemma_seat_vs_rest_empty(sc, s, i, i + 1, end);
        lemma_pairs_cost_empty(sc, s, i + 1, end);
    }
}

proof fn lemma_tables_cost_empty<S: PairScorer>(
    sc: S,
    s: Seq<Option<Id>>,
    rs: Seq<SeatRange>,
    k: int,
)
    requires
        ranges_wf(rs),
        spec_total(rs) <= s.len(),
        forall|m: int| 0 <= m < s.len() ==> s[m] is None,
    ensures
        spec_tables_cost(sc, s, rs, k) == 0,
    decreases rs.len() - k,
{
    if 0 <= k < rs.len() {
        lemma_range_in_total(rs, k);
        lemma_pairs_cost_empty(sc, s, rs[k].start as int, rs[k].end as int);
        lemma_tables_cost_empty(sc, s, rs, k + 1);
    }
}

} // verus!
