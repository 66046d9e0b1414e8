//! The fixed partition of seat indices into contiguous per-table
//! ranges, and the mutable assignment of people to those seats.

use vstd::prelude::*;
use crate::ids::Id;
use crate::parse::{parse_usize, spec_all_digits, spec_digits_value};

verus! {

/// A half-open range of seat indices `[start, end)` owned by one
/// table.
#[derive(Debug, Clone, Copy, PartialEq, Eq, Structural)]
pub struct SeatRange {
    pub start: usize,
    pub end: usize,
}

/// Whether seat index `i` lies on the table owning range `r`.
pub open spec fn range_contains(r: SeatRange, i: int) -> bool {
    r.start <= i < r.end
}

/// How many seats range `r` spans.
pub open spec fn spec_size(r: SeatRange) -> int {
    r.end - r.start
}

/// The ranges tile the seat indices: each is non-empty or degenerate
/// but never reversed, the first starts at 0, and each later one
/// starts where its predecessor ends.
pub open spec fn ranges_wf(rs: Seq<SeatRange>) -> bool {
    &&& forall|k: int| 0 <= k < rs.len() ==> (#[trigger] rs[k]).start <= rs[k].end
    &&& forall|k1: int, k2: int|
        #![trigger rs[k1], rs[k2]]
        0 <= k1 < rs.len() && k2 == k1 + 1 && k2 < rs.len() ==> rs[k1].end == rs[k2].start
    &&& (rs.len() > 0 ==> rs[0].start == 0)
}

/// The total seat capacity: the end of the last range.
pub open spec fn spec_total(rs: Seq<SeatRange>) -> int {
    if rs.len() == 0 {
        0
    } else {
        rs[rs.len() - 1].end as int
    }
}

/// In a well-formed tiling an earlier range ends no later than a
/// later one starts.
pub proof fn lemma_range_order(rs: Seq<SeatRange>, i: int, j: int)
    requires
        ranges_wf(rs),
        0 <= i < j < rs.len(),
    ensures
        rs[i].end <= rs[j].start,
    decreases j - i,
{
    if j == i + 1 {
    } else {
        lemma_range_order(rs, i, j - 1);
    }
}

/// Every range of a well-formed tiling lies inside the capacity.
pub proof fn lemma_range_in_total(rs: Seq<SeatRange>, k: int)
    requires
        ranges_wf(rs),
        0 <= k < rs.len(),
    ensures
        0 <= rs[k].start,
        rs[k].end <= spec_total(rs),
{
    if k < rs.len() - 1 {
        lemma_range_order(rs, k, rs.len() - 1);
    }
}

/// Every seat index below the capacity lies in some range.
pub proof fn lemma_coverage_exists(rs: Seq<SeatRange>, x: int)
    requires
        ranges_wf(rs),
        0 <= x < spec_total(rs),
    ensures
        exists|k: int| 0 <= k < rs.len() && range_contains(#[trigger] rs[k], x),
    decreases rs.len(),
{
    let n = rs.len();
    if x >= rs[n - 1].start {
        assert(range_contains(rs[n - 1], x));
    } else {
        let sub = rs.drop_last();
        assert(ranges_wf(sub));
        assert(spec_total(sub) == rs[n - 1].start);
        lemma_coverage_exists(sub, x);
        let k = choose|k: int| 0 <= k < sub.len() && range_contains(#[trigger] sub[k], x);
        assert(range_contains(rs[k], x));
    }
}

/// No seat index lies in two ranges.
pub proof fn lemma_coverage_unique(rs: Seq<SeatRange>, k1: int, k2: int, x: int)
    requires
        ranges_wf(rs),
        0 <= k1 < rs.len(),
        0 <= k2 < rs.len(),
        range_contains(rs[k1], x),
        range_contains(rs[k2], x),
    ensures
        k1 == k2,
{
    if k1 < k2 {
        lemma_range_order(rs, k1, k2);
    }
    if k2 < k1 {
        lemma_range_order(rs, k2, k1);
    }
}

/// An ordered collection of tables, each owning a contiguous range
/// of seat indices.  Immutable once built.
#[derive(Debug, PartialEq, Eq)]
pub struct Tables {
    seats: Vec<SeatRange>,
}

impl View for Tables {
    type V = Seq<SeatRange>;

    closed spec fn view(&self) -> Seq<SeatRange> {
        self.seats@
    }
}

impl Tables {
    pub open spec fn wf(&self) -> bool {
        ranges_wf(self@)
    }

    pub open spec fn spec_seat_count(&self) -> int {
        spec_total(self@)
    }

    /// The index of the table whose range holds seat `i`; meaningful
    /// whenever `0 <= i < spec_seat_count()`.
    pub open spec fn spec_table_index_of(&self, i: int) -> int {
        choose|k: int| 0 <= k < self@.len() && range_contains(#[trigger] self@[k], i)
    }

    /// The range of the table whose range holds seat `i`.
    pub open spec fn spec_table_of(&self, i: int) -> SeatRange {
        self@[self.spec_table_index_of(i)]
    }

    /// A layout can host moves between tables only if it has seats
    /// and no single table owns them all.
    pub open spec fn spec_multi_table(&self) -> bool {
        &&& self.spec_seat_count() > 0
        &&& forall|k: int|
            0 <= k < self@.len() ==> spec_size(#[trigger] self@[k]) < self.spec_seat_count()
    }

    /// Expand a table specification into a layout: each line
    /// contributes its number of tables, in order, laid end to end
    /// from seat index 0.  Yields nothing only when the seats do not
    /// fit in a `usize`.
    pub fn from_specs(specs: &Vec<TableSpec>) -> (r: Option<Tables>)
        ensures
            match r {
                Some(t) => {
                    &&& t.wf()
                    &&& t@.len() == spec_table_count(specs@)
                    &&& forall|k: int|
                        0 <= k < t@.len() ==> spec_size(#[trigger] t@[k]) == spec_seats_at(
                            specs@,
                            k,
                        )
                    &&& t.spec_seat_count() == spec_total_seats(specs@)
                },
                None => spec_total_seats(specs@) > usize::MAX,
            },
    {
        let mut seats: Vec<SeatRange> = Vec::new();
        let mut last: usize = 0;
        let n = specs.len();
        for si in 0..n
            invariant
                n == specs@.len(),
                ranges_wf(seats@),
                last == spec_total(seats@),
                seats@.len() == spec_table_count(specs@.take(si as int)),
                last == spec_total_seats(specs@.take(si as int)),
                forall|k: int|
                    0 <= k < seats@.len() ==> spec_size(#[trigger] seats@[k]) == spec_seats_at(
                        specs@,
                        k,
                    ),
        {
            let ts = specs[si];
            let q_total = ts.quantity;
            for q in 0..q_total
                invariant
                    n == specs@.len(),
                    si < n,
                    ts == specs@[si as int],
                    q_total == ts.quantity,
                    ranges_wf(seats@),
                    last == spec_total(seats@),
                    seats@.len() == spec_table_count(specs@.take(si as int)) + q,
                    last == spec_total_seats(specs@.take(si as int)) + q * ts.seats,
                    forall|k: int|
                        0 <= k < seats@.len() ==> spec_size(#[trigger] seats@[k])
                            == spec_seats_at(specs@, k),
            {
                if ts.seats > usize::MAX - last {
                    proof {
                        lemma_total_seats_lower(specs@, si as int, q as int);
                    }
                    return None;
                }
                let end = last + ts.seats;
                let ghost old_seats = seats@;
                seats.push(SeatRange { start: last, end });
                proof {
                    assert forall|k: int| 0 <= k < seats@.len() implies (#[trigger] seats@[k]).start
                        <= seats@[k].end by {
                        if k < old_seats.len() {
                            assert(seats@[k] == old_seats[k]);
                        }
                    }
                    lemma_table_count_nonneg(specs@.take(si as int));
                    lemma_seats_at_group(specs@, si as int, q as int);
                    assert forall|k: int| 0 <= k < seats@.len() implies spec_size(
                        #[trigger] seats@[k],
                    ) == spec_seats_at(specs@, k) by {
                        if k < old_seats.len() {
                            assert(seats@[k] == old_seats[k]);
                        }
                    }
                    assert((q + 1) * ts.seats == q * ts.seats + ts.seats) by (nonlinear_arith);
                }
                last = end;
            }
            proof {
                lemma_take_succ(specs@, si as int);
                assert(q_total * ts.seats == ts.seats * ts.quantity) by (nonlinear_arith)
                    requires
                        q_total == ts.quantity,
                {
                }
            }
        }
        proof {
            assert(specs@.take(n as int) =~= specs@);
        }
        Some(Tables { seats })
    }

    /// How many seats there are in total.
    pub fn seat_count(&self) -> (n: usize)
        ensures
            n == self.spec_seat_count(),
    {
        if self.seats.len() == 0 {
            0
        } else {
            self.seats[self.seats.len() - 1].end
        }
    }

    /// The range of seat indexes on each table, in table order.
    pub fn table_indexes(&self) -> (r: Vec<SeatRange>)
        ensures
            r@ == self@,
    {
        let n = self.seats.len();
        let mut r: Vec<SeatRange> = Vec::new();
        for i in 0..n
            invariant
                n == self@.len(),
                r@ =~= self@.take(i as int),
        {
            r.push(self.seats[i]);
        }
        assert(r@ =~= self@);
        r
    }

    /// The range of the table containing the given seat index, found
    /// by binary search over the ordered ranges.
    pub fn table_indexes_containing(&self, index: usize) -> (r: SeatRange)
        requires
            self.wf(),
            index < self.spec_seat_count(),
        ensures
            range_contains(r, index as int),
            r == self.spec_table_of(index as int),
    {
        let mut lo: usize = 0;
        let mut hi: usize = self.seats.len();
        while lo < hi
            invariant
                self.wf(),
                index < self.spec_seat_count(),
                lo <= hi <= self@.len(),
                forall|k: int| 0 <= k < lo ==> (#[trigger] self@[k]).end <= index,
                forall|k: int| hi <= k < self@.len() ==> (#[trigger] self@[k]).start > index,
            decreases hi - lo,
        {
            let mid = lo + (hi - lo) / 2;
            let r = self.seats[mid];
            if r.start > index {
                proof {
                    assert forall|k: int| mid <= k < self@.len() implies (#[trigger] self@[k]).start
                        > index by {
                        if k > mid {
                            lemma_range_order(self@, mid as int, k);
                        }
                    }
                }
                hi = mid;
            } else if r.end <= index {
                proof {
                    assert forall|k: int| 0 <= k < mid + 1 implies (#[trigger] self@[k]).end
                        <= index by {
                        if k < mid {
                            lemma_range_order(self@, k, mid as int);
                        }
                    }
                }
                lo = mid + 1;
            } else {
                proof {
                    assert(range_contains(self@[mid as int], index as int));
                    lemma_coverage_exists(self@, index as int);
                    lemma_coverage_unique(
                        self@,
                        mid as int,
                        self.spec_table_index_of(index as int),
                        index as int,
                    );
                }
                return r;
            }
        }
        proof {
            lemma_coverage_exists(self@, index as int);
            let k = choose|k: int|
                0 <= k < self@.len() && range_contains(#[trigger] self@[k], index as int);
            assert(false);
        }
        SeatRange { start: 0, end: 0 }
    }

    /// Whether this layout has seats on at least two tables, so that
    /// a cross-table move always exists.
    pub fn multi_table(&self) -> (b: bool)
        requires
            self.wf(),
        ensures
            b == self.spec_multi_table(),
    {
        let total = self.seat_count();
        if total == 0 {
            return false;
        }
        let n = self.seats.len();
        for i in 0..n
            invariant
                self.wf(),
                n == self@.len(),
                total == self.spec_seat_count(),
                total > 0,
                forall|k: int| 0 <= k < i ==> spec_size(#[trigger] self@[k]) < total,
        {
            let r = self.seats[i];
            if r.end - r.start >= total {
                return false;
            }
        }
        true
    }
}

impl Tables {
    /// Check well-formedness at run time: the companion of the
    /// spec-level `wf`, for callers outside verified code.
    pub fn is_well_formed(&self) -> (b: bool)
        ensures
            b == self.wf(),
    {
        let n = self.seats.len();
        if n > 0 && self.seats[0].start != 0 {
            return false;
        }
        for k in 0..n
            invariant
                n == self@.len(),
                n > 0 ==> self@[0].start == 0,
                forall|j: int| 0 <= j < k ==> (#[trigger] self@[j]).start <= self@[j].end,
                forall|j1: int, j2: int|
                    #![trigger self@[j1], self@[j2]]
                    0 <= j1 < k && j2 == j1 + 1 && j2 < n ==> self@[j1].end == self@[j2].start,
        {
            let r = self.seats[k];
            if r.start > r.end {
                return false;
            }
            if k + 1 < n && self.seats[k + 1].start != r.end {
                return false;
            }
        }
        proof {
            assert(ranges_wf(self@));
        }
        true
    }
}

/// One line of a table specification: `quantity` tables with
/// `seats` seats each.
#[derive(Debug, Clone, Copy, PartialEq, Eq, Structural)]
pub struct TableSpec {
    pub seats: usize,
    pub quantity: usize,
}

/// How a table-spec string can fail to parse.
#[derive(Debug, Clone, Copy, PartialEq, Eq, Structural)]
pub enum TableSpecError {
    /// The part before the `x` is not a number of seats.
    BadSeats,
    /// The part after the `x` is not a number of tables.
    BadQuantity,
    /// Neither a plain number nor a `<seats>x<tables>` pair.
    BadShape,
}

/// How many tables a specification expands to.
pub open spec fn spec_table_count(specs: Seq<TableSpec>) -> int
    decreases specs.len(),
{
    if specs.len() == 0 {
        0
    } else {
        specs[0].quantity + spec_table_count(specs.drop_first())
    }
}

/// How many seats a specification provides in total.
pub open spec fn spec_total_seats(specs: Seq<TableSpec>) -> int
    decreases specs.len(),
{
    if specs.len() == 0 {
        0
    } else {
        specs[0].seats * specs[0].quantity + spec_total_seats(specs.drop_first())
    }
}

/// The capacity of the `k`-th table a specification expands to.
pub open spec fn spec_seats_at(specs: Seq<TableSpec>, k: int) -> int
    decreases specs.len(),
{
    if specs.len() == 0 {
        0
    } else if k < specs[0].quantity {
        specs[0].seats as int
    } else {
        spec_seats_at(specs.drop_first(), k - specs[0].quantity)
    }
}

proof fn lemma_table_count_nonneg(specs: Seq<TableSpec>)
    ensures
        spec_table_count(specs) >= 0,
    decreases specs.len(),
{
    if specs.len() > 0 {
        lemma_table_count_nonneg(specs.drop_first());
    }
}

proof fn lemma_total_seats_nonneg(specs: Seq<TableSpec>)
    ensures
        spec_total_seats(specs) >= 0,
    decreases specs.len(),
{
    if specs.len() > 0 {
        lemma_total_seats_nonneg(specs.drop_first());
        let s = specs[0].seats as int;
        let q = specs[0].quantity as int;
        assert(s * q >= 0) by (nonlinear_arith)
            requires
                s >= 0,
                q >= 0,
        {
        }
    }
}

/// Extending the prefix by one specification line adds that line's
/// tables and seats.
proof fn lemma_take_succ(specs: Seq<TableSpec>, i: int)
    requires
        0 <= i < specs.len(),
    ensures
        spec_table_count(specs.take(i + 1)) == spec_table_count(specs.take(i))
            + specs[i].quantity,
        spec_total_seats(specs.take(i + 1)) == spec_total_seats(specs.take(i)) + specs[i].seats
            * specs[i].quantity,
    decreases i,
{
    if i == 0 {
        assert(specs.take(1).drop_first() =~= specs.take(0));
        assert(specs.take(0) =~= Seq::<TableSpec>::empty());
        assert(specs.take(1)[0] == specs[0]);
    } else {
        let s1 = specs.drop_first();
        assert(specs.take(i + 1).drop_first() =~= s1.take(i));
        assert(specs.take(i).drop_first() =~= s1.take(i - 1));
        assert(specs.take(i + 1)[0] == specs[0]);
        assert(specs.take(i)[0] == specs[0]);
        lemma_take_succ(s1, i - 1);
        assert(s1[i - 1] == specs[i]);
    }
}

/// Within the `i`-th specification line, every expanded table has
/// that line's seat count.
proof fn lemma_seats_at_group(specs: Seq<TableSpec>, i: int, r: int)
    requires
        0 <= i < specs.len(),
        0 <= r < specs[i].quantity,
    ensures
        spec_seats_at(specs, spec_table_count(specs.take(i)) + r) == specs[i].seats,
    decreases i,
{
    if i == 0 {
        assert(specs.take(0) =~= Seq::<TableSpec>::empty());
    } else {
        let s1 = specs.drop_first();
        assert(specs.take(i).drop_first() =~= s1.take(i - 1));
        assert(specs.take(i)[0] == specs[0]);
        lemma_table_count_nonneg(s1.take(i - 1));
        lemma_seats_at_group(s1, i - 1, r);
        assert(s1[i - 1] == specs[i]);
    }
}

/// The whole specification provides at least the seats of any
/// partially expanded prefix plus one more table of the current
/// line.
proof fn lemma_total_seats_lower(specs: Seq<TableSpec>, i: int, q: int)
    requires
        0 <= i < specs.len(),
        0 <= q < specs[i].quantity,
    ensures
        spec_total_seats(specs) >= spec_total_seats(specs.take(i)) + q * specs[i].seats
            + specs[i].seats,
    decreases i,
{
    if i == 0 {
        assert(specs.take(0) =~= Seq::<TableSpec>::empty());
        let s = specs[0].seats as int;
        let qn = specs[0].quantity as int;
        lemma_total_seats_nonneg(specs.drop_first());
        assert(q * s + s <= s * qn) by (nonlinear_arith)
            requires
                q + 1 <= qn,
                s >= 0,
                q >= 0,
        {
        }
    } else {
        let s1 = specs.drop_first();
        assert(specs.take(i).drop_first() =~= s1.take(i - 1));
        assert(specs.take(i)[0] == specs[0]);
        lemma_total_seats_lower(s1, i - 1, q);
        assert(s1[i - 1] == specs[i]);
    }
}

impl TableSpec {
    /// Read a table specification: `"N"` is one table of `N` seats,
    /// `"NxM"` (or `"NXM"`) is `M` tables of `N` seats each.
    pub fn parse(s: &[u8]) -> (r: Result<TableSpec, TableSpecError>)
        ensures
            r == spec_parse_table_spec(s@),
    {
        match parse_usize(s) {
            Some(n) => {
                proof {
                    crate::parse::lemma_digits_value_nonneg(s@);
                }
                return Ok(TableSpec { seats: n, quantity: 1 });
            },
            None => {},
        }
        let n = s.len();
        let mut xi: usize = 0;
        let mut found = false;
        for i in 0..n
            invariant
                n == s@.len(),
                !found ==> spec_find_x(s@.take(i as int)) is None,
                found ==> xi < i && spec_find_x(s@) == Some(xi as int),
        {
            if !found && (s[i] == 0x78 || s[i] == 0x58) {
                xi = i;
                found = true;
                proof {
                    lemma_find_x_at(s@, i as int);
                }
            } else {
                proof {
                    if !found {
                        assert(s@.take(i + 1) =~= s@.take(i as int).push(s@[i as int]));
                        lemma_find_x_push(s@.take(i as int), s@[i as int]);
                    }
                }
            }
        }
        if !found {
            proof {
                assert(s@.take(n as int) =~= s@);
            }
            return Err(TableSpecError::BadShape);
        }
        let seats_part = &s[0..xi];
        let quantity_part = &s[xi + 1..n];
        proof {
            assert(seats_part@ =~= s@.take(xi as int));
            assert(quantity_part@ =~= s@.skip(xi + 1));
        }
        let seats = match parse_usize(seats_part) {
            Some(v) => v,
            None => {
                proof {
                    if seats_part@.len() > 0 && spec_all_digits(seats_part@) {
                        crate::parse::lemma_digits_value_nonneg(seats_part@);
                    }
                }
                return Err(TableSpecError::BadSeats);
            },
        };
        let quantity = match parse_usize(quantity_part) {
            Some(v) => v,
            None => {
                proof {
                    if quantity_part@.len() > 0 && spec_all_digits(quantity_part@) {
                        crate::parse::lemma_digits_value_nonneg(quantity_part@);
                    }
                }
                return Err(TableSpecError::BadQuantity);
            },
        };
        proof {
            crate::parse::lemma_digits_value_nonneg(seats_part@);
            crate::parse::lemma_digits_value_nonneg(quantity_part@);
        }
        Ok(TableSpec { seats, quantity })
    }
}

/// The position of the first `x` or `X` in `s`, if any.
pub open spec fn spec_find_x(s: Seq<u8>) -> Option<int>
    decreases s.len(),
{
    if s.len() == 0 {
        None
    } else if s[0] == 0x78 || s[0] == 0x58 {
        Some(0)
    } else {
        match spec_find_x(s.drop_first()) {
            Some(i) => Some(i + 1),
            None => None,
        }
    }
}

/// If no `x` occurs before position `i` and one stands at `i`, it is
/// the first.
proof fn lemma_find_x_at(s: Seq<u8>, i: int)
    requires
        0 <= i < s.len(),
        s[i] == 0x78 || s[i] == 0x58,
        spec_find_x(s.take(i)) is None,
    ensures
        spec_find_x(s) == Some(i),
    decreases i,
{
    if i == 0 {
    } else {
        let s1 = s.drop_first();
        assert(s.take(i).drop_first() =~= s1.take(i - 1));
        assert(s.take(i)[0] == s[0]);
        lemma_find_x_at(s1, i - 1);
    }
}

/// Appending a byte that is not an `x` leaves an `x`-free string
/// `x`-free.
proof fn lemma_find_x_push(s: Seq<u8>, b: u8)
    requires
        spec_find_x(s) is None,
        b != 0x78,
        b != 0x58,
    ensures
        spec_find_x(s.push(b)) is None,
    decreases s.len(),
{
    if s.len() == 0 {
        assert(s.push(b)[0] == b);
        assert(s.push(b).drop_first() =~= Seq::<u8>::empty());
        assert(spec_find_x(Seq::<u8>::empty()) is None);
    } else {
        assert(s.push(b)[0] == s[0]);
        assert(s.push(b).drop_first() =~= s.drop_first().push(b));
        lemma_find_x_push(s.drop_first(), b);
    }
}

/// What parsing a table-spec string yields: a plain number `N` is
/// one table of `N` seats; otherwise the string splits at its first
/// `x` or `X` into a seat count and a table count.
pub open spec fn spec_parse_table_spec(s: Seq<u8>) -> Result<TableSpec, TableSpecError> {
    if s.len() > 0 && spec_all_digits(s) && spec_digits_value(s) <= usize::MAX {
        Ok(TableSpec { seats: spec_digits_value(s) as usize, quantity: 1 })
    } else {
        match spec_find_x(s) {
            None => Err(TableSpecError::BadShape),
            Some(xi) => {
                let sp = s.take(xi);
                let qp = s.skip(xi + 1);
                if !(sp.len() > 0 && spec_all_digits(sp) && spec_digits_value(sp) <= usize::MAX) {
                    Err(TableSpecError::BadSeats)
                } else if !(qp.len() > 0 && spec_all_digits(qp) && spec_digits_value(qp)
                    <= usize::MAX) {
                    Err(TableSpecError::BadQuantity)
                } else {
                    Ok(
                        TableSpec {
                            seats: spec_digits_value(sp) as usize,
                            quantity: spec_digits_value(qp) as usize,
                        },
                    )
                }
            },
        }
    }
}

/// The failure raised when more people are supplied than the layout
/// has seats.
#[derive(Debug, Clone, Copy, PartialEq, Eq, Structural)]
pub struct CapacityError {
    /// How many seats would have been needed.
    pub needed: usize,
    /// How many seats the layout has.
    pub available: usize,
}

/// The contents of two slots of `s` exchanged.
pub open spec fn spec_swap(s: Seq<Option<Id>>, a: int, b: int) -> Seq<Option<Id>> {
    s.update(a, s[b]).update(b, s[a])
}

/// Law: exchanging the same two slots twice restores the sequence
/// exactly; the revert path of the search relies on this.
pub proof fn lemma_swap_self_inverse(s: Seq<Option<Id>>, a: int, b: int)
    requires
        0 <= a < s.len(),
        0 <= b < s.len(),
    ensures
        spec_swap(spec_swap(s, a, b), a, b) == s,
{
    assert(spec_swap(spec_swap(s, a, b), a, b) =~= s);
}

/// A fixed-length row of optionally occupied seats, tied to the
/// layout that partitions it into tables.  Its view is the sequence
/// of slot contents.
#[derive(Debug)]
pub struct Seats {
    tables: Tables,
    items: Vec<Option<Id>>,
}

impl View for Seats {
    type V = Seq<Option<Id>>;

    closed spec fn view(&self) -> Seq<Option<Id>> {
        self.items@
    }
}

impl Seats {
    /// The layout this assignment was built on.
    pub closed spec fn spec_tables(&self) -> Tables {
        self.tables
    }

    /// The layout is well formed and every one of its seats has a
    /// slot.
    pub open spec fn wf(&self) -> bool {
        &&& self.spec_tables().wf()
        &&& self@.len() == self.spec_tables().spec_seat_count()
    }

    /// How many slots there are.
    pub fn len(&self) -> (n: usize)
        ensures
            n == self@.len(),
    {
        self.items.len()
    }

    /// The occupant of slot `i`, if any.
    pub fn get(&self, i: usize) -> (r: Option<Id>)
        requires
            i < self@.len(),
        ensures
            r == self@[i as int],
    {
        self.items[i]
    }

    /// A copy of all slot contents, in seat order.
    pub fn occupants(&self) -> (r: Vec<Option<Id>>)
        ensures
            r@ == self@,
    {
        let n = self.items.len();
        let mut r: Vec<Option<Id>> = Vec::new();
        for i in 0..n
            invariant
                n == self@.len(),
                r@ =~= self@.take(i as int),
        {
            r.push(self.items[i]);
        }
        assert(r@ =~= self@);
        r
    }

    /// Exchange the contents of two slots, either or both of which
    /// may be empty.
    pub fn swap(&mut self, i: usize, j: usize)
        requires
            i < old(self)@.len(),
            j < old(self)@.len(),
        ensures
            final(self)@ == spec_swap(old(self)@, i as int, j as int),
            final(self).spec_tables() == old(self).spec_tables(),
    {
        let vi = self.items[i];
        let vj = self.items[j];
        self.items.set(i, vj);
        self.items.set(j, vi);
    }

    /// The range of seat indexes on each table, in table order.
    pub fn indexes_on_each_table(&self) -> (r: Vec<SeatRange>)
        ensures
            r@ == self.spec_tables()@,
    {
        self.tables.table_indexes()
    }

    /// The range of seat indexes of the table containing the given
    /// index.
    pub fn indexes_on_table_with_index(&self, idx: usize) -> (r: SeatRange)
        requires
            self.wf(),
            idx < self@.len(),
        ensures
            range_contains(r, idx as int),
            r == self.spec_tables().spec_table_of(idx as int),
    {
        self.tables.table_indexes_containing(idx)
    }

    /// Check well-formedness at run time: the companion of the
    /// spec-level `wf`, for callers outside verified code.
    pub fn is_well_formed(&self) -> (b: bool)
        ensures
            b == self.wf(),
    {
        if !self.tables.is_well_formed() {
            return false;
        }
        let cap = self.tables.seat_count();
        self.items.len() == cap
    }
}

impl Tables {
    /// Put the given people into seats, in order, padding the rest
    /// of the row with empty slots; fails exactly when there are
    /// more people than seats.
    pub fn create_seats_from(&self, people: &Vec<Id>) -> (r: Result<Seats, CapacityError>)
        requires
            self.wf(),
        ensures
            match r {
                Ok(s) => {
                    &&& people@.len() <= self.spec_seat_count()
                    &&& s.wf()
                    &&& s.spec_tables()@ == self@
                    &&& s@.len() == self.spec_seat_count()
                    &&& forall|i: int| 0 <= i < people@.len() ==> s@[i] == Some(people@[i])
                    &&& forall|i: int| people@.len() <= i < s@.len() ==> s@[i] is None
                },
                Err(e) => {
                    &&& people@.len() > self.spec_seat_count()
                    &&& e.needed == people@.len()
                    &&& e.available == self.spec_seat_count()
                },
            },
    {
        let cap = self.seat_count();
        if people.len() > cap {
            return Err(CapacityError { needed: people.len(), available: cap });
        }
        let mut items: Vec<Option<Id>> = Vec::new();
        let n = people.len();
        for i in 0..n
            invariant
                n == people@.len(),
                items@.len() == i,
                forall|j: int| 0 <= j < i ==> items@[j] == Some(people@[j]),
        {
            items.push(Some(people[i]));
        }
        while items.len() < cap
            invariant
                n <= items@.len() <= cap,
                forall|j: int| 0 <= j < n ==> items@[j] == Some(people@[j]),
                forall|j: int| n <= j < items@.len() ==> items@[j] is None,
            decreases cap - items@.len(),
        {
            items.push(None);
        }
        let tables = Tables { seats: self.table_indexes() };
        Ok(Seats { tables, items })
    }
}

/// Whether seat index `x` lies on some table of the layout.
pub open spec fn spec_on_some_table(t: Tables, x: int) -> bool {
    exists|k: int| 0 <= k < t@.len() && range_contains(#[trigger] t@[k], x)
}

/// Law: the table ranges of a well-formed layout partition the seat
/// indices `[0, total_capacity)` exactly — every index below the
/// capacity lies in exactly one range, and no range reaches outside.
pub proof fn lemma_layout_coverage(t: Tables)
    requires
        t.wf(),
    ensures
        forall|x: int| 0 <= x < t.spec_seat_count() ==> #[trigger] spec_on_some_table(t, x),
        forall|k1: int, k2: int, x: int|
            0 <= k1 < t@.len() && 0 <= k2 < t@.len() && #[trigger] range_contains(t@[k1], x)
                && #[trigger] range_contains(t@[k2], x) ==> k1 == k2,
        forall|k: int, x: int|
            0 <= k < t@.len() && #[trigger] range_contains(t@[k], x) ==> 0 <= x
                < t.spec_seat_count(),
{
    assert forall|x: int| 0 <= x < t.spec_seat_count() implies #[trigger] spec_on_some_table(
        t,
        x,
    ) by {
        lemma_coverage_exists(t@, x);
    }
    assert forall|k1: int, k2: int, x: int|
        0 <= k1 < t@.len() && 0 <= k2 < t@.len() && #[trigger] range_contains(t@[k1], x)
            && #[trigger] range_contains(t@[k2], x) implies k1 == k2 by {
        lemma_coverage_unique(t@, k1, k2, x);
    }
    assert forall|k: int, x: int|
        0 <= k < t@.len() && #[trigger] range_contains(t@[k], x) implies 0 <= x
        < t.spec_seat_count() by {
        lemma_range_in_total(t@, k);
    }
}

} // verus!
