//! Identifiers for people, the registry that hands them out, and the
//! symmetric table of pairwise affinity scores.

use std::collections::HashMap;
use vstd::prelude::*;

verus! {

broadcast use vstd::std_specs::hash::group_hash_axioms;

/// A compact integer token standing for one person.  Identifiers are
/// handed out by [`NameToId`] in allocation order, starting at 1; the
/// value 0 is never issued.
#[derive(Debug, Clone, Copy, PartialEq, Eq, Hash, Structural)]
pub struct Id {
    id: u32,
}

impl Id {
    /// The numeric value of this identifier.
    pub closed spec fn spec_val(self) -> u32 {
        self.id
    }

    /// Identifiers are strictly positive.
    pub open spec fn wf(self) -> bool {
        self.spec_val() >= 1
    }
}

/// The registry never hands out more identifiers than fit in a `u32`,
/// keeping one value spare so a fresh identifier can always be formed.
pub const MAX_PEOPLE: usize = 0xFFFF_FFFE;

/// A bidirectional mapping between names and identifiers.
///
/// The name given out as identifier `i` is held at position `i - 1`,
/// so the forward and the reverse direction can never disagree.  Its
/// view is the sequence of registered names in allocation order.
pub struct NameToId {
    names: Vec<String>,
}

impl View for NameToId {
    type V = Seq<Seq<char>>;

    closed spec fn view(&self) -> Seq<Seq<char>> {
        self.names.deep_view()
    }
}

impl NameToId {
    /// No name is registered twice, and there is room for one more
    /// identifier.
    pub open spec fn wf(&self) -> bool {
        &&& forall|i: int, j: int|
            0 <= i < j < self@.len() ==> self@[i] != self@[j]
        &&& self@.len() <= MAX_PEOPLE
    }

    pub fn new() -> (r: NameToId)
        ensures
            r@ == Seq::<Seq<char>>::empty(),
            r.wf(),
    {
        NameToId { names: Vec::new() }
    }

    /// How many people have been registered.
    pub fn count(&self) -> (n: usize)
        ensures
            n == self@.len(),
    {
        self.names.len()
    }

    /// Register a name, idempotently: a name already seen yields the
    /// identifier it was first given; a fresh name is allotted the
    /// next unused identifier.
    pub fn add_person(&mut self, person: String) -> (id: Id)
        requires
            old(self).wf(),
            old(self)@.len() < MAX_PEOPLE,
        ensures
            final(self).wf(),
            id.wf(),
            id.spec_val() <= final(self)@.len(),
            final(self)@[id.spec_val() - 1] == person@,
            old(self)@.contains(person@) ==> final(self)@ == old(self)@,
            !old(self)@.contains(person@) ==> final(self)@ == old(self)@.push(person@)
                && id.spec_val() == old(self)@.len() + 1,
    {
        let n = self.names.len();
        for i in 0..n
            invariant
                n == self@.len(),
                n <= MAX_PEOPLE,
                forall|j: int| 0 <= j < i ==> self@[j] != person@,
                self.wf(),
        {
            assert(self@[i as int] == self.names@[i as int]@);
            if self.names[i] == person {
                return Id { id: (i + 1) as u32 };
            }
        }
        assert(!self@.contains(person@));
        self.names.push(person);
        assert(self@ =~= old(self)@.push(person@));
        Id { id: (n + 1) as u32 }
    }

    /// Look a name up, yielding the identifier it was registered
    /// under, if any.
    pub fn get_id(&self, person: &str) -> (r: Option<Id>)
        requires
            self.wf(),
        ensures
            match r {
                Some(id) => id.wf() && id.spec_val() <= self@.len()
                    && self@[id.spec_val() - 1] == person@,
                None => !self@.contains(person@),
            },
            self@.contains(person@) ==> r.is_some(),
    {
        let p: String = person.to_owned();
        let n = self.names.len();
        for i in 0..n
            invariant
                n == self@.len(),
                n <= MAX_PEOPLE,
                p@ == person@,
                forall|j: int| 0 <= j < i ==> self@[j] != person@,
        {
            assert(self@[i as int] == self.names@[i as int]@);
            if self.names[i] == p {
                return Some(Id { id: (i + 1) as u32 });
            }
        }
        assert(!self@.contains(person@));
        None
    }

    /// Look an identifier up, yielding the name it stands for, if it
    /// was ever handed out.
    pub fn get_name(&self, id: Id) -> (r: Option<&str>)
        ensures
            match r {
                Some(name) => 1 <= id.spec_val() && id.spec_val() <= self@.len()
                    && name@ == self@[id.spec_val() - 1],
                None => !(1 <= id.spec_val() && id.spec_val() <= self@.len()),
            },
    {
        if id.id >= 1 && id.id as usize <= self.names.len() {
            let i = id.id as usize - 1;
            assert(self@[i as int] == self.names@[i as int]@);
            Some(self.names[i].as_str())
        } else {
            None
        }
    }

    /// Every identifier handed out so far, in allocation order.
    pub fn iter_ids(&self) -> (r: Vec<Id>)
        requires
            self.wf(),
        ensures
            r@.len() == self@.len(),
            forall|i: int| 0 <= i < r@.len() ==> (#[trigger] r@[i]).spec_val() == i + 1,
    {
        let n = self.names.len();
        let mut ids: Vec<Id> = Vec::new();
        for i in 0..n
            invariant
                n == self@.len(),
                n <= MAX_PEOPLE,
                ids@.len() == i,
                forall|j: int| 0 <= j < i ==> (#[trigger] ids@[j]).spec_val() == j + 1,
        {
            ids.push(Id { id: (i + 1) as u32 });
        }
        ids
    }
}

/// An unordered pair of identifiers, stored with the smaller value
/// first so that the two orders of the same pair coincide.
#[derive(Debug, Clone, Copy, PartialEq, Eq, Hash, Structural)]
pub struct IdPair {
    lo: Id,
    hi: Id,
}

impl IdPair {
    pub closed spec fn spec_lo(self) -> Id {
        self.lo
    }

    pub closed spec fn spec_hi(self) -> Id {
        self.hi
    }

    /// Canonicalize an unordered pair: the same two identifiers, in
    /// either order, build the same `IdPair`.
    pub fn new(a: Id, b: Id) -> (p: IdPair)
        ensures
            p.spec_lo().spec_val() <= p.spec_hi().spec_val(),
            (p.spec_lo() == a && p.spec_hi() == b) || (p.spec_lo() == b && p.spec_hi() == a),
    {
        if a.id > b.id {
            IdPair { lo: b, hi: a }
        } else {
            IdPair { lo: a, hi: b }
        }
    }
}

/// The storage key of an unordered pair: the smaller identifier value
/// in the upper half of a `u64`, the larger in the lower half.  Both
/// argument orders give the same key, and distinct unordered pairs
/// give distinct keys.
pub open spec fn spec_key(a: Id, b: Id) -> u64 {
    if a.spec_val() <= b.spec_val() {
        (a.spec_val() * 0x1_0000_0000 + b.spec_val()) as u64
    } else {
        (b.spec_val() * 0x1_0000_0000 + a.spec_val()) as u64
    }
}

/// Whether `{c, d}` is the same unordered pair as `{a, b}`.
pub open spec fn spec_same_pair(a: Id, b: Id, c: Id, d: Id) -> bool {
    (c == a && d == b) || (c == b && d == a)
}

/// Distinct unordered pairs are stored under distinct keys.
proof fn lemma_key_injective(a: Id, b: Id, c: Id, d: Id)
    requires
        spec_key(a, b) == spec_key(c, d),
    ensures
        spec_same_pair(a, b, c, d),
{
    let l1 = if a.spec_val() <= b.spec_val() { a.spec_val() } else { b.spec_val() };
    let h1 = if a.spec_val() <= b.spec_val() { b.spec_val() } else { a.spec_val() };
    let l2 = if c.spec_val() <= d.spec_val() { c.spec_val() } else { d.spec_val() };
    let h2 = if c.spec_val() <= d.spec_val() { d.spec_val() } else { c.spec_val() };
    assert(l1 * 0x1_0000_0000 + h1 == l2 * 0x1_0000_0000 + h2);
    assert(l1 == l2 && h1 == h2) by (nonlinear_arith)
        requires
            l1 * 0x1_0000_0000 + h1 == l2 * 0x1_0000_0000 + h2,
            h1 < 0x1_0000_0000,
            h2 < 0x1_0000_0000,
            l1 >= 0,
            l2 >= 0,
    {
    }
}

/// A symmetric mapping from an unordered pair of identifiers to an
/// affinity score.  A pair with no entry is neutral: looking it up
/// yields nothing, which callers read as score zero.
#[derive(Debug, Clone)]
pub struct Scores {
    map: HashMap<u64, i32>,
}

impl Scores {
    pub closed spec fn spec_map(self) -> Map<u64, i32> {
        self.map@
    }

    /// The score stored for the unordered pair `{a, b}`, if any.
    pub open spec fn spec_score(self, a: Id, b: Id) -> Option<i32> {
        if self.spec_map().contains_key(spec_key(a, b)) {
            Some(self.spec_map()[spec_key(a, b)])
        } else {
            None
        }
    }

    pub fn new() -> (r: Scores)
        ensures
            forall|a: Id, b: Id| #[trigger] r.spec_score(a, b) == Option::<i32>::None,
    {
        Scores { map: HashMap::new() }
    }

    /// The canonical key of the unordered pair `{a, b}`.
    fn key_of(a: Id, b: Id) -> (k: u64)
        ensures
            k == spec_key(a, b),
    {
        let p = IdPair::new(a, b);
        (p.lo.id as u64) * 0x1_0000_0000 + (p.hi.id as u64)
    }

    /// Record a score for the unordered pair `{a, b}`, overwriting
    /// any earlier entry; every other pair keeps its score.
    pub fn add_score(&mut self, a: Id, b: Id, score: i32)
        ensures
            final(self).spec_score(a, b) == Some(score),
            final(self).spec_score(b, a) == Some(score),
            forall|c: Id, d: Id|
                !spec_same_pair(a, b, c, d) ==> #[trigger] final(self).spec_score(c, d)
                    == old(self).spec_score(c, d),
    {
        let k = Self::key_of(a, b);
        self.map.insert(k, score);
        proof {
            assert forall|c: Id, d: Id| !spec_same_pair(a, b, c, d)
                implies #[trigger] self.spec_score(c, d) == old(self).spec_score(c, d) by {
                if spec_key(c, d) == spec_key(a, b) {
                    lemma_key_injective(a, b, c, d);
                }
            }
        }
    }

    /// Look the unordered pair `{a, b}` up; absence means a neutral
    /// (zero) affinity, never an error.
    pub fn get_score(&self, a: Id, b: Id) -> (r: Option<i32>)
        ensures
            r == self.spec_score(a, b),
    {
        let k = Self::key_of(a, b);
        match self.map.get(&k) {
            Some(v) => Some(*v),
            None => None,
        }
    }
}

/// Law: the score table is symmetric in its two identifier
/// arguments; storing a score under `(a, b)` and reading it back
/// under either order yields that same score.
pub proof fn lemma_score_symmetric(s: Scores, a: Id, b: Id)
    ensures
        s.spec_score(a, b) == s.spec_score(b, a),
{
}

} // verus!
