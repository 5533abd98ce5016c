use vstd::prelude::*;
use vstd::string::*;
use crate::num::randomMulti;
use crate::text::{decimal, push_decimal};

verus! {

/// The smallest side count that a die is meant to have.
pub const MINIMUM_DIE_SIDES: usize = 2;

/// The face value that every die starts counting from.
pub const MINIMUM_DIE_VALUE: usize = 1;

/// A die shape, identified by its number of sides; dice order by ascending side count.
#[derive(Clone, Copy, Debug, PartialEq, Eq, Structural, PartialOrd, Ord, Hash)]
pub struct Die {
    pub sides: usize,
}

impl Default for Die {
    fn default() -> (r: Self)
        ensures
            r.sides == MINIMUM_DIE_SIDES,
    {
        Die { sides: MINIMUM_DIE_SIDES }
    }
}

/// The sum of a sequence of face values.
pub open spec fn sum(s: Seq<usize>) -> int
    decreases s.len(),
{
    if s.len() == 0 {
        0
    } else {
        sum(s.drop_last()) + s.last()
    }
}

/// `h` is the largest of `s`, or 0 where `s` is empty.
pub open spec fn is_highest(s: Seq<usize>, h: usize) -> bool {
    if s.len() == 0 {
        h == 0
    } else {
        (exists|i: int| 0 <= i < s.len() && s[i] == h) && forall|i: int|
            0 <= i < s.len() ==> #[trigger] s[i] <= h
    }
}

/// `l` is the smallest of `s`, or 0 where `s` is empty.
pub open spec fn is_lowest(s: Seq<usize>, l: usize) -> bool {
    if s.len() == 0 {
        l == 0
    } else {
        (exists|i: int| 0 <= i < s.len() && s[i] == l) && forall|i: int|
            0 <= i < s.len() ==> l <= #[trigger] s[i]
    }
}

/// Pushing a value adds it to the sum.
pub proof fn lemma_sum_push(s: Seq<usize>, v: usize)
    ensures
        sum(s.push(v)) == sum(s) + v,
{
    assert(s.push(v).drop_last() =~= s);
}

/// Every value within `lo..=hi` bounds the sum by `lo * len` and `hi * len`.
pub proof fn lemma_sum_bounds(s: Seq<usize>, lo: int, hi: int)
    requires
        forall|i: int| 0 <= i < s.len() ==> lo <= #[trigger] s[i] <= hi,
    ensures
        lo * s.len() <= sum(s) <= hi * s.len(),
    decreases s.len(),
{
    if s.len() > 0 {
        let t = s.drop_last();
        assert forall|i: int| 0 <= i < t.len() implies lo <= #[trigger] t[i] <= hi by {
            assert(t[i] == s[i]);
        }
        lemma_sum_bounds(t, lo, hi);
        let n = t.len() as int;
        assert(lo * (n + 1) == lo * n + lo) by (nonlinear_arith);
        assert(hi * (n + 1) == hi * n + hi) by (nonlinear_arith);
    }
}

impl Die {
    /// The die with `sides` sides.
    pub fn new(sides: usize) -> (r: Die)
        ensures
            r.sides == sides,
    {
        Die { sides }
    }

    /// The largest face that a roll of this die can show: its side count, and 1 for a
    /// die with fewer sides than that, whose rolls all show 1.
    pub open spec fn top_face(self) -> nat {
        if self.sides < MINIMUM_DIE_VALUE {
            MINIMUM_DIE_VALUE as nat
        } else {
            self.sides as nat
        }
    }

    /// The largest quantity of this die whose roll has a total that fits in a `usize`.
    pub open spec fn max_quantity(self) -> nat {
        usize::MAX as nat / self.top_face()
    }

    /// The text of a die: `d` and then its side count, as in `d20`.
    pub open spec fn text(self) -> Seq<char> {
        seq!['d'] + decimal(self.sides as nat)
    }

    /// Rolls this die `quantity` times: each face value is drawn from `1..=top_face()`,
    /// and the derived fields are computed from the values drawn.
    pub fn roll(self, quantity: usize) -> (r: Roll)
        requires
            quantity <= self.max_quantity(),
        ensures
            r.die == self,
            r.values@.len() == quantity,
            forall|i: int|
                0 <= i < r.values@.len() ==> MINIMUM_DIE_VALUE <= #[trigger] r.values@[i]
                    <= self.top_face(),
            r.is_consistent(),
            quantity <= r.total <= quantity * self.top_face(),
    {
        let top = if self.sides < MINIMUM_DIE_VALUE {
            MINIMUM_DIE_VALUE
        } else {
            self.sides
        };
        let values = randomMulti(quantity, MINIMUM_DIE_VALUE, top);
        proof {
            lemma_sum_bounds(values@, 1, top as int);
            assert(top as int * quantity == quantity * self.top_face() && quantity
                * self.top_face() <= usize::MAX) by (nonlinear_arith)
                requires
                    top as int == self.top_face(),
                    top >= 1,
                    quantity <= usize::MAX as nat / self.top_face(),
            ;
        }
        let mut roll = Roll { die: self, highest: 0, lowest: 0, total: 0, values };
        roll.calculate();
        roll
    }

    /// The largest quantity of this die that can be rolled at once.
    pub fn roll_limit(self) -> (r: usize)
        ensures
            r == self.max_quantity(),
    {
        if self.sides < MINIMUM_DIE_VALUE {
            usize::MAX / MINIMUM_DIE_VALUE
        } else {
            usize::MAX / self.sides
        }
    }

    /// Renders this die as `d{sides}`.
    pub fn to_string(self) -> (r: String)
        ensures
            r@ == self.text(),
    {
        let mut s = String::new();
        proof {
            reveal_strlit("d");
        }
        s.append("d");
        push_decimal(&mut s, self.sides);
        assert(s@ =~= self.text());
        s
    }
}

/// The outcome of rolling one die a number of times: the face values in draw order,
/// and their largest, smallest and sum.
#[derive(Debug, PartialEq, Eq, PartialOrd, Ord)]
pub struct Roll {
    pub die: Die,
    pub highest: usize,
    pub lowest: usize,
    pub total: usize,
    pub values: Vec<usize>,
}

impl Default for Roll {
    fn default() -> (r: Self)
        ensures
            r.die.sides == MINIMUM_DIE_SIDES,
            r.highest == 0,
            r.lowest == 0,
            r.total == 0,
            r.values@.len() == 0,
    {
        Roll { die: Die::default(), highest: 0, lowest: 0, total: 0, values: Vec::new() }
    }
}

impl Clone for Roll {
    fn clone(&self) -> (r: Self)
        ensures
            r.same_as(self),
    {
        let values = self.values.clone();
        assert(values@ =~= self.values@);
        Roll {
            die: self.die,
            highest: self.highest,
            lowest: self.lowest,
            total: self.total,
            values,
        }
    }
}

impl Roll {
    /// `self` and `other` hold the same die, the same values and the same derived fields.
    pub open spec fn same_as(&self, other: &Roll) -> bool {
        &&& self.die == other.die
        &&& self.highest == other.highest
        &&& self.lowest == other.lowest
        &&& self.total == other.total
        &&& self.values@ == other.values@
    }

    /// The derived fields agree with the values; an empty roll has 0 in each.
    pub open spec fn is_consistent(&self) -> bool {
        &&& is_highest(self.values@, self.highest)
        &&& is_lowest(self.values@, self.lowest)
        &&& self.total == sum(self.values@)
    }

    /// A roll made of the given fields, taken as they are.
    pub fn new(die: Die, highest: usize, lowest: usize, total: usize, values: Vec<usize>) -> (r:
        Self)
        ensures
            r.die == die,
            r.highest == highest,
            r.lowest == lowest,
            r.total == total,
            r.values@ == values@,
    {
        Roll { die, highest, lowest, total, values }
    }

    /// Recomputes the largest, smallest and sum of the values; with no values each is 0.
    pub fn calculate(&mut self)
        requires
            sum(old(self).values@) <= usize::MAX,
        ensures
            final(self).die == old(self).die,
            final(self).values@ == old(self).values@,
            final(self).is_consistent(),
    {
        let n = self.values.len();
        if n == 0 {
            self.highest = 0;
            self.lowest = 0;
            self.total = 0;
            return;
        }
        let ghost s = self.values@;
        let mut hi: usize = self.values[0];
        let mut lo: usize = self.values[0];
        let mut tot: usize = 0;
        let mut i: usize = 0;
        while i < n
            invariant
                s == self.values@,
                n == s.len(),
                0 < n,
                i <= n,
                sum(s) <= usize::MAX,
                tot == sum(s.subrange(0, i as int)),
                exists|k: int| 0 <= k < n && s[k] == hi,
                exists|k: int| 0 <= k < n && s[k] == lo,
                forall|k: int| 0 <= k < i ==> lo <= #[trigger] s[k] <= hi,
                s[0] <= hi,
                lo <= s[0],
            decreases n - i,
        {
            let v = self.values[i];
            proof {
                assert(s.subrange(0, i as int + 1) =~= s.subrange(0, i as int).push(v));
                lemma_sum_push(s.subrange(0, i as int), v);
                lemma_sum_prefix_le(s, i as int + 1);
            }
            tot = tot + v;
            if v > hi {
                hi = v;
            }
            if v < lo {
                lo = v;
            }
            i = i + 1;
        }
        assert(s.subrange(0, n as int) =~= s);
        self.highest = hi;
        self.lowest = lo;
        self.total = tot;
    }
}

/// A prefix of face values sums to no more than the whole.
pub proof fn lemma_sum_prefix_le(s: Seq<usize>, i: int)
    requires
        0 <= i <= s.len(),
    ensures
        sum(s.subrange(0, i)) <= sum(s),
    decreases s.len() - i,
{
    if i < s.len() {
        lemma_sum_prefix_le(s, i + 1);
        assert(s.subrange(0, i + 1) =~= s.subrange(0, i).push(s[i]));
        lemma_sum_push(s.subrange(0, i), s[i]);
    } else {
        assert(s.subrange(0, i) =~= s);
    }
}

/// The total of a consistent roll lies between `lowest` and `highest` times the
/// number of values.
pub proof fn lemma_total_between_extremes(r: Roll)
    requires
        r.is_consistent(),
    ensures
        r.lowest * r.values@.len() <= r.total <= r.highest * r.values@.len(),
{
    lemma_sum_bounds(r.values@, r.lowest as int, r.highest as int);
}

} // verus!
