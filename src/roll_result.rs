use vstd::prelude::*;
use vstd::std_specs::convert::FromSpecImpl;
use vstd::string::*;
use crate::dice::{Die, Roll, MINIMUM_DIE_VALUE};
use crate::equation::Equation;
use crate::text::{decimal, join, lemma_join_push, plus_sep, push_decimal};

verus! {

/// The sum of the totals of `s`.
pub open spec fn totals_sum(s: Seq<Roll>) -> int
    decreases s.len(),
{
    if s.len() == 0 {
        0
    } else {
        totals_sum(s.drop_last()) + s.last().total
    }
}

/// `i` is the first position of `s` whose roll is of die `d`.
pub open spec fn first_of(s: Seq<Roll>, d: Die, i: int) -> bool {
    &&& 0 <= i < s.len()
    &&& s[i].die == d
    &&& forall|j: int| 0 <= j < i ==> #[trigger] s[j].die != d
}

/// A list of face values as text: decimal values joined by `", "`, in brackets.
pub open spec fn values_text(v: Seq<usize>) -> Seq<char> {
    seq!['['] + join(v.map_values(|x: usize| decimal(x as nat)), seq![',', ' ']) + seq![']']
}

/// The value lists of the rolls, joined by `" + "`.
pub open spec fn value_text(s: Seq<Roll>) -> Seq<char> {
    join(s.map_values(|r: Roll| values_text(r.values@)), plus_sep())
}

/// The totals of the rolls, joined by `" + "`.
pub open spec fn intermediate_text(s: Seq<Roll>) -> Seq<char> {
    join(s.map_values(|r: Roll| decimal(r.total as nat)), plus_sep())
}

/// The full text of a result: `{values} -> {totals} = {grand total}`.
pub open spec fn result_text(s: Seq<Roll>) -> Seq<char> {
    value_text(s) + seq![' ', '-', '>', ' '] + intermediate_text(s) + seq![' ', '=', ' ']
        + decimal(totals_sum(s) as nat)
}

/// Pushing a roll adds its total to the grand total.
pub proof fn lemma_totals_push(s: Seq<Roll>, r: Roll)
    ensures
        totals_sum(s.push(r)) == totals_sum(s) + r.total,
{
    assert(s.push(r).drop_last() =~= s);
}

/// The totals of a prefix sum to no more than those of the whole.
pub proof fn lemma_totals_prefix_le(s: Seq<Roll>, i: int)
    requires
        0 <= i <= s.len(),
    ensures
        totals_sum(s.subrange(0, i)) <= totals_sum(s),
    decreases s.len() - i,
{
    if i < s.len() {
        lemma_totals_prefix_le(s, i + 1);
        assert(s.subrange(0, i + 1) =~= s.subrange(0, i).push(s[i]));
        lemma_totals_push(s.subrange(0, i), s[i]);
    } else {
        assert(s.subrange(0, i) =~= s);
    }
}

/// The grand total is additive: the rolls of two results taken together total the
/// sum of their two totals.
pub proof fn lemma_totals_additive(a: Seq<Roll>, b: Seq<Roll>)
    ensures
        totals_sum(a + b) == totals_sum(a) + totals_sum(b),
    decreases b.len(),
{
    if b.len() > 0 {
        lemma_totals_additive(a, b.drop_last());
        assert((a + b).drop_last() =~= a + b.drop_last());
    } else {
        assert(a + b =~= a);
    }
}

/// The outcome of rolling an equation: one roll per die, in the order rolled.
#[derive(Debug)]
pub struct RollResult {
    rolls: Vec<Roll>,
}

impl View for RollResult {
    type V = Seq<Roll>;

    closed spec fn view(&self) -> Seq<Roll> {
        self.rolls@
    }
}

impl Default for RollResult {
    fn default() -> (r: Self)
        ensures
            r@ == Seq::<Roll>::empty(),
    {
        RollResult::new()
    }
}

impl From<&Equation> for RollResult {
    fn from(value: &Equation) -> Self {
        RollResult::from_equation(value)
    }
}

impl FromSpecImpl<&Equation> for RollResult {
    open spec fn obeys_from_spec() -> bool {
        false
    }

    open spec fn from_spec(v: &Equation) -> Self {
        arbitrary()
    }
}

impl From<Equation> for RollResult {
    fn from(value: Equation) -> Self {
        RollResult::from_equation(&value)
    }
}

impl FromSpecImpl<Equation> for RollResult {
    open spec fn obeys_from_spec() -> bool {
        false
    }

    open spec fn from_spec(v: Equation) -> Self {
        arbitrary()
    }
}

/// Appends `values_text(v@)` to `s`.
fn push_values(s: &mut String, v: &Vec<usize>)
    ensures
        final(s)@ == old(s)@ + values_text(v@),
{
    let ghost start = s@;
    let ghost parts = v@.map_values(|x: usize| decimal(x as nat));
    proof {
        reveal_strlit("[");
        reveal_strlit("]");
        reveal_strlit(", ");
    }
    s.append("[");
    let mut i: usize = 0;
    while i < v.len()
        invariant
            i <= v@.len(),
            parts == v@.map_values(|x: usize| decimal(x as nat)),
            s@ == start + seq!['['] + join(parts.subrange(0, i as int), seq![',', ' ']),
            ", "@ == seq![',', ' '],
        decreases v@.len() - i,
    {
        let ghost before = s@;
        if i > 0 {
            s.append(", ");
        }
        push_decimal(s, v[i]);
        proof {
            assert(parts.subrange(0, i as int + 1) =~= parts.subrange(0, i as int).push(
                parts[i as int],
            ));
            lemma_join_push(parts.subrange(0, i as int), seq![',', ' '], parts[i as int]);
            if i > 0 {
                assert(s@ =~= start + seq!['['] + (join(parts.subrange(0, i as int), seq![',', ' '])
                    + seq![',', ' '] + parts[i as int]));
            } else {
                assert(s@ =~= start + seq!['['] + parts[i as int]);
            }
        }
        i = i + 1;
    }
    assert(parts.subrange(0, i as int) =~= parts);
    s.append("]");
    assert(s@ =~= start + values_text(v@));
}

impl RollResult {
    /// The empty result.
    pub fn new() -> (r: Self)
        ensures
            r@ == Seq::<Roll>::empty(),
    {
        RollResult { rolls: Vec::new() }
    }

    /// Rolls every die of `value`, in ascending order of side count, as many times as
    /// its quantity, and keeps one roll per die.
    pub fn from_equation(value: &Equation) -> (r: Self)
        ensures
            r@.len() == value@.len(),
            forall|i: int|
                #![trigger r@[i]]
                0 <= i < r@.len() ==> {
                    &&& r@[i].die == value@[i].0
                    &&& r@[i].values@.len() == value@[i].1
                    &&& r@[i].is_consistent()
                    &&& forall|k: int|
                        0 <= k < r@[i].values@.len() ==> MINIMUM_DIE_VALUE
                            <= #[trigger] r@[i].values@[k] <= value@[i].0.top_face()
                },
    {
        proof {
            use_type_invariant(value);
        }
        let entries = value.read();
        let mut result = RollResult::new();
        let mut i: usize = 0;
        while i < entries.len()
            invariant
                entries@ == value@,
                value.wf(),
                i <= entries@.len(),
                result@.len() == i,
                forall|j: int|
                    #![trigger result@[j]]
                    0 <= j < i ==> {
                        &&& result@[j].die == value@[j].0
                        &&& result@[j].values@.len() == value@[j].1
                        &&& result@[j].is_consistent()
                        &&& forall|k: int|
                            0 <= k < result@[j].values@.len() ==> MINIMUM_DIE_VALUE
                                <= #[trigger] result@[j].values@[k] <= value@[j].0.top_face()
                    },
            decreases entries@.len() - i,
        {
            let (die, quantity) = entries[i];
            assert(entries@[i as int].1 <= entries@[i as int].0.max_quantity());
            let roll = die.roll(quantity);
            result.add(roll);
            i = i + 1;
        }
        result
    }

    /// Appends `roll`; the grand total grows by its total.
    pub fn add(&mut self, roll: Roll)
        ensures
            final(self)@ == old(self)@.push(roll),
            totals_sum(final(self)@) == totals_sum(old(self)@) + roll.total,
    {
        proof {
            lemma_totals_push(self@, roll);
        }
        self.rolls.push(roll);
    }

    /// A copy of the first roll of `die`, or `None` where no roll is of that die.
    pub fn get(&self, die: Die) -> (r: Option<Roll>)
        ensures
            r is None <==> forall|i: int| 0 <= i < self@.len() ==> #[trigger] self@[i].die != die,
            r matches Some(x) ==> exists|i: int| first_of(self@, die, i) && x.same_as(&self@[i]),
    {
        let mut i: usize = 0;
        while i < self.rolls.len()
            invariant
                i <= self@.len(),
                forall|j: int| 0 <= j < i ==> #[trigger] self@[j].die != die,
            decreases self@.len() - i,
        {
            if self.rolls[i].die == die {
                let r = self.rolls[i].clone();
                assert(first_of(self@, die, i as int));
                return Some(r);
            }
            i = i + 1;
        }
        None
    }

    /// The sum of the totals of all rolls; 0 for an empty result.
    pub fn total(&self) -> (r: usize)
        requires
            totals_sum(self@) <= usize::MAX,
        ensures
            r == totals_sum(self@),
    {
        let mut acc: usize = 0;
        let mut i: usize = 0;
        while i < self.rolls.len()
            invariant
                i <= self@.len(),
                totals_sum(self@) <= usize::MAX,
                acc == totals_sum(self@.subrange(0, i as int)),
            decreases self@.len() - i,
        {
            proof {
                assert(self@.subrange(0, i as int + 1) =~= self@.subrange(0, i as int).push(
                    self@[i as int],
                ));
                lemma_totals_push(self@.subrange(0, i as int), self@[i as int]);
                lemma_totals_prefix_le(self@, i as int + 1);
            }
            acc = acc + self.rolls[i].total;
            i = i + 1;
        }
        assert(self@.subrange(0, i as int) =~= self@);
        acc
    }

    /// Renders `{values} -> {totals} = {grand total}`.
    pub fn to_string(&self) -> (r: String)
        requires
            totals_sum(self@) <= usize::MAX,
        ensures
            r@ == result_text(self@),
    {
        proof {
            reveal_strlit(" -> ");
            reveal_strlit(" = ");
        }
        let mut s = self.toValueString();
        s.append(" -> ");
        let mid = self.toIntermediateString();
        s.append(mid.as_str());
        s.append(" = ");
        push_decimal(&mut s, self.total());
        assert(s@ =~= result_text(self@));
        s
    }

    /// The totals of the rolls, in order, joined by `" + "`.
    #[allow(non_snake_case)]
    pub fn toIntermediateString(&self) -> (r: String)
        ensures
            r@ == intermediate_text(self@),
    {
        let ghost parts = self@.map_values(|r: Roll| decimal(r.total as nat));
        proof {
            reveal_strlit(" + ");
        }
        let mut s = String::new();
        let mut i: usize = 0;
        while i < self.rolls.len()
            invariant
                i <= self@.len(),
                parts == self@.map_values(|r: Roll| decimal(r.total as nat)),
                s@ == join(parts.subrange(0, i as int), plus_sep()),
                " + "@ == plus_sep(),
            decreases self@.len() - i,
        {
            let ghost before = s@;
            if i > 0 {
                s.append(" + ");
            }
            push_decimal(&mut s, self.rolls[i].total);
            proof {
                assert(parts.subrange(0, i as int + 1) =~= parts.subrange(0, i as int).push(
                    parts[i as int],
                ));
                lemma_join_push(parts.subrange(0, i as int), plus_sep(), parts[i as int]);
                if i > 0 {
                    assert(s@ =~= before + plus_sep() + parts[i as int]);
                } else {
                    assert(s@ =~= parts[i as int]);
                }
            }
            i = i + 1;
        }
        assert(parts.subrange(0, i as int) =~= parts);
        s
    }

    /// The value lists of the rolls, each as `[a, b]`, in order, joined by `" + "`.
    #[allow(non_snake_case)]
    pub fn toValueString(&self) -> (r: String)
        ensures
            r@ == value_text(self@),
    {
        let ghost parts = self@.map_values(|r: Roll| values_text(r.values@));
        proof {
            reveal_strlit(" + ");
        }
        let mut s = String::new();
        let mut i: usize = 0;
        while i < self.rolls.len()
            invariant
                i <= self@.len(),
                parts == self@.map_values(|r: Roll| values_text(r.values@)),
                s@ == join(parts.subrange(0, i as int), plus_sep()),
                " + "@ == plus_sep(),
            decreases self@.len() - i,
        {
            let ghost before = s@;
            if i > 0 {
                s.append(" + ");
            }
            push_values(&mut s, &self.rolls[i].values);
            proof {
                assert(parts.subrange(0, i as int + 1) =~= parts.subrange(0, i as int).push(
                    parts[i as int],
                ));
                lemma_join_push(parts.subrange(0, i as int), plus_sep(), parts[i as int]);
                if i > 0 {
                    assert(s@ =~= before + plus_sep() + parts[i as int]);
                } else {
                    assert(s@ =~= parts[i as int]);
                }
            }
            i = i + 1;
        }
        assert(parts.subrange(0, i as int) =~= parts);
        s
    }
}

} // verus!
