use vstd::prelude::*;
use vstd::string::*;
use crate::dice::{Die, MINIMUM_DIE_VALUE};
use crate::text::{decimal, join, lemma_join_push, plus_sep, push_decimal};

verus! {

/// The entries of `s` go by strictly ascending side count, so no die occurs twice.
pub open spec fn ascending(s: Seq<(Die, usize)>) -> bool {
    forall|i: int, j: int| 0 <= i < j < s.len() ==> s[i].0.sides < s[j].0.sides
}

/// The quantity of every entry can be rolled with a total that fits in a `usize`.
pub open spec fn rollable(s: Seq<(Die, usize)>) -> bool {
    forall|i: int| 0 <= i < s.len() ==> #[trigger] s[i].1 <= s[i].0.max_quantity()
}

/// Entry `i` of `s` is about die `d`.
pub open spec fn key_at(s: Seq<(Die, usize)>, i: int, d: Die) -> bool {
    0 <= i < s.len() && s[i].0 == d
}

/// The quantity that `s` records for each die it names.
pub open spec fn quantities(s: Seq<(Die, usize)>) -> Map<Die, usize> {
    Map::new(
        |d: Die| exists|i: int| key_at(s, i, d),
        |d: Die| s[choose|i: int| key_at(s, i, d)].1,
    )
}

/// How many of `d` the entries `s` hold: 0 where `d` is absent.
pub open spec fn count_in(s: Seq<(Die, usize)>, d: Die) -> nat {
    if quantities(s).contains_key(d) {
        quantities(s)[d] as nat
    } else {
        0
    }
}

/// The text of one entry: its quantity, then the die, as in `5d6`.
pub open spec fn term_text(e: (Die, usize)) -> Seq<char> {
    decimal(e.1 as nat) + e.0.text()
}

/// The text of an expression: its entries' texts in order, joined by `" + "`.
pub open spec fn equation_text(s: Seq<(Die, usize)>) -> Seq<char> {
    join(s.map_values(|e: (Die, usize)| term_text(e)), plus_sep())
}

/// In an ascending sequence, entry `i` gives the quantity recorded for its die.
pub proof fn lemma_quantity_at(s: Seq<(Die, usize)>, i: int)
    requires
        ascending(s),
        0 <= i < s.len(),
    ensures
        quantities(s).contains_key(s[i].0),
        quantities(s)[s[i].0] == s[i].1,
{
    let d = s[i].0;
    assert(key_at(s, i, d));
    let j = choose|j: int| key_at(s, j, d);
    assert(key_at(s, j, d));
    if j < i {
        assert(s[j].0.sides < s[i].0.sides);
    } else if i < j {
        assert(s[i].0.sides < s[j].0.sides);
    }
}

/// Two ascending sequences that record the same quantities are the same sequence:
/// the order of the entries is decided by the dice alone.
pub proof fn lemma_canonical_order(s: Seq<(Die, usize)>, t: Seq<(Die, usize)>)
    requires
        ascending(s),
        ascending(t),
        quantities(s) == quantities(t),
    ensures
        s == t,
    decreases s.len() + t.len(),
{
    if s.len() == 0 || t.len() == 0 {
        if s.len() > 0 {
            lemma_quantity_at(s, 0);
        }
        if t.len() > 0 {
            lemma_quantity_at(t, 0);
        }
        assert(s =~= t);
    } else {
        lemma_quantity_at(s, 0);
        lemma_quantity_at(t, 0);
        let js = choose|j: int| key_at(s, j, t[0].0);
        let jt = choose|j: int| key_at(t, j, s[0].0);
        assert(key_at(s, js, t[0].0));
        assert(key_at(t, jt, s[0].0));
        if js > 0 {
            assert(s[0].0.sides < s[js].0.sides);
            assert(t[0].0.sides <= t[jt].0.sides);
        }
        assert(s[0].0 == t[0].0);
        let s1 = s.drop_first();
        let t1 = t.drop_first();
        let d0 = s[0].0;
        assert forall|d: Die| #[trigger] quantities(s1).contains_key(d) implies quantities(
            t1,
        ).contains_key(d) && quantities(s1)[d] == quantities(t1)[d] by {
            let i = choose|i: int| key_at(s1, i, d);
            assert(key_at(s1, i, d));
            lemma_quantity_at(s1, i);
            lemma_quantity_at(s, i + 1);
            assert(s[0].0.sides < s[i + 1].0.sides);
            let k = choose|k: int| key_at(t, k, d);
            assert(key_at(t, k, d));
            assert(k != 0);
            assert(key_at(t1, k - 1, d));
            lemma_quantity_at(t1, k - 1);
            lemma_quantity_at(t, k);
        }
        assert forall|d: Die| #[trigger] quantities(t1).contains_key(d) implies quantities(
            s1,
        ).contains_key(d) by {
            let i = choose|i: int| key_at(t1, i, d);
            assert(key_at(t1, i, d));
            lemma_quantity_at(t, i + 1);
            assert(t[0].0.sides < t[i + 1].0.sides);
            let k = choose|k: int| key_at(s, k, d);
            assert(key_at(s, k, d));
            assert(k != 0);
            assert(key_at(s1, k - 1, d));
        }
        assert(quantities(s1) =~= quantities(t1));
        lemma_canonical_order(s1, t1);
        assert(s =~= t1.insert(0, t[0]));
        assert(t =~= t1.insert(0, t[0]));
    }
}


/// No entry of `s` holds a quantity of 0.
pub open spec fn positive(s: Seq<(Die, usize)>) -> bool {
    forall|i: int| 0 <= i < s.len() ==> #[trigger] s[i].1 > 0
}

/// A dice expression: how many of each die are queued for rolling, kept in ascending
/// order of side count.
#[derive(Debug)]
pub struct Equation {
    entries: Vec<(Die, usize)>,
}

impl View for Equation {
    type V = Seq<(Die, usize)>;

    closed spec fn view(&self) -> Seq<(Die, usize)> {
        self.entries@
    }
}

impl Default for Equation {
    fn default() -> (r: Self)
        ensures
            r@ == Seq::<(Die, usize)>::empty(),
            quantities(r@) == Map::<Die, usize>::empty(),
    {
        Equation::new()
    }
}

impl Clone for Equation {
    fn clone(&self) -> (r: Self)
        ensures
            r@ == self@,
    {
        proof {
            use_type_invariant(self);
        }
        Equation { entries: self.read() }
    }
}

impl Equation {
    /// Every equation is ascending and rollable.
    #[verifier::type_invariant]
    pub open spec fn wf(self) -> bool {
        ascending(self@) && rollable(self@)
    }

    /// The empty equation.
    pub fn new() -> (r: Self)
        ensures
            r@ == Seq::<(Die, usize)>::empty(),
            quantities(r@) == Map::<Die, usize>::empty(),
    {
        let r = Equation { entries: Vec::new() };
        assert(quantities(r@) =~= Map::<Die, usize>::empty());
        r
    }

    /// Where `d` stands in the entries, or where it would be inserted.
    fn locate(&self, d: Die) -> (r: (usize, bool))
        ensures
            r.0 <= self@.len(),
            forall|i: int| 0 <= i < r.0 ==> #[trigger] self@[i].0.sides < d.sides,
            r.1 ==> r.0 < self@.len() && self@[r.0 as int].0 == d,
            !r.1 ==> forall|i: int|
                r.0 <= i < self@.len() ==> d.sides < #[trigger] self@[i].0.sides,
    {
        proof {
            use_type_invariant(self);
        }
        let mut i: usize = 0;
        while i < self.entries.len()
            invariant
                i <= self@.len(),
                ascending(self@),
                forall|j: int| 0 <= j < i ==> #[trigger] self@[j].0.sides < d.sides,
            decreases self@.len() - i,
        {
            let s = self.entries[i].0.sides;
            if s == d.sides {
                return (i, true);
            }
            if s > d.sides {
                return (i, false);
            }
            i = i + 1;
        }
        (i, false)
    }

    /// How many of `die` are queued; 0 where it is absent.
    pub fn count(&self, die: Die) -> (r: usize)
        ensures
            r == count_in(self@, die),
    {
        proof {
            use_type_invariant(self);
        }
        let (i, found) = self.locate(die);
        if found {
            proof {
                lemma_quantity_at(self@, i as int);
            }
            self.entries[i].1
        } else {
            assert forall|j: int| !key_at(self@, j, die) by {
                if 0 <= j < self@.len() && j < i {
                    assert(self@[j].0.sides < die.sides);
                } else if 0 <= j < self@.len() {
                    assert(die.sides < self@[j].0.sides);
                }
            }
            0
        }
    }

    /// Sets the quantity of `die` to `quantity`, 0 included.
    pub fn set(&mut self, die: Die, quantity: usize)
        requires
            quantity <= die.max_quantity(),
        ensures
            quantities(final(self)@) == quantities(old(self)@).insert(die, quantity),
            positive(old(self)@) && quantity > 0 ==> positive(final(self)@),
    {
        proof {
            use_type_invariant(&*self);
        }
        let (i, found) = self.locate(die);
        let ghost s = self@;
        let mut v = self.read();
        if found {
            v.set(i, (die, quantity));
        } else {
            v.insert(i, (die, quantity));
        }
        self.entries = v;
        let ghost t = self@;
        let ghost m = quantities(s).insert(die, quantity);
        assert(ascending(t)) by {
            assert forall|a: int, b: int| 0 <= a < b < t.len() implies t[a].0.sides
                < t[b].0.sides by {
                if !found {
                    if b == i {
                        if a < i {
                            assert(s[a].0.sides < die.sides);
                        }
                    } else if a == i {
                        assert(die.sides < s[b - 1].0.sides);
                    } else if a > i {
                        assert(s[a - 1].0.sides < s[b - 1].0.sides);
                    } else if b > i {
                        assert(s[a].0.sides < s[b - 1].0.sides);
                    }
                }
            }
        }
        assert(rollable(t)) by {
            assert forall|a: int| 0 <= a < t.len() implies #[trigger] t[a].1 <= t[a].0.max_quantity() by {
                if !found && a > i {
                    assert(t[a] == s[a - 1]);
                } else if a != i {
                    assert(t[a] == s[a]);
                }
            }
        }
        assert(quantities(t) =~= m) by {
            assert forall|k: Die| #[trigger] m.contains_key(k) implies quantities(t).contains_key(k)
                && quantities(t)[k] == m[k] by {
                if k == die {
                    lemma_quantity_at(t, i as int);
                } else {
                    let j = choose|j: int| key_at(s, j, k);
                    assert(key_at(s, j, k));
                    lemma_quantity_at(s, j);
                    let j2 = if !found && j >= i {
                        j + 1
                    } else {
                        j
                    };
                    assert(t[j2] == s[j]);
                    lemma_quantity_at(t, j2);
                }
            }
            assert forall|k: Die| #[trigger] quantities(t).contains_key(k) implies m.contains_key(
                k,
            ) by {
                let j = choose|j: int| key_at(t, j, k);
                assert(key_at(t, j, k));
                if k != die {
                    let j2 = if !found && j > i {
                        j - 1
                    } else {
                        j
                    };
                    assert(key_at(s, j2, k));
                }
            }
        }
        assert(positive(s) && quantity > 0 ==> positive(t)) by {
            if positive(s) && quantity > 0 {
                assert forall|a: int| 0 <= a < t.len() implies #[trigger] t[a].1 > 0 by {
                    if !found && a > i {
                        assert(t[a] == s[a - 1]);
                    } else if a != i {
                        assert(t[a] == s[a]);
                    }
                }
            }
        }
    }

    /// An independent copy of the entries, in ascending order of side count.
    pub fn read(&self) -> (r: Vec<(Die, usize)>)
        ensures
            r@ == self@,
    {
        let mut r: Vec<(Die, usize)> = Vec::new();
        let mut i: usize = 0;
        while i < self.entries.len()
            invariant
                i <= self@.len(),
                r@ == self@.subrange(0, i as int),
            decreases self@.len() - i,
        {
            r.push(self.entries[i]);
            i = i + 1;
            assert(r@ =~= self@.subrange(0, i as int));
        }
        assert(r@ =~= self@);
        r
    }

    /// Empties the equation.
    pub fn clear(&mut self)
        ensures
            final(self)@ == Seq::<(Die, usize)>::empty(),
            quantities(final(self)@) == Map::<Die, usize>::empty(),
    {
        self.entries = Vec::new();
        assert(quantities(self@) =~= Map::<Die, usize>::empty());
    }

    /// Adds one `die`: its quantity goes up by one, from 0 where it was absent.
    pub fn add(&mut self, die: Die)
        requires
            count_in(old(self)@, die) < die.max_quantity(),
        ensures
            quantities(final(self)@) == quantities(old(self)@).insert(
                die,
                (count_in(old(self)@, die) + 1) as usize,
            ),
            count_in(final(self)@, die) == count_in(old(self)@, die) + 1,
            positive(old(self)@) ==> positive(final(self)@),
    {
        let c = self.count(die);
        assert(c + 1 <= die.max_quantity() <= usize::MAX) by (nonlinear_arith)
            requires
                die.top_face() >= 1,
                c < die.max_quantity(),
                die.max_quantity() == usize::MAX as nat / die.top_face(),
        ;
        self.set(die, c + 1);
    }

    /// Takes away one `die`: a quantity that would drop below 1 removes the die, and a
    /// die that is absent is left absent.
    pub fn subtract(&mut self, die: Die)
        ensures
            count_in(old(self)@, die) > 1 ==> quantities(final(self)@) == quantities(
                old(self)@,
            ).insert(die, (count_in(old(self)@, die) - 1) as usize),
            count_in(old(self)@, die) <= 1 ==> quantities(final(self)@) == quantities(
                old(self)@,
            ).remove(die),
            count_in(final(self)@, die) == if count_in(old(self)@, die) > 1 {
                count_in(old(self)@, die) - 1
            } else {
                0
            },
            positive(old(self)@) ==> positive(final(self)@),
    {
        proof {
            use_type_invariant(&*self);
        }
        let (i, found) = self.locate(die);
        let ghost s = self@;
        if found {
            proof {
                lemma_quantity_at(s, i as int);
            }
            let q = self.entries[i].1;
            if q > 1 {
                assert(s[i as int].1 <= s[i as int].0.max_quantity());
                self.set(die, q - 1);
            } else {
                self.remove_at(i);
            }
        } else {
            assert forall|j: int| !key_at(s, j, die) by {
                if 0 <= j < s.len() && j < i {
                    assert(s[j].0.sides < die.sides);
                } else if 0 <= j < s.len() {
                    assert(die.sides < s[j].0.sides);
                }
            }
            assert(quantities(s).remove(die) =~= quantities(s));
        }
    }

    /// Drops entry `i`.
    fn remove_at(&mut self, i: usize)
        requires
            i < old(self)@.len(),
        ensures
            quantities(final(self)@) == quantities(old(self)@).remove(old(self)@[i as int].0),
            positive(old(self)@) ==> positive(final(self)@),
    {
        proof {
            use_type_invariant(&*self);
        }
        let ghost s = self@;
        let ghost die = s[i as int].0;
        let mut v = self.read();
        v.remove(i);
        self.entries = v;
        let ghost t = self@;
        assert(t =~= s.remove(i as int));
        let ghost m = quantities(s).remove(die);
        assert(ascending(t)) by {
            assert forall|a: int, b: int| 0 <= a < b < t.len() implies t[a].0.sides
                < t[b].0.sides by {
                if a >= i {
                    assert(s[a + 1].0.sides < s[b + 1].0.sides);
                } else if b >= i {
                    assert(s[a].0.sides < s[b + 1].0.sides);
                } else {
                    assert(s[a].0.sides < s[b].0.sides);
                }
            }
        }
        assert(rollable(t)) by {
            assert forall|a: int| 0 <= a < t.len() implies #[trigger] t[a].1 <= t[a].0.max_quantity() by {
                if a >= i {
                    assert(t[a] == s[a + 1]);
                } else {
                    assert(t[a] == s[a]);
                }
            }
        }
        assert(quantities(t) =~= m) by {
            assert forall|k: Die| #[trigger] m.contains_key(k) implies quantities(t).contains_key(k)
                && quantities(t)[k] == m[k] by {
                let j = choose|j: int| key_at(s, j, k);
                assert(key_at(s, j, k));
                lemma_quantity_at(s, j);
                assert(j != i);
                let j2 = if j > i {
                    j - 1
                } else {
                    j
                };
                assert(t[j2] == s[j]);
                lemma_quantity_at(t, j2);
            }
            assert forall|k: Die| #[trigger] quantities(t).contains_key(k) implies m.contains_key(
                k,
            ) by {
                let j = choose|j: int| key_at(t, j, k);
                assert(key_at(t, j, k));
                let j2 = if j >= i {
                    j + 1
                } else {
                    j
                };
                assert(key_at(s, j2, k));
                if k == die {
                    assert(s[j2].0.sides == s[i as int].0.sides);
                }
            }
        }
        assert(positive(s) ==> positive(t)) by {
            if positive(s) {
                assert forall|a: int| 0 <= a < t.len() implies #[trigger] t[a].1 > 0 by {
                    if a >= i {
                        assert(t[a] == s[a + 1]);
                    } else {
                        assert(t[a] == s[a]);
                    }
                }
            }
        }
    }

    /// Renders the entries in ascending order as `{quantity}d{sides}`, joined by
    /// `" + "`; the empty equation renders as the empty string.
    pub fn to_string(self) -> (r: String)
        ensures
            r@ == equation_text(self@),
    {
        let mut eq = String::new();
        let mut i: usize = 0;
        let ghost terms = self@.map_values(|e: (Die, usize)| term_text(e));
        proof {
            reveal_strlit(" + ");
        }
        while i < self.entries.len()
            invariant
                i <= self@.len(),
                terms == self@.map_values(|e: (Die, usize)| term_text(e)),
                eq@ == join(terms.subrange(0, i as int), plus_sep()),
                " + "@ == plus_sep(),
            decreases self@.len() - i,
        {
            let (d, n) = self.entries[i];
            let ghost before = eq@;
            if i > 0 {
                eq.append(" + ");
            }
            push_decimal(&mut eq, n);
            let dt = d.to_string();
            eq.append(dt.as_str());
            proof {
                assert(terms.subrange(0, i as int + 1) =~= terms.subrange(0, i as int).push(
                    terms[i as int],
                ));
                lemma_join_push(terms.subrange(0, i as int), plus_sep(), terms[i as int]);
                if i > 0 {
                    assert(eq@ =~= before + plus_sep() + terms[i as int]);
                } else {
                    assert(eq@ =~= terms[i as int]);
                }
            }
            i = i + 1;
        }
        assert(terms.subrange(0, i as int) =~= terms);
        eq
    }
}


/// A die that an equation does not name counts 0, and no count is ever negative.
pub proof fn lemma_absent_counts_zero(e: Equation, d: Die)
    requires
        !quantities(e@).contains_key(d),
    ensures
        count_in(e@, d) == 0,
        forall|k: Die| count_in(e@, k) >= 0,
{
}

/// The text of an equation depends only on how many of each die it holds, never on
/// the order in which they were added, and lists the dice by ascending side count.
pub proof fn lemma_text_canonical(a: Equation, b: Equation)
    requires
        a.wf(),
        b.wf(),
        quantities(a@) == quantities(b@),
    ensures
        equation_text(a@) == equation_text(b@),
        forall|i: int, j: int| 0 <= i < j < a@.len() ==> a@[i].0.sides < a@[j].0.sides,
{
    lemma_canonical_order(a@, b@);
}

} // verus!
