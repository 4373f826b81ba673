//! A linear objective over literals and integer variables.

use vstd::prelude::*;
use crate::assignments::Assignments;
use crate::literal::Literal;
use crate::predicate::DomainId;
use crate::solution::Solution;

verus! {

/// An integer variable with the weight that it has in a function.
#[derive(Clone, Copy, Debug, PartialEq, Eq, Structural)]
pub struct WeightedInteger {
    pub integer_variable: DomainId,
    pub weight: u64,
}

/// A literal with the weight that it has in a function.
#[derive(Clone, Copy, Debug, PartialEq, Eq, Structural)]
pub struct WeightedLiteral {
    pub literal: Literal,
    pub weight: u64,
}

/// The weight that `terms` give to `literal`, if they hold it.
pub open spec fn literal_weight(terms: Seq<WeightedLiteral>, literal: Literal) -> Option<u64> {
    if exists|i: int| 0 <= i < terms.len() && terms[i].literal == literal {
        Some(terms[choose|i: int| 0 <= i < terms.len() && terms[i].literal == literal].weight)
    } else {
        None
    }
}

/// The weight that `terms` give to `variable`, if they hold it.
pub open spec fn integer_weight(terms: Seq<WeightedInteger>, variable: DomainId) -> Option<u64> {
    if exists|i: int| 0 <= i < terms.len() && terms[i].integer_variable == variable {
        Some(
            terms[choose|i: int| 0 <= i < terms.len() && terms[i].integer_variable
                == variable].weight,
        )
    } else {
        None
    }
}

pub open spec fn distinct_literals(terms: Seq<WeightedLiteral>) -> bool {
    forall|i: int, j: int|
        0 <= i < j < terms.len() ==> (#[trigger] terms[i]).literal != (#[trigger] terms[j]).literal
}

pub open spec fn distinct_integers(terms: Seq<WeightedInteger>) -> bool {
    forall|i: int, j: int|
        0 <= i < j < terms.len() ==> (#[trigger] terms[i]).integer_variable != (
        #[trigger] terms[j]).integer_variable
}

/// The sum of the weights of the first `n` literals that `solution` makes
/// true.
pub open spec fn literal_part(terms: Seq<WeightedLiteral>, solution: &Solution, n: int) -> int
    decreases n,
{
    if n <= 0 {
        0
    } else {
        literal_part(terms, solution, n - 1) + if solution.satisfies(
            terms[n - 1].literal.predicate(),
        ) {
            terms[n - 1].weight as int
        } else {
            0
        }
    }
}

/// The sum over the first `n` variables of weight times value in
/// `solution`.
pub open spec fn integer_part(terms: Seq<WeightedInteger>, solution: &Solution, n: int) -> int
    decreases n,
{
    if n <= 0 {
        0
    } else {
        integer_part(terms, solution, n - 1) + terms[n - 1].weight * solution.value(
            terms[n - 1].integer_variable,
        )
    }
}

/// The sum of the weights of the first `n` literals that `store` makes true.
pub open spec fn assigned_literal_part(terms: Seq<WeightedLiteral>, store: &Assignments, n: int) -> int
    decreases n,
{
    if n <= 0 {
        0
    } else {
        assigned_literal_part(terms, store, n - 1) + if store.satisfies(
            terms[n - 1].literal.predicate(),
        ) {
            terms[n - 1].weight as int
        } else {
            0
        }
    }
}

/// The sum over the first `n` variables of weight times lower bound in
/// `store`.
pub open spec fn assigned_integer_part(terms: Seq<WeightedInteger>, store: &Assignments, n: int) -> int
    decreases n,
{
    if n <= 0 {
        0
    } else {
        assigned_integer_part(terms, store, n - 1) + terms[n - 1].weight * store.lower(
            terms[n - 1].integer_variable,
        )
    }
}

/// A weighted sum of literals and integer variables plus a constant. No
/// literal and no variable occurs twice.
#[derive(Debug)]
pub struct Function {
    weighted_literals: Vec<WeightedLiteral>,
    weighted_integers: Vec<WeightedInteger>,
    constant_term: u64,
}

impl Clone for Function {
    fn clone(&self) -> (r: Function)
        ensures
            r.literal_terms() == self.literal_terms(),
            r.integer_terms() == self.integer_terms(),
            r.constant() == self.constant(),
    {
        let mut weighted_literals: Vec<WeightedLiteral> = Vec::new();
        let mut i: usize = 0;
        while i < self.weighted_literals.len()
            invariant
                i <= self.weighted_literals.len(),
                weighted_literals@ == self.weighted_literals@.take(i as int),
            decreases self.weighted_literals.len() - i,
        {
            weighted_literals.push(self.weighted_literals[i]);
            proof {
                assert(self.weighted_literals@.take(i + 1) =~= self.weighted_literals@.take(
                    i as int,
                ).push(self.weighted_literals@[i as int]));
            }
            i += 1;
        }
        let mut weighted_integers: Vec<WeightedInteger> = Vec::new();
        let mut j: usize = 0;
        while j < self.weighted_integers.len()
            invariant
                j <= self.weighted_integers.len(),
                weighted_integers@ == self.weighted_integers@.take(j as int),
            decreases self.weighted_integers.len() - j,
        {
            weighted_integers.push(self.weighted_integers[j]);
            proof {
                assert(self.weighted_integers@.take(j + 1) =~= self.weighted_integers@.take(
                    j as int,
                ).push(self.weighted_integers@[j as int]));
            }
            j += 1;
        }
        proof {
            assert(self.weighted_literals@.take(i as int) =~= self.weighted_literals@);
            assert(self.weighted_integers@.take(j as int) =~= self.weighted_integers@);
        }
        Function { weighted_literals, weighted_integers, constant_term: self.constant_term }
    }
}

impl Function {
    /// The weighted literals, in no particular order.
    pub closed spec fn literal_terms(&self) -> Seq<WeightedLiteral> {
        self.weighted_literals@
    }

    /// The weighted integer variables, in no particular order.
    pub closed spec fn integer_terms(&self) -> Seq<WeightedInteger> {
        self.weighted_integers@
    }

    /// The constant term.
    pub closed spec fn constant(&self) -> u64 {
        self.constant_term
    }

    /// No literal and no variable occurs twice.
    pub open spec fn wf(&self) -> bool {
        distinct_literals(self.literal_terms()) && distinct_integers(self.integer_terms())
    }

    /// The weight of `literal`, if it has one.
    pub open spec fn weight_of_literal(&self, literal: Literal) -> Option<u64> {
        literal_weight(self.literal_terms(), literal)
    }

    /// The weight of `variable`, if it has one.
    pub open spec fn weight_of_integer(&self, variable: DomainId) -> Option<u64> {
        integer_weight(self.integer_terms(), variable)
    }

    pub fn new() -> (r: Function)
        ensures
            r.wf(),
            r.literal_terms() == Seq::<WeightedLiteral>::empty(),
            r.integer_terms() == Seq::<WeightedInteger>::empty(),
            r.constant() == 0,
    {
        Function {
            weighted_literals: Vec::new(),
            weighted_integers: Vec::new(),
            constant_term: 0,
        }
    }

    fn find_literal(&self, literal: Literal) -> (r: Option<usize>)
        requires
            self.wf(),
        ensures
            match r {
                Some(i) => i < self.literal_terms().len() && self.literal_terms()[i as int].literal
                    == literal && self.weight_of_literal(literal) == Some(
                    self.literal_terms()[i as int].weight,
                ),
                None => self.weight_of_literal(literal) is None && forall|k: int|
                    0 <= k < self.literal_terms().len() ==> self.literal_terms()[k].literal
                        != literal,
            },
    {
        let mut i: usize = 0;
        while i < self.weighted_literals.len()
            invariant
                self.wf(),
                i <= self.weighted_literals.len(),
                forall|k: int| 0 <= k < i ==> self.weighted_literals@[k].literal != literal,
            decreases self.weighted_literals.len() - i,
        {
            if self.weighted_literals[i].literal == literal {
                proof {
                    lemma_literal_weight(self.literal_terms(), i as int);
                }
                return Some(i);
            }
            i += 1;
        }
        None
    }

    fn find_integer(&self, variable: DomainId) -> (r: Option<usize>)
        requires
            self.wf(),
        ensures
            match r {
                Some(i) => i < self.integer_terms().len()
                    && self.integer_terms()[i as int].integer_variable == variable
                    && self.weight_of_integer(variable) == Some(
                    self.integer_terms()[i as int].weight,
                ),
                None => self.weight_of_integer(variable) is None && forall|k: int|
                    0 <= k < self.integer_terms().len()
                        ==> self.integer_terms()[k].integer_variable != variable,
            },
    {
        let mut i: usize = 0;
        while i < self.weighted_integers.len()
            invariant
                self.wf(),
                i <= self.weighted_integers.len(),
                forall|k: int|
                    0 <= k < i ==> self.weighted_integers@[k].integer_variable != variable,
            decreases self.weighted_integers.len() - i,
        {
            if self.weighted_integers[i].integer_variable == variable {
                proof {
                    lemma_integer_weight(self.integer_terms(), i as int);
                }
                return Some(i);
            }
            i += 1;
        }
        None
    }

    /// Sets the weight of `literal`, which may or may not have one.
    fn set_literal_weight(&mut self, literal: Literal, weight: u64)
        requires
            old(self).wf(),
        ensures
            final(self).wf(),
            final(self).integer_terms() == old(self).integer_terms(),
            final(self).constant() == old(self).constant(),
            final(self).weight_of_literal(literal) == Some(weight),
            forall|l: Literal|
                l != literal ==> final(self).weight_of_literal(l) == old(self).weight_of_literal(l),
    {
        let ghost before = self.weighted_literals@;
        match self.find_literal(literal) {
            Some(i) => {
                self.weighted_literals[i] = WeightedLiteral { literal, weight };
                proof {
                    let after = self.weighted_literals@;
                    assert forall|a: int, b: int| 0 <= a < b < after.len() implies (
                    #[trigger] after[a]).literal != (#[trigger] after[b]).literal by {
                        assert(before[a].literal != before[b].literal);
                    }
                    lemma_literal_weight(after, i as int);
                    assert forall|l: Literal| l != literal implies literal_weight(after, l)
                        == literal_weight(before, l) by {
                        lemma_literal_weight_same(before, after, l);
                    }
                }
            },
            None => {
                self.weighted_literals.push(WeightedLiteral { literal, weight });
                proof {
                    let after = self.weighted_literals@;
                    lemma_literal_weight(after, after.len() - 1);
                    assert forall|l: Literal| l != literal implies literal_weight(after, l)
                        == literal_weight(before, l) by {
                        lemma_literal_weight_same(before, after, l);
                    }
                }
            },
        }
    }

    /// Takes `literal`, which has a weight, out of the function.
    fn remove_literal(&mut self, index: usize)
        requires
            old(self).wf(),
            index < old(self).literal_terms().len(),
        ensures
            final(self).wf(),
            final(self).integer_terms() == old(self).integer_terms(),
            final(self).constant() == old(self).constant(),
            final(self).weight_of_literal(old(self).literal_terms()[index as int].literal) is None,
            forall|l: Literal|
                l != old(self).literal_terms()[index as int].literal
                    ==> final(self).weight_of_literal(l) == old(self).weight_of_literal(l),
    {
        let ghost before = self.weighted_literals@;
        let _ = self.weighted_literals.remove(index);
        proof {
            let after = self.weighted_literals@;
            let gone = before[index as int].literal;
            assert forall|a: int| 0 <= a < after.len() implies #[trigger] after[a] == before[if a
                < index {
                a
            } else {
                a + 1
            }] by {}
            assert forall|a: int, b: int| 0 <= a < b < after.len() implies (
            #[trigger] after[a]).literal != (#[trigger] after[b]).literal by {
                let a0 = if a < index {
                    a
                } else {
                    a + 1
                };
                let b0 = if b < index {
                    b
                } else {
                    b + 1
                };
                assert(before[a0].literal != before[b0].literal);
            }
            assert forall|k: int| 0 <= k < after.len() implies after[k].literal != gone by {
                let k0 = if k < index {
                    k
                } else {
                    k + 1
                };
                if k0 < index {
                    assert(before[k0].literal != before[index as int].literal);
                } else {
                    assert(before[index as int].literal != before[k0].literal);
                }
            }
            assert forall|l: Literal| l != gone implies literal_weight(after, l) == literal_weight(
                before,
                l,
            ) by {
                if exists|i: int| 0 <= i < before.len() && before[i].literal == l {
                    let i = choose|i: int| 0 <= i < before.len() && before[i].literal == l;
                    let j = if i < index {
                        i
                    } else {
                        i - 1
                    };
                    assert(after[j] == before[i]);
                    lemma_literal_weight(before, i);
                    lemma_literal_weight(after, j);
                } else {
                    if exists|j: int| 0 <= j < after.len() && after[j].literal == l {
                        let j = choose|j: int| 0 <= j < after.len() && after[j].literal == l;
                        let i = if j < index {
                            j
                        } else {
                            j + 1
                        };
                        assert(before[i].literal == l);
                    }
                }
            }
        }
    }

    /// What [`Function::add_weighted_literal`] does. Where the opposite
    /// literal has a weight, the smaller of the two weights moves to the
    /// constant term, and the literal with the greater weight keeps the
    /// difference; where the weights are equal both literals are gone.
    /// Otherwise the weight is added to the weight of the literal.
    pub open spec fn added_literal(&self, old: &Function, literal: Literal, weight: u64) -> bool {
        let opposite = literal.predicate().negation();
        &&& self.integer_terms() == old.integer_terms()
        &&& (forall|l: Literal|
            l != literal && l.predicate() != opposite ==> self.weight_of_literal(l)
                == old.weight_of_literal(l))
        &&& (forall|l: Literal|
            l.predicate() == opposite ==> match old.weight_of_literal(l) {
                Some(opposite_weight) => {
                    &&& self.constant() == old.constant() + if weight < opposite_weight {
                        weight
                    } else {
                        opposite_weight
                    }
                    &&& self.weight_of_literal(l) == if weight < opposite_weight {
                        Some((opposite_weight - weight) as u64)
                    } else {
                        None
                    }
                    &&& self.weight_of_literal(literal) == if weight > opposite_weight {
                        Some((weight - opposite_weight) as u64)
                    } else {
                        old.weight_of_literal(literal)
                    }
                },
                None => {
                    &&& self.constant() == old.constant()
                    &&& self.weight_of_literal(l) is None
                    &&& self.weight_of_literal(literal) == Some(
                        (match old.weight_of_literal(literal) {
                            Some(w) => w + weight,
                            None => weight as int,
                        }) as u64,
                    )
                },
            })
    }

    /// Whether adding `weight` for `literal` stays within the machine
    /// integers.
    pub open spec fn can_add_literal(&self, literal: Literal, weight: u64) -> bool {
        forall|l: Literal|
            l.predicate() == literal.predicate().negation() ==> match self.weight_of_literal(l) {
                Some(opposite_weight) => self.constant() + if weight < opposite_weight {
                    weight
                } else {
                    opposite_weight
                } <= u64::MAX,
                None => match self.weight_of_literal(literal) {
                    Some(w) => w + weight <= u64::MAX,
                    None => true,
                },
            }
    }

    /// Adds `weight` times `literal` to the function.
    ///
    /// We want to avoid the situation where both polarities of a variable
    /// have a weight: in case that happens, we keep a weight for one of the
    /// two polarities, and factor in the obligatory cost in the constant
    /// term.
    pub fn add_weighted_literal(&mut self, literal: Literal, weight: u64)
        requires
            old(self).wf(),
            old(self).can_add_literal(literal, weight),
        ensures
            final(self).wf(),
            final(self).added_literal(old(self), literal, weight),
    {
        let negative_literal = literal.negate();
        proof {
            assert(negative_literal != literal);
            assert forall|l: Literal|
                l.predicate() == literal.predicate().negation() implies l == negative_literal by {
                crate::literal::lemma_literal_is_its_predicate(l, negative_literal);
            }
        }
        match self.find_literal(negative_literal) {
            Some(index) => {
                let opposite_weight = self.weighted_literals[index].weight;
                if weight < opposite_weight {
                    self.set_literal_weight(negative_literal, opposite_weight - weight);
                    self.constant_term += weight;
                } else if weight == opposite_weight {
                    self.remove_literal(index);
                    self.constant_term += weight;
                } else {
                    let diff = weight - opposite_weight;
                    self.constant_term += opposite_weight;
                    self.remove_literal(index);
                    self.set_literal_weight(literal, diff);
                }
            },
            None => {
                match self.find_literal(literal) {
                    Some(index) => {
                        let current = self.weighted_literals[index].weight;
                        self.set_literal_weight(literal, current + weight);
                    },
                    None => {
                        self.set_literal_weight(literal, weight);
                    },
                }
            },
        }
    }

    /// Adds `weight` times `integer_variable` to the function.
    pub fn add_weighted_integer(&mut self, integer_variable: DomainId, weight: u64)
        requires
            old(self).wf(),
            old(self).weight_of_integer(integer_variable) matches Some(w) ==> w + weight
                <= u64::MAX,
        ensures
            final(self).wf(),
            final(self).literal_terms() == old(self).literal_terms(),
            final(self).constant() == old(self).constant(),
            final(self).weight_of_integer(integer_variable) == Some(
                (match old(self).weight_of_integer(integer_variable) {
                    Some(w) => w + weight,
                    None => weight as int,
                }) as u64,
            ),
            forall|x: DomainId|
                x != integer_variable ==> final(self).weight_of_integer(x) == old(self).weight_of_integer(x),
    {
        let ghost before = self.weighted_integers@;
        match self.find_integer(integer_variable) {
            Some(i) => {
                let current = self.weighted_integers[i].weight;
                self.weighted_integers[i] = WeightedInteger {
                    integer_variable,
                    weight: current + weight,
                };
                proof {
                    let after = self.weighted_integers@;
                    assert forall|a: int, b: int| 0 <= a < b < after.len() implies (
                    #[trigger] after[a]).integer_variable != (
                    #[trigger] after[b]).integer_variable by {
                        assert(before[a].integer_variable != before[b].integer_variable);
                    }
                    lemma_integer_weight(after, i as int);
                    assert forall|x: DomainId| x != integer_variable implies integer_weight(
                        after,
                        x,
                    ) == integer_weight(before, x) by {
                        lemma_integer_weight_same(before, after, x);
                    }
                }
            },
            None => {
                self.weighted_integers.push(WeightedInteger { integer_variable, weight });
                proof {
                    let after = self.weighted_integers@;
                    lemma_integer_weight(after, after.len() - 1);
                    assert forall|x: DomainId| x != integer_variable implies integer_weight(
                        after,
                        x,
                    ) == integer_weight(before, x) by {
                        lemma_integer_weight_same(before, after, x);
                    }
                }
            },
        }
    }

    /// Adds `value` to the constant term.
    pub fn add_constant_term(&mut self, value: u64)
        requires
            old(self).constant() + value <= u64::MAX,
        ensures
            final(self).constant() == old(self).constant() + value,
            final(self).literal_terms() == old(self).literal_terms(),
            final(self).integer_terms() == old(self).integer_terms(),
    {
        self.constant_term += value;
    }

    /// The weighted literals, each once, in no particular order.
    pub fn get_weighted_literals(&self) -> (r: &[WeightedLiteral])
        ensures
            r@ == self.literal_terms(),
    {
        self.weighted_literals.as_slice()
    }

    /// The weighted integer variables, each once, in no particular order.
    pub fn get_weighted_integers(&self) -> (r: &[WeightedInteger])
        ensures
            r@ == self.integer_terms(),
    {
        self.weighted_integers.as_slice()
    }

    pub fn get_constant_term(&self) -> (r: u64)
        ensures
            r == self.constant(),
    {
        self.constant_term
    }

    pub fn is_empty(&self) -> (r: bool)
        ensures
            r == (self.integer_terms().len() == 0 && self.literal_terms().len() == 0
                && self.constant() == 0),
    {
        self.weighted_integers.len() == 0 && self.weighted_literals.len() == 0
            && self.constant_term == 0
    }

    /// Whether `solution` has a value for each variable of the function, and
    /// none below zero for a weighted integer variable.
    pub open spec fn covered_by(&self, solution: &Solution) -> bool {
        &&& (forall|i: int|
            0 <= i < self.literal_terms().len() ==> (
            #[trigger] self.literal_terms()[i]).literal.predicate().domain().index()
                < solution.num_domains())
        &&& (forall|i: int|
            0 <= i < self.integer_terms().len() ==> (
            #[trigger] self.integer_terms()[i]).integer_variable.index() < solution.num_domains()
                && solution.value(self.integer_terms()[i].integer_variable) >= 0)
    }

    /// The value of the weighted literals and variables in `solution`; the
    /// constant term is not part of it.
    pub open spec fn value_in(&self, solution: &Solution) -> int {
        literal_part(self.literal_terms(), solution, self.literal_terms().len() as int)
            + integer_part(self.integer_terms(), solution, self.integer_terms().len() as int)
    }

    /// The value of the weighted terms in `solution`, without the constant
    /// term.
    pub fn evaluate_solution(&self, solution: &Solution) -> (r: u64)
        requires
            self.covered_by(solution),
            self.value_in(solution) <= u64::MAX,
        ensures
            r == self.value_in(solution),
    {
        let mut value: u64 = 0;
        let ghost literals = self.literal_terms();
        let ghost integers = self.integer_terms();
        //add the contribution of the propositional part
        let mut i: usize = 0;
        while i < self.weighted_literals.len()
            invariant
                literals == self.weighted_literals@,
                integers == self.weighted_integers@,
                self.covered_by(solution),
                self.value_in(solution) <= u64::MAX,
                i <= literals.len(),
                value == literal_part(literals, solution, i as int),
            decreases literals.len() - i,
        {
            let literal = self.weighted_literals[i].literal;
            let weight = self.weighted_literals[i].weight;
            proof {
                lemma_literal_part_monotone(literals, solution, i + 1, literals.len() as int);
                lemma_integer_part_nonnegative(integers, solution, integers.len() as int);
            }
            if solution.get_literal_value(literal) {
                value += weight;
            }
            i += 1;
        }
        //add the contribution of the integer part
        let mut j: usize = 0;
        while j < self.weighted_integers.len()
            invariant
                literals == self.weighted_literals@,
                integers == self.weighted_integers@,
                self.covered_by(solution),
                self.value_in(solution) <= u64::MAX,
                j <= integers.len(),
                value == literal_part(literals, solution, literals.len() as int) + integer_part(
                    integers,
                    solution,
                    j as int,
                ),
            decreases integers.len() - j,
        {
            let integer_variable = self.weighted_integers[j].integer_variable;
            let weight = self.weighted_integers[j].weight;
            proof {
                lemma_integer_part_monotone(integers, solution, j + 1, integers.len() as int);
                lemma_integer_part_nonnegative(integers, solution, j as int);
                lemma_literal_part_monotone(literals, solution, 0, literals.len() as int);
                assert(weight * solution.value(integer_variable) >= 0) by (nonlinear_arith)
                    requires
                        weight >= 0,
                        solution.value(integer_variable) >= 0,
                ;
            }
            value += weight * (solution.get_integer_value(integer_variable) as u64);
            j += 1;
        }
        value
    }

    /// Whether `store` fixes each variable of the function, to no value
    /// below zero for a weighted integer variable.
    pub open spec fn decided_by(&self, store: &Assignments) -> bool {
        &&& (forall|i: int|
            0 <= i < self.literal_terms().len() ==> {
                let p = (#[trigger] self.literal_terms()[i]).literal.predicate();
                store.has(p.domain()) && (store.satisfies(p) || store.falsifies(p))
            })
        &&& (forall|i: int|
            0 <= i < self.integer_terms().len() ==> {
                let x = (#[trigger] self.integer_terms()[i]).integer_variable;
                store.has(x) && store.is_fixed(x) && store.lower(x) >= 0
            })
    }

    /// The value of the function under `store`, with the constant term.
    pub open spec fn value_under(&self, store: &Assignments) -> int {
        self.constant() + assigned_literal_part(
            self.literal_terms(),
            store,
            self.literal_terms().len() as int,
        ) + assigned_integer_part(self.integer_terms(), store, self.integer_terms().len() as int)
    }

    /// The value of the function, with its constant term, under a store
    /// that fixes its literals and variables.
    pub fn evaluate_assignment(&self, assignments: &Assignments) -> (r: u64)
        requires
            assignments.wf(),
            self.decided_by(assignments),
            self.value_under(assignments) <= u64::MAX,
        ensures
            r == self.value_under(assignments),
    {
        let mut value: u64 = self.constant_term;
        let ghost literals = self.literal_terms();
        let ghost integers = self.integer_terms();
        //add the contribution of the propositional part
        let mut i: usize = 0;
        while i < self.weighted_literals.len()
            invariant
                assignments.wf(),
                literals == self.weighted_literals@,
                integers == self.weighted_integers@,
                self.decided_by(assignments),
                self.value_under(assignments) <= u64::MAX,
                i <= literals.len(),
                value == self.constant_term + assigned_literal_part(
                    literals,
                    assignments,
                    i as int,
                ),
            decreases literals.len() - i,
        {
            let literal = self.weighted_literals[i].literal;
            let weight = self.weighted_literals[i].weight;
            proof {
                lemma_assigned_literal_part_monotone(
                    literals,
                    assignments,
                    i + 1,
                    literals.len() as int,
                );
                lemma_assigned_integer_part_nonnegative(
                    integers,
                    assignments,
                    integers.len() as int,
                );
                assert(assignments.has(literals[i as int].literal.predicate().domain()));
            }
            if assignments.is_predicate_satisfied(literal.get_predicate()) {
                value += weight;
            }
            i += 1;
        }
        //add the contribution of the integer part
        let mut j: usize = 0;
        while j < self.weighted_integers.len()
            invariant
                assignments.wf(),
                literals == self.weighted_literals@,
                integers == self.weighted_integers@,
                self.decided_by(assignments),
                self.value_under(assignments) <= u64::MAX,
                j <= integers.len(),
                value == self.constant_term + assigned_literal_part(
                    literals,
                    assignments,
                    literals.len() as int,
                ) + assigned_integer_part(integers, assignments, j as int),
            decreases integers.len() - j,
        {
            let integer_variable = self.weighted_integers[j].integer_variable;
            let weight = self.weighted_integers[j].weight;
            proof {
                lemma_assigned_integer_part_monotone(
                    integers,
                    assignments,
                    j + 1,
                    integers.len() as int,
                );
                lemma_assigned_integer_part_nonnegative(integers, assignments, j as int);
                lemma_assigned_literal_part_monotone(
                    literals,
                    assignments,
                    0,
                    literals.len() as int,
                );
                let x = integers[j as int].integer_variable;
                assert(assignments.has(x) && assignments.lower(x) >= 0);
                assert(weight * assignments.lower(integer_variable) >= 0) by (nonlinear_arith)
                    requires
                        weight >= 0,
                        assignments.lower(integer_variable) >= 0,
                ;
            }
            value += weight * (assignments.get_assigned_value(integer_variable) as u64);
            j += 1;
        }
        value
    }
}

proof fn lemma_literal_weight(terms: Seq<WeightedLiteral>, i: int)
    requires
        distinct_literals(terms),
        0 <= i < terms.len(),
    ensures
        literal_weight(terms, terms[i].literal) == Some(terms[i].weight),
{
    let l = terms[i].literal;
    let j = choose|j: int| 0 <= j < terms.len() && terms[j].literal == l;
    if j < i {
        assert(terms[j].literal != terms[i].literal);
    }
    if i < j {
        assert(terms[i].literal != terms[j].literal);
    }
}

proof fn lemma_integer_weight(terms: Seq<WeightedInteger>, i: int)
    requires
        distinct_integers(terms),
        0 <= i < terms.len(),
    ensures
        integer_weight(terms, terms[i].integer_variable) == Some(terms[i].weight),
{
    let x = terms[i].integer_variable;
    let j = choose|j: int| 0 <= j < terms.len() && terms[j].integer_variable == x;
    if j < i {
        assert(terms[j].integer_variable != terms[i].integer_variable);
    }
    if i < j {
        assert(terms[i].integer_variable != terms[j].integer_variable);
    }
}

/// Two lists that agree on the terms of all literals but one give the other
/// literals the same weights: here the second list is the first with one
/// term replaced or appended.
proof fn lemma_literal_weight_same(
    before: Seq<WeightedLiteral>,
    after: Seq<WeightedLiteral>,
    l: Literal,
)
    requires
        distinct_literals(before),
        distinct_literals(after),
        before.len() <= after.len() <= before.len() + 1,
        forall|k: int|
            0 <= k < before.len() && (before[k].literal == l || after[k].literal == l)
                ==> before[k] == after[k],
        after.len() > before.len() ==> after[before.len() as int].literal != l,
    ensures
        literal_weight(after, l) == literal_weight(before, l),
{
    if exists|i: int| 0 <= i < before.len() && before[i].literal == l {
        let i = choose|i: int| 0 <= i < before.len() && before[i].literal == l;
        assert(after[i] == before[i]);
        lemma_literal_weight(before, i);
        lemma_literal_weight(after, i);
    } else if exists|j: int| 0 <= j < after.len() && after[j].literal == l {
        let j = choose|j: int| 0 <= j < after.len() && after[j].literal == l;
        assert(before[j] == after[j]);
    }
}

proof fn lemma_integer_weight_same(
    before: Seq<WeightedInteger>,
    after: Seq<WeightedInteger>,
    x: DomainId,
)
    requires
        distinct_integers(before),
        distinct_integers(after),
        before.len() <= after.len() <= before.len() + 1,
        forall|k: int|
            0 <= k < before.len() && (before[k].integer_variable == x || after[k].integer_variable
                == x) ==> before[k] == after[k],
        after.len() > before.len() ==> after[before.len() as int].integer_variable != x,
    ensures
        integer_weight(after, x) == integer_weight(before, x),
{
    if exists|i: int| 0 <= i < before.len() && before[i].integer_variable == x {
        let i = choose|i: int| 0 <= i < before.len() && before[i].integer_variable == x;
        assert(after[i] == before[i]);
        lemma_integer_weight(before, i);
        lemma_integer_weight(after, i);
    } else if exists|j: int| 0 <= j < after.len() && after[j].integer_variable == x {
        let j = choose|j: int| 0 <= j < after.len() && after[j].integer_variable == x;
        assert(before[j] == after[j]);
    }
}

proof fn lemma_literal_part_monotone(
    terms: Seq<WeightedLiteral>,
    solution: &Solution,
    i: int,
    j: int,
)
    requires
        0 <= i <= j <= terms.len(),
    ensures
        0 <= literal_part(terms, solution, i) <= literal_part(terms, solution, j),
    decreases j,
{
    if i < j {
        lemma_literal_part_monotone(terms, solution, i, j - 1);
    } else if j > 0 {
        lemma_literal_part_monotone(terms, solution, i - 1, j - 1);
    }
}

proof fn lemma_integer_part_nonnegative(terms: Seq<WeightedInteger>, solution: &Solution, n: int)
    requires
        0 <= n <= terms.len(),
        forall|i: int|
            0 <= i < terms.len() ==> solution.value((#[trigger] terms[i]).integer_variable) >= 0,
    ensures
        0 <= integer_part(terms, solution, n),
    decreases n,
{
    if n > 0 {
        lemma_integer_part_nonnegative(terms, solution, n - 1);
        let t = terms[n - 1];
        assert(t.weight * solution.value(t.integer_variable) >= 0) by (nonlinear_arith)
            requires
                t.weight >= 0,
                solution.value(t.integer_variable) >= 0,
        ;
    }
}

proof fn lemma_integer_part_monotone(
    terms: Seq<WeightedInteger>,
    solution: &Solution,
    i: int,
    j: int,
)
    requires
        0 <= i <= j <= terms.len(),
        forall|k: int|
            0 <= k < terms.len() ==> solution.value((#[trigger] terms[k]).integer_variable) >= 0,
    ensures
        integer_part(terms, solution, i) <= integer_part(terms, solution, j),
    decreases j,
{
    if i < j {
        lemma_integer_part_monotone(terms, solution, i, j - 1);
        let t = terms[j - 1];
        assert(t.weight * solution.value(t.integer_variable) >= 0) by (nonlinear_arith)
            requires
                t.weight >= 0,
                solution.value(t.integer_variable) >= 0,
        ;
    }
}

proof fn lemma_assigned_literal_part_monotone(
    terms: Seq<WeightedLiteral>,
    store: &Assignments,
    i: int,
    j: int,
)
    requires
        0 <= i <= j <= terms.len(),
    ensures
        0 <= assigned_literal_part(terms, store, i) <= assigned_literal_part(terms, store, j),
    decreases j,
{
    if i < j {
        lemma_assigned_literal_part_monotone(terms, store, i, j - 1);
    } else if j > 0 {
        lemma_assigned_literal_part_monotone(terms, store, i - 1, j - 1);
    }
}

proof fn lemma_assigned_integer_part_nonnegative(
    terms: Seq<WeightedInteger>,
    store: &Assignments,
    n: int,
)
    requires
        0 <= n <= terms.len(),
        forall|i: int|
            0 <= i < terms.len() ==> store.lower((#[trigger] terms[i]).integer_variable) >= 0,
    ensures
        0 <= assigned_integer_part(terms, store, n),
    decreases n,
{
    if n > 0 {
        lemma_assigned_integer_part_nonnegative(terms, store, n - 1);
        let t = terms[n - 1];
        assert(t.weight * store.lower(t.integer_variable) >= 0) by (nonlinear_arith)
            requires
                t.weight >= 0,
                store.lower(t.integer_variable) >= 0,
        ;
    }
}

proof fn lemma_assigned_integer_part_monotone(
    terms: Seq<WeightedInteger>,
    store: &Assignments,
    i: int,
    j: int,
)
    requires
        0 <= i <= j <= terms.len(),
        forall|k: int|
            0 <= k < terms.len() ==> store.lower((#[trigger] terms[k]).integer_variable) >= 0,
    ensures
        assigned_integer_part(terms, store, i) <= assigned_integer_part(terms, store, j),
    decreases j,
{
    if i < j {
        lemma_assigned_integer_part_monotone(terms, store, i, j - 1);
        let t = terms[j - 1];
        assert(t.weight * store.lower(t.integer_variable) >= 0) by (nonlinear_arith)
            requires
                t.weight >= 0,
                store.lower(t.integer_variable) >= 0,
        ;
    }
}

} // verus!
