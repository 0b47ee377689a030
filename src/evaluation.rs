//! Precedence: the order in which the terms of an expression are combined.
//!
//! A Multiply or Divide term is absorbed into the operand of the nearest
//! Add or Subtract term before it (its leader), left to right; once the run
//! of terms that follow a leader ends, the leader is added to or subtracted
//! from the result, which starts at zero. A Multiply or Divide term with no
//! leader (only possible at the start of an expression) contributes nothing.
use vstd::prelude::*;

use crate::expression::{Expression, Literal, TermView};
use crate::term::{additive, OperationKind};

verus! {

/// One operation of the evaluation, over a value per term (each term's
/// operand at the start) and a result (zero at the start).
#[derive(Clone, Copy, Debug, PartialEq, Eq, Structural)]
pub enum Step {
    /// `value[into] := value[into] * value[from]` for Multiply,
    /// `value[into] := value[into] / value[from]` for Divide.
    Absorb { into: usize, from: usize, kind: OperationKind },
    /// `result := result + value[from]` for Add, `result := result - value[from]`
    /// for Subtract.
    Accumulate { from: usize, kind: OperationKind },
}

/// The index of the nearest Add or Subtract term at or before `i`, or -1.
pub open spec fn leader(ks: Seq<OperationKind>, i: int) -> int
    decreases i + 1,
{
    if i < 0 {
        -1
    } else if additive(ks[i]) {
        i
    } else {
        leader(ks, i - 1)
    }
}

/// Term `i` is the last of its run: no Multiply or Divide term follows it.
pub open spec fn ends_run(ks: Seq<OperationKind>, i: int) -> bool {
    i + 1 == ks.len() || additive(ks[i + 1])
}

/// The steps that term `i` causes: its absorption into its leader, then the
/// accumulation of the leader if the run ends here.
pub open spec fn steps_at(ks: Seq<OperationKind>, i: int) -> Seq<Step> {
    let l = leader(ks, i);
    let absorb = if !additive(ks[i]) && l >= 0 {
        seq![Step::Absorb { into: l as usize, from: i as usize, kind: ks[i] }]
    } else {
        Seq::empty()
    };
    let accumulate = if l >= 0 && ends_run(ks, i) {
        seq![Step::Accumulate { from: l as usize, kind: ks[l] }]
    } else {
        Seq::empty()
    };
    absorb + accumulate
}

pub open spec fn steps_upto(ks: Seq<OperationKind>, n: int) -> Seq<Step>
    decreases n,
{
    if n <= 0 {
        Seq::empty()
    } else {
        steps_upto(ks, n - 1) + steps_at(ks, n - 1)
    }
}

/// The steps that evaluate terms of kinds `ks`, term by term.
pub open spec fn evaluation_steps(ks: Seq<OperationKind>) -> Seq<Step> {
    steps_upto(ks, ks.len() as int)
}

/// What a step does to the values of the terms and the result, for numbers
/// of any type `V`; `op(kind, num, other)` is what an operand `num` with
/// operator `kind` makes of `other`.
pub open spec fn run_step<V>(
    state: (Seq<V>, V),
    step: Step,
    op: spec_fn(OperationKind, V, V) -> V,
) -> (Seq<V>, V) {
    let (values, result) = state;
    match step {
        Step::Absorb { into, from, kind } => (
            values.update(into as int, op(kind, values[from as int], values[into as int])),
            result,
        ),
        Step::Accumulate { from, kind } => (values, op(kind, values[from as int], result)),
    }
}

pub open spec fn run_steps<V>(
    steps: Seq<Step>,
    state: (Seq<V>, V),
    op: spec_fn(OperationKind, V, V) -> V,
) -> (Seq<V>, V)
    decreases steps.len(),
{
    if steps.len() == 0 {
        state
    } else {
        run_steps(steps.drop_first(), run_step(state, steps[0], op), op)
    }
}

/// Evaluation on a working copy of the terms: while the term after the
/// first is Multiply or Divide, it is absorbed into the first (if that is
/// Add or Subtract, else dropped); otherwise the first is applied to the
/// result (if it is Add or Subtract) and the scan moves on.
pub open spec fn reduce<V>(
    terms: Seq<(OperationKind, V)>,
    result: V,
    op: spec_fn(OperationKind, V, V) -> V,
) -> V
    decreases terms.len(),
{
    if terms.len() == 0 {
        result
    } else if terms.len() >= 2 && !additive(terms[1].0) {
        let t = terms[0];
        let merged = if additive(t.0) {
            (t.0, op(terms[1].0, terms[1].1, t.1))
        } else {
            t
        };
        reduce(seq![merged] + terms.skip(2), result, op)
    } else {
        let next = if additive(terms[0].0) {
            op(terms[0].0, terms[0].1, result)
        } else {
            result
        };
        reduce(terms.skip(1), next, op)
    }
}

pub open spec fn leader_of(lead: Option<usize>) -> int {
    match lead {
        Some(l) => l as int,
        None => -1,
    }
}

/// The steps that evaluate terms of kinds `kinds`.
pub fn plan(kinds: &Vec<OperationKind>) -> (r: Vec<Step>)
    ensures
        r@ == evaluation_steps(kinds@),
{
    let n = kinds.len();
    let ghost ks = kinds@;
    let mut r: Vec<Step> = Vec::new();
    let mut lead: Option<usize> = None;
    for i in 0..n
        invariant
            n == ks.len(),
            ks == kinds@,
            r@ == steps_upto(ks, i as int),
            leader_of(lead) == leader(ks, i - 1),
            leader_of(lead) < i,
    {
        let ghost before = r@;
        let k = kinds[i];
        if k.is_multiply_or_divide() {
            if let Some(l) = lead {
                r.push(Step::Absorb { into: l, from: i, kind: k });
            }
        } else {
            lead = Some(i);
        }
        assert(leader_of(lead) == leader(ks, i as int));
        if let Some(l) = lead {
            if i + 1 == n || !kinds[i + 1].is_multiply_or_divide() {
                r.push(Step::Accumulate { from: l, kind: kinds[l] });
            }
        }
        assert(r@ =~= before + steps_at(ks, i as int));
    }
    r
}

/// The kinds of the terms of an expression, in order.
pub open spec fn term_kinds(terms: Seq<TermView>) -> Seq<OperationKind> {
    terms.map_values(|t: TermView| t.0)
}

/// The kinds of the terms of a group, in order.
pub open spec fn literal_kinds(terms: Seq<(OperationKind, Seq<char>)>) -> Seq<OperationKind> {
    terms.map_values(|t: (OperationKind, Seq<char>)| t.0)
}

impl Expression {
    /// The steps that evaluate this expression.
    pub fn evaluation_steps(&self) -> (r: Vec<Step>)
        ensures
            r@ == evaluation_steps(term_kinds(self@)),
    {
        let mut kinds: Vec<OperationKind> = Vec::new();
        for i in 0..self.terms.len()
            invariant
                kinds@ =~= term_kinds(self@).take(i as int),
        {
            kinds.push(self.terms[i].kind);
        }
        assert(kinds@ =~= term_kinds(self@));
        plan(&kinds)
    }
}

/// The steps that evaluate the group `group`.
pub fn group_steps(group: &Vec<Literal>) -> (r: Vec<Step>)
    ensures
        r@ == evaluation_steps(literal_kinds(crate::expression::literals_view(group@))),
{
    let ghost ks = literal_kinds(crate::expression::literals_view(group@));
    let mut kinds: Vec<OperationKind> = Vec::new();
    for i in 0..group.len()
        invariant
            ks == literal_kinds(crate::expression::literals_view(group@)),
            kinds@ =~= ks.take(i as int),
    {
        kinds.push(group[i].kind);
    }
    assert(kinds@ =~= ks);
    plan(&kinds)
}

} // verus!
