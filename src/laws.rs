//! What the scanner and the evaluation order guarantee together, for all
//! inputs.
use vstd::prelude::*;

use crate::evaluation::{
    ends_run, evaluation_steps, leader, reduce, run_step, run_steps, steps_at, steps_upto, term_kinds,
    Step,
};
use crate::expression::{
    group_model, group_scan, lemma_scan_stops, parse_model, scan, ErrorView, OperandView, TermView,
};
use crate::term::{additive, operator_of, OperationKind};
use crate::text::{float_literal, normalized, trim_end, trim_start, without_spaces};

verus! {

/// No `*` and no `/` in `s`.
pub open spec fn no_products(s: Seq<char>) -> bool {
    forall|j: int| 0 <= j < s.len() ==> s[j] != '*' && s[j] != '/'
}

proof fn lemma_trim_start_within(s: Seq<char>)
    ensures
        forall|j: int|
            0 <= j < trim_start(s).len() ==> s.contains(#[trigger] trim_start(s)[j]),
    decreases s.len(),
{
    if s.len() > 0 && crate::text::white_space(s[0]) {
        lemma_trim_start_within(s.drop_first());
        assert forall|j: int| 0 <= j < trim_start(s).len() implies s.contains(
            #[trigger] trim_start(s)[j],
        ) by {
            let c = trim_start(s)[j];
            assert(c == trim_start(s.drop_first())[j]);
            assert(s.drop_first().contains(c));
            let k = choose|k: int| 0 <= k < s.drop_first().len() && s.drop_first()[k] == c;
            assert(s[k + 1] == c);
        }
    } else {
        assert forall|j: int| 0 <= j < trim_start(s).len() implies s.contains(
            #[trigger] trim_start(s)[j],
        ) by {
            assert(s[j] == trim_start(s)[j]);
        }
    }
}

proof fn lemma_trim_end_within(s: Seq<char>)
    ensures
        forall|j: int| 0 <= j < trim_end(s).len() ==> s.contains(#[trigger] trim_end(s)[j]),
    decreases s.len(),
{
    if s.len() > 0 && crate::text::white_space(s.last()) {
        lemma_trim_end_within(s.drop_last());
        assert forall|j: int| 0 <= j < trim_end(s).len() implies s.contains(
            #[trigger] trim_end(s)[j],
        ) by {
            let c = trim_end(s)[j];
            assert(c == trim_end(s.drop_last())[j]);
            assert(s.drop_last().contains(c));
            let k = choose|k: int| 0 <= k < s.drop_last().len() && s.drop_last()[k] == c;
            assert(s[k] == c);
        }
    } else {
        assert forall|j: int| 0 <= j < trim_end(s).len() implies s.contains(
            #[trigger] trim_end(s)[j],
        ) by {
            assert(s[j] == trim_end(s)[j]);
        }
    }
}

proof fn lemma_without_spaces_within(s: Seq<char>)
    ensures
        forall|j: int|
            0 <= j < without_spaces(s).len() ==> s.contains(#[trigger] without_spaces(s)[j]),
    decreases s.len(),
{
    reveal(Seq::filter);
    if s.len() > 0 {
        lemma_without_spaces_within(s.drop_last());
        assert forall|j: int| 0 <= j < without_spaces(s).len() implies s.contains(
            #[trigger] without_spaces(s)[j],
        ) by {
            let c = without_spaces(s)[j];
            if j < without_spaces(s.drop_last()).len() {
                assert(c == without_spaces(s.drop_last())[j]);
                assert(s.drop_last().contains(c));
                let k = choose|k: int| 0 <= k < s.drop_last().len() && s.drop_last()[k] == c;
                assert(s[k] == c);
            } else {
                assert(c == s.last());
                assert(s[s.len() - 1] == c);
            }
        }
    }
}

/// Every character of the normalized text is a character of the text.
proof fn lemma_normalized_within(s: Seq<char>)
    ensures
        forall|j: int| 0 <= j < normalized(s).len() ==> s.contains(#[trigger] normalized(s)[j]),
{
    let a = trim_start(s);
    let b = trim_end(a);
    lemma_trim_start_within(s);
    lemma_trim_end_within(a);
    lemma_without_spaces_within(b);
    assert forall|j: int| 0 <= j < normalized(s).len() implies s.contains(
        #[trigger] normalized(s)[j],
    ) by {
        let c = without_spaces(b)[j];
        assert(b.contains(c));
        let k1 = choose|k: int| 0 <= k < b.len() && b[k] == c;
        assert(a.contains(b[k1]));
        let k2 = choose|k: int| 0 <= k < a.len() && a[k] == c;
        assert(s.contains(a[k2]));
    }
}

proof fn lemma_normalized_no_products(s: Seq<char>)
    requires
        no_products(s),
    ensures
        no_products(normalized(s)),
{
    lemma_normalized_within(s);
    assert forall|j: int| 0 <= j < normalized(s).len() implies normalized(s)[j] != '*'
        && normalized(s)[j] != '/' by {
        assert(s.contains(normalized(s)[j]));
    }
}

/// No `(` and no `)` in `s`.
pub open spec fn no_parentheses(s: Seq<char>) -> bool {
    forall|j: int| 0 <= j < s.len() ==> s[j] != '(' && s[j] != ')'
}

/// The terms of a group, as terms of an expression.
pub open spec fn as_terms(g: Seq<(OperationKind, Seq<char>)>) -> Seq<TermView> {
    g.map_values(|l: (OperationKind, Seq<char>)| (l.0, OperandView::Number(l.1)))
}

/// Without parentheses the scan of an expression follows the scan of a group
/// step by step.
proof fn lemma_scans_agree(cs: Seq<char>)
    requires
        no_parentheses(cs),
    ensures
        match (group_scan(cs), scan(cs)) {
            (Ok(g), Ok(st)) => !st.inside && st.kind == g.kind && st.buf == g.buf && st.terms
                == as_terms(g.terms),
            (Err(x), Err(y)) => x == y,
            _ => false,
        },
    decreases cs.len(),
{
    if cs.len() == 0 {
        assert(as_terms(Seq::empty()) =~= Seq::<TermView>::empty());
    } else {
        let p = cs.drop_last();
        assert(no_parentheses(p)) by {
            assert forall|j: int| 0 <= j < p.len() implies p[j] != '(' && p[j] != ')' by {
                assert(p[j] == cs[j]);
            }
        }
        lemma_scans_agree(p);
        let c = cs.last();
        assert(c == cs[cs.len() - 1]);
        if let (Ok(g), Ok(st)) = (group_scan(p), scan(p)) {
            if st.buf.len() > 0 && float_literal(st.buf) {
                assert(as_terms(g.terms.push((g.kind, g.buf))) =~= as_terms(g.terms).push(
                    (g.kind, OperandView::Number(g.buf)),
                ));
            }
        }
    }
}

/// The scan never collects a parenthesis: the text that a `)` hands to
/// `group_model` holds none.
pub proof fn lemma_collected_text_has_no_parentheses(cs: Seq<char>)
    ensures
        scan(cs) is Ok ==> no_parentheses(scan(cs)->Ok_0.buf),
    decreases cs.len(),
{
    if cs.len() > 0 {
        lemma_collected_text_has_no_parentheses(cs.drop_last());
        if let Ok(st) = scan(cs.drop_last()) {
            let c = cs.last();
            if c != '(' && c != ')' {
                assert forall|j: int| 0 <= j < st.buf.push(c).len() implies st.buf.push(c)[j]
                    != '(' && st.buf.push(c)[j] != ')' by {
                    if j < st.buf.len() {
                        assert(st.buf.push(c)[j] == st.buf[j]);
                    }
                }
            }
        }
    }
}

/// A group parses as an expression of its text would: the text between a
/// `(` and its `)` holds no parenthesis, and on such text the terms of the
/// group are the terms of the expression, with the same operators and
/// numbers, and the errors are the same.
pub proof fn lemma_group_is_expression(text: Seq<char>)
    requires
        no_parentheses(text),
    ensures
        match (group_model(text), parse_model(text)) {
            (Ok(g), Ok(e)) => e == as_terms(g),
            (Err(x), Err(y)) => x == y,
            _ => false,
        },
{
    let cs = normalized(text);
    lemma_normalized_within(text);
    assert(no_parentheses(cs)) by {
        assert forall|j: int| 0 <= j < cs.len() implies cs[j] != '(' && cs[j] != ')' by {
            assert(text.contains(cs[j]));
        }
    }
    lemma_scans_agree(cs);
    if let (Ok(g), Ok(st)) = (group_scan(cs), scan(cs)) {
        if st.buf.len() > 0 && float_literal(st.buf) {
            assert(as_terms(g.terms.push((g.kind, g.buf))) =~= as_terms(g.terms).push(
                (g.kind, OperandView::Number(g.buf)),
            ));
        }
    }
}

/// Without `*` and `/`, every operator that the scan holds is Add or Subtract.
proof fn lemma_scan_additive(cs: Seq<char>)
    requires
        no_products(cs),
    ensures
        scan(cs) is Ok ==> additive(scan(cs)->Ok_0.kind) && forall|i: int|
            0 <= i < scan(cs)->Ok_0.terms.len() ==> additive(
                (#[trigger] scan(cs)->Ok_0.terms[i]).0,
            ),
    decreases cs.len(),
{
    if cs.len() > 0 {
        let p = cs.drop_last();
        assert(no_products(p)) by {
            assert forall|j: int| 0 <= j < p.len() implies p[j] != '*' && p[j] != '/' by {
                assert(p[j] == cs[j]);
            }
        }
        lemma_scan_additive(p);
        assert(cs.last() == cs[cs.len() - 1]);
    }
}

/// A text without `*` and `/` evaluates to the sum, left to right, of its
/// operands, each added or subtracted as its operator says: the steps
/// accumulate every term once, in order, and absorb none.
pub proof fn lemma_sums_are_signed_sums(text: Seq<char>)
    requires
        no_products(text),
        parse_model(text) is Ok,
    ensures
        ({
            let terms = parse_model(text)->Ok_0;
            &&& forall|i: int| 0 <= i < terms.len() ==> additive(#[trigger] terms[i].0)
            &&& terms.len() <= usize::MAX ==> evaluation_steps(term_kinds(terms)) == Seq::new(
                terms.len(),
                |i: int| Step::Accumulate { from: i as usize, kind: terms[i].0 },
            )
        }),
{
    let cs = normalized(text);
    lemma_normalized_no_products(text);
    lemma_scan_additive(cs);
    let st = scan(cs)->Ok_0;
    let terms = parse_model(text)->Ok_0;
    assert forall|i: int| 0 <= i < terms.len() implies additive(#[trigger] terms[i].0) by {
        if i < st.terms.len() {
            assert(terms[i] == st.terms[i]);
        }
    }
    if terms.len() <= usize::MAX {
        lemma_additive_steps(term_kinds(terms));
        assert(evaluation_steps(term_kinds(terms)) =~= Seq::new(
            terms.len(),
            |i: int| Step::Accumulate { from: i as usize, kind: terms[i].0 },
        ));
    }
}

/// Terms that are all Add or Subtract are each accumulated once, in order.
pub proof fn lemma_additive_steps(ks: Seq<OperationKind>)
    requires
        forall|i: int| 0 <= i < ks.len() ==> additive(#[trigger] ks[i]),
        ks.len() <= usize::MAX,
    ensures
        evaluation_steps(ks) == Seq::new(
            ks.len(),
            |i: int| Step::Accumulate { from: i as usize, kind: ks[i] },
        ),
{
    assert forall|n: int| 0 <= n <= ks.len() implies #[trigger] steps_upto(ks, n) == Seq::new(
        n as nat,
        |i: int| Step::Accumulate { from: i as usize, kind: ks[i] },
    ) by {
        lemma_additive_prefix(ks, n);
    }
}

proof fn lemma_additive_prefix(ks: Seq<OperationKind>, n: int)
    requires
        forall|i: int| 0 <= i < ks.len() ==> additive(#[trigger] ks[i]),
        0 <= n <= ks.len(),
    ensures
        steps_upto(ks, n) == Seq::new(
            n as nat,
            |i: int| Step::Accumulate { from: i as usize, kind: ks[i] },
        ),
    decreases n,
{
    if n > 0 {
        lemma_additive_prefix(ks, n - 1);
        assert(leader(ks, n - 1) == n - 1);
        assert(steps_at(ks, n - 1) =~= seq![
            Step::Accumulate { from: (n - 1) as usize, kind: ks[n - 1] },
        ]);
        assert(steps_upto(ks, n) =~= Seq::new(
            n as nat,
            |i: int| Step::Accumulate { from: i as usize, kind: ks[i] },
        ));
    } else {
        assert(steps_upto(ks, n) =~= Seq::new(
            n as nat,
            |i: int| Step::Accumulate { from: i as usize, kind: ks[i] },
        ));
    }
}

/// A `(` while a group is open ends the parse with `UnbalancedParenthesis`,
/// carrying the text collected so far.
pub proof fn lemma_nested_open_is_unbalanced(text: Seq<char>, i: int)
    requires
        0 <= i < normalized(text).len(),
        normalized(text)[i] == '(',
        scan(normalized(text).take(i)) is Ok,
        scan(normalized(text).take(i))->Ok_0.inside,
    ensures
        parse_model(text) == Err::<Seq<TermView>, _>(
            ErrorView::UnbalancedParenthesis(scan(normalized(text).take(i))->Ok_0.buf),
        ),
{
    let cs = normalized(text);
    assert(cs.take(i + 1).drop_last() =~= cs.take(i));
    lemma_scan_stops(cs, i + 1);
}

/// A `)` while no group is open ends the parse with `UnbalancedParenthesis`,
/// carrying the text collected so far.
pub proof fn lemma_stray_close_is_unbalanced(text: Seq<char>, i: int)
    requires
        0 <= i < normalized(text).len(),
        normalized(text)[i] == ')',
        scan(normalized(text).take(i)) is Ok,
        !scan(normalized(text).take(i))->Ok_0.inside,
    ensures
        parse_model(text) == Err::<Seq<TermView>, _>(
            ErrorView::UnbalancedParenthesis(scan(normalized(text).take(i))->Ok_0.buf),
        ),
{
    let cs = normalized(text);
    assert(cs.take(i + 1).drop_last() =~= cs.take(i));
    lemma_scan_stops(cs, i + 1);
}

/// Text that is not a number, ended by an operator outside a group, ends the
/// parse with `NumberParseFailure` carrying exactly that text.
pub proof fn lemma_bad_number_before_operator(text: Seq<char>, i: int)
    requires
        0 <= i < normalized(text).len(),
        operator_of(normalized(text)[i]) is Some,
        scan(normalized(text).take(i)) is Ok,
        !scan(normalized(text).take(i))->Ok_0.inside,
        scan(normalized(text).take(i))->Ok_0.buf.len() > 0,
        !float_literal(scan(normalized(text).take(i))->Ok_0.buf),
    ensures
        parse_model(text) == Err::<Seq<TermView>, _>(
            ErrorView::NumberParseFailure(scan(normalized(text).take(i))->Ok_0.buf),
        ),
{
    let cs = normalized(text);
    assert(cs.take(i + 1).drop_last() =~= cs.take(i));
    lemma_scan_stops(cs, i + 1);
}

/// Text that is not a number, left at the end of the input, ends the parse
/// with `NumberParseFailure` carrying exactly that text.
pub proof fn lemma_bad_number_at_end(text: Seq<char>)
    requires
        scan(normalized(text)) is Ok,
        scan(normalized(text))->Ok_0.buf.len() > 0,
        !float_literal(scan(normalized(text))->Ok_0.buf),
    ensures
        parse_model(text) == Err::<Seq<TermView>, _>(
            ErrorView::NumberParseFailure(scan(normalized(text))->Ok_0.buf),
        ),
{
}

proof fn lemma_leader_bounds(ks: Seq<OperationKind>, i: int)
    requires
        -1 <= i < ks.len(),
    ensures
        -1 <= leader(ks, i) <= i,
        leader(ks, i) >= 0 ==> additive(ks[leader(ks, i)]),
        i >= 0 && leader(ks, i) == -1 ==> !additive(ks[0]),
    decreases i + 1,
{
    if i >= 0 && !additive(ks[i]) {
        lemma_leader_bounds(ks, i - 1);
    }
}

proof fn lemma_run_concat<V>(
    a: Seq<Step>,
    b: Seq<Step>,
    state: (Seq<V>, V),
    op: spec_fn(OperationKind, V, V) -> V,
)
    ensures
        run_steps(a + b, state, op) == run_steps(b, run_steps(a, state, op), op),
    decreases a.len(),
{
    if a.len() > 0 {
        assert((a + b).drop_first() =~= a.drop_first() + b);
        lemma_run_concat(a.drop_first(), b, run_step(state, a[0], op), op);
    } else {
        assert(a + b =~= b);
    }
}

proof fn lemma_run_short<V>(a: Step, b: Step, state: (Seq<V>, V), op: spec_fn(OperationKind, V, V) -> V)
    ensures
        run_steps(seq![a], state, op) == run_step(state, a, op),
        run_steps(seq![a, b], state, op) == run_step(run_step(state, a, op), b, op),
{
    assert(seq![a].drop_first() =~= Seq::<Step>::empty());
    assert(seq![a][0] == a);
    assert(run_steps(Seq::<Step>::empty(), run_step(state, a, op), op) == run_step(state, a, op));
    assert(run_steps(seq![a], state, op) == run_steps(
        seq![a].drop_first(),
        run_step(state, a, op),
        op,
    ));
    assert(seq![a, b].drop_first() =~= seq![b]);
    assert(seq![b].drop_first() =~= Seq::<Step>::empty());
    let x = run_step(state, a, op);
    assert(run_steps(seq![b], x, op) == run_steps(Seq::<Step>::empty(), run_step(x, b, op), op));
}

/// The terms, each with its value.
pub open spec fn paired<V>(ks: Seq<OperationKind>, vals: Seq<V>) -> Seq<(OperationKind, V)> {
    Seq::new(ks.len(), |i: int| (ks[i], vals[i]))
}

/// The working copy of the reduction once the first `n` terms are taken in:
/// the rest of the terms, behind the head of the run that is still open.
spec fn working<V>(ks: Seq<OperationKind>, vals: Seq<V>, cur: Seq<V>, n: int) -> Seq<
    (OperationKind, V),
> {
    let rest = paired(ks, vals).skip(n);
    if n == 0 || ends_run(ks, n - 1) {
        rest
    } else {
        let l = leader(ks, n - 1);
        let head = if l >= 0 {
            (ks[l], cur[l])
        } else {
            (ks[0], vals[0])
        };
        seq![head] + rest
    }
}

proof fn lemma_prefix_follows<V>(
    ks: Seq<OperationKind>,
    vals: Seq<V>,
    zero: V,
    op: spec_fn(OperationKind, V, V) -> V,
    n: int,
)
    requires
        ks.len() == vals.len(),
        ks.len() <= usize::MAX,
        0 <= n <= ks.len(),
    ensures
        ({
            let s = run_steps(steps_upto(ks, n), (vals, zero), op);
            &&& s.0.len() == vals.len()
            &&& forall|k: int| n <= k < ks.len() ==> s.0[k] == vals[k]
            &&& reduce(paired(ks, vals), zero, op) == reduce(working(ks, vals, s.0, n), s.1, op)
        }),
    decreases n,
{
    let orig = paired(ks, vals);
    if n == 0 {
        assert(orig.skip(0) =~= orig);
    } else {
        let m = n - 1;
        lemma_prefix_follows(ks, vals, zero, op, m);
        let s = run_steps(steps_upto(ks, m), (vals, zero), op);
        lemma_run_concat(steps_upto(ks, m), steps_at(ks, m), (vals, zero), op);
        lemma_leader_bounds(ks, m);
        lemma_leader_bounds(ks, m - 1);
        let l = leader(ks, m);
        let w = working(ks, vals, s.0, m);
        let rest = orig.skip(m);
        assert(rest[0] == (ks[m], vals[m]));
        assert(rest.skip(1) =~= orig.skip(n));
        let t = run_steps(steps_upto(ks, n), (vals, zero), op);
        if m == 0 || ends_run(ks, m - 1) {
            assert(w == rest);
            if additive(ks[m]) {
                assert(l == m);
                if ends_run(ks, m) {
                    assert(steps_at(ks, m) =~= seq![
                        Step::Accumulate { from: m as usize, kind: ks[m] },
                    ]);
                    lemma_run_short(steps_at(ks, m)[0], steps_at(ks, m)[0], s, op);
                    assert(t == run_step(s, steps_at(ks, m)[0], op));
                } else {
                    assert(steps_at(ks, m) =~= Seq::<Step>::empty());
                    assert(t == s);
                    assert(working(ks, vals, t.0, n) =~= rest);
                }
            } else {
                assert(m == 0);
                assert(l == -1);
                assert(steps_at(ks, m) =~= Seq::<Step>::empty());
                assert(t == s);
                if !ends_run(ks, m) {
                    assert(working(ks, vals, t.0, n) =~= rest);
                }
            }
        } else {
            assert(!additive(ks[m]));
            assert(l == leader(ks, m - 1));
            let head = if l >= 0 {
                (ks[l], s.0[l])
            } else {
                (ks[0], vals[0])
            };
            assert(w == seq![head] + rest);
            assert(w[1] == (ks[m], vals[m]));
            assert(w.skip(2) =~= orig.skip(n));
            if l >= 0 {
                let absorbed = s.0.update(l, op(ks[m], vals[m], s.0[l]));
                let merged = (ks[l], op(ks[m], vals[m], s.0[l]));
                let after = run_step(
                    s,
                    Step::Absorb { into: l as usize, from: m as usize, kind: ks[m] },
                    op,
                );
                assert(after == (absorbed, s.1));
                if ends_run(ks, m) {
                    assert(steps_at(ks, m) =~= seq![
                        Step::Absorb { into: l as usize, from: m as usize, kind: ks[m] },
                        Step::Accumulate { from: l as usize, kind: ks[l] },
                    ]);
                    assert(steps_at(ks, m).drop_first().drop_first() =~= Seq::<Step>::empty());
                    let w2 = seq![merged] + orig.skip(n);
                    assert(w2.skip(1) =~= orig.skip(n));
                    assert(seq![merged] + w.skip(2) =~= w2);
                    assert(reduce(w, s.1, op) == reduce(w2, s.1, op));
                    assert(n < ks.len() ==> w2[1] == (ks[n], vals[n]));
                    lemma_run_short(
                        Step::Absorb { into: l as usize, from: m as usize, kind: ks[m] },
                        Step::Accumulate { from: l as usize, kind: ks[l] },
                        s,
                        op,
                    );
                } else {
                    assert(steps_at(ks, m) =~= seq![
                        Step::Absorb { into: l as usize, from: m as usize, kind: ks[m] },
                    ]);
                    lemma_run_short(
                        Step::Absorb { into: l as usize, from: m as usize, kind: ks[m] },
                        Step::Absorb { into: l as usize, from: m as usize, kind: ks[m] },
                        s,
                        op,
                    );
                    assert(t == after);
                    assert(working(ks, vals, t.0, n) =~= seq![merged] + orig.skip(n));
                }
            } else {
                assert(steps_at(ks, m) =~= Seq::<Step>::empty());
                assert(t == s);
                let w2 = seq![head] + orig.skip(n);
                assert(seq![head] + w.skip(2) =~= w2);
                if ends_run(ks, m) {
                    assert(w2.skip(1) =~= orig.skip(n));
                    assert(n < ks.len() ==> w2[1] == (ks[n], vals[n]));
                    assert(reduce(w, s.1, op) == reduce(w2, s.1, op));
                } else {
                    assert(working(ks, vals, t.0, n) =~= w2);
                }
            }
        }
    }
}

/// The steps compute what evaluation on a working copy computes, for
/// numbers of any type and any meaning of the four operators: running
/// `evaluation_steps` from the terms' values and a result `zero` gives
/// `reduce` of the terms from `zero`.
pub proof fn lemma_steps_match_reduction<V>(
    ks: Seq<OperationKind>,
    vals: Seq<V>,
    zero: V,
    op: spec_fn(OperationKind, V, V) -> V,
)
    requires
        ks.len() == vals.len(),
        ks.len() <= usize::MAX,
    ensures
        run_steps(evaluation_steps(ks), (vals, zero), op).1 == reduce(paired(ks, vals), zero, op),
{
    let n = ks.len() as int;
    lemma_prefix_follows(ks, vals, zero, op, n);
    let s = run_steps(steps_upto(ks, n), (vals, zero), op);
    assert(paired(ks, vals).skip(n) =~= Seq::<(OperationKind, V)>::empty());
    assert(working(ks, vals, s.0, n) =~= Seq::<(OperationKind, V)>::empty());
}

} // verus!
