//! Expressions: the scanner that builds them from text, and their model.
use vstd::prelude::*;

use crate::term::{operator_of, OperationKind};
use crate::text::{chars_of, float_literal, is_float_literal, normalize, normalized, string_of};

verus! {

/// Why a text is not an expression. Each error carries the literal text that
/// was being collected where the scan stopped.
#[derive(Clone, Debug)]
pub enum Error {
    /// The collected text is not a number.
    NumberParseFailure(String),
    /// A `(` inside a group, or a `)` outside one.
    UnbalancedParenthesis(String),
}

pub enum ErrorView {
    NumberParseFailure(Seq<char>),
    UnbalancedParenthesis(Seq<char>),
}

impl View for Error {
    type V = ErrorView;

    open spec fn view(&self) -> ErrorView {
        match self {
            Error::NumberParseFailure(t) => ErrorView::NumberParseFailure(t@),
            Error::UnbalancedParenthesis(t) => ErrorView::UnbalancedParenthesis(t@),
        }
    }
}

/// A term of a parenthesized group: an operator and the text of its number.
#[derive(Clone, Debug)]
pub struct Literal {
    pub kind: OperationKind,
    pub text: String,
}

impl View for Literal {
    type V = (OperationKind, Seq<char>);

    open spec fn view(&self) -> (OperationKind, Seq<char>) {
        (self.kind, self.text@)
    }
}

/// What a term applies: a number, or the value of a parenthesized group.
#[derive(Clone, Debug)]
pub enum Operand {
    Number(String),
    Group(Vec<Literal>),
}

pub enum OperandView {
    Number(Seq<char>),
    Group(Seq<(OperationKind, Seq<char>)>),
}

pub open spec fn literals_view(v: Seq<Literal>) -> Seq<(OperationKind, Seq<char>)> {
    v.map_values(|l: Literal| l@)
}

impl View for Operand {
    type V = OperandView;

    open spec fn view(&self) -> OperandView {
        match self {
            Operand::Number(t) => OperandView::Number(t@),
            Operand::Group(g) => OperandView::Group(literals_view(g@)),
        }
    }
}

/// One step of an expression: apply `kind` with `operand` to the running result.
#[derive(Clone, Debug)]
pub struct Term {
    pub kind: OperationKind,
    pub operand: Operand,
}

pub type TermView = (OperationKind, OperandView);

impl View for Term {
    type V = TermView;

    open spec fn view(&self) -> TermView {
        (self.kind, self.operand@)
    }
}

pub open spec fn terms_view(v: Seq<Term>) -> Seq<TermView> {
    v.map_values(|t: Term| t@)
}

/// The terms of an expression, in the order in which they appear in the text.
#[derive(Clone, Debug)]
pub struct Expression {
    pub terms: Vec<Term>,
}

impl View for Expression {
    type V = Seq<TermView>;

    open spec fn view(&self) -> Seq<TermView> {
        terms_view(self.terms@)
    }
}

/// Where the scan of a group stands: the terms so far, the operator that the
/// next number takes, and the text of that number as far as it is read.
pub struct GroupScan {
    pub terms: Seq<(OperationKind, Seq<char>)>,
    pub kind: OperationKind,
    pub buf: Seq<char>,
}

/// Ends the number in `buf`: nothing if it is empty, else one more term, if
/// the text is a number.
pub open spec fn close_literal(
    terms: Seq<(OperationKind, Seq<char>)>,
    kind: OperationKind,
    buf: Seq<char>,
) -> Result<Seq<(OperationKind, Seq<char>)>, ErrorView> {
    if buf.len() == 0 {
        Ok(terms)
    } else if float_literal(buf) {
        Ok(terms.push((kind, buf)))
    } else {
        Err(ErrorView::NumberParseFailure(buf))
    }
}

/// An operator ends the number before it and sets the operator of the next;
/// any other character is part of a number.
pub open spec fn group_step(st: GroupScan, c: char) -> Result<GroupScan, ErrorView> {
    match operator_of(c) {
        Some(k) => match close_literal(st.terms, st.kind, st.buf) {
            Ok(terms) => Ok(GroupScan { terms, kind: k, buf: Seq::empty() }),
            Err(e) => Err(e),
        },
        None => Ok(GroupScan { buf: st.buf.push(c), ..st }),
    }
}

pub open spec fn group_scan(cs: Seq<char>) -> Result<GroupScan, ErrorView>
    decreases cs.len(),
{
    if cs.len() == 0 {
        Ok(GroupScan { terms: Seq::empty(), kind: OperationKind::Add, buf: Seq::empty() })
    } else {
        match group_scan(cs.drop_last()) {
            Ok(st) => group_step(st, cs.last()),
            Err(e) => Err(e),
        }
    }
}

/// The terms of the text between a `(` and its `)`.
pub open spec fn group_model(text: Seq<char>) -> Result<Seq<(OperationKind, Seq<char>)>, ErrorView> {
    match group_scan(normalized(text)) {
        Ok(st) => close_literal(st.terms, st.kind, st.buf),
        Err(e) => Err(e),
    }
}

/// Where the scan of an expression stands: the terms so far, the operator
/// that the next operand takes, the text collected since the last operator or
/// group, and whether a `(` is open.
pub struct ScanState {
    pub terms: Seq<TermView>,
    pub kind: OperationKind,
    pub buf: Seq<char>,
    pub inside: bool,
}

/// `close_literal` for the terms of an expression.
pub open spec fn close_number(terms: Seq<TermView>, kind: OperationKind, buf: Seq<char>) -> Result<
    Seq<TermView>,
    ErrorView,
> {
    if buf.len() == 0 {
        Ok(terms)
    } else if float_literal(buf) {
        Ok(terms.push((kind, OperandView::Number(buf))))
    } else {
        Err(ErrorView::NumberParseFailure(buf))
    }
}

/// One character of the scan. Inside a group every character but `(` and
/// `)` is collected; the `)` parses what was collected as a group.
pub open spec fn scan_step(st: ScanState, c: char) -> Result<ScanState, ErrorView> {
    if c == '(' {
        if st.inside {
            Err(ErrorView::UnbalancedParenthesis(st.buf))
        } else {
            Ok(ScanState { inside: true, ..st })
        }
    } else if c == ')' {
        if st.inside {
            match group_model(st.buf) {
                Ok(g) => Ok(
                    ScanState {
                        terms: st.terms.push((st.kind, OperandView::Group(g))),
                        kind: st.kind,
                        buf: Seq::empty(),
                        inside: false,
                    },
                ),
                Err(e) => Err(e),
            }
        } else {
            Err(ErrorView::UnbalancedParenthesis(st.buf))
        }
    } else if st.inside {
        Ok(ScanState { buf: st.buf.push(c), ..st })
    } else {
        match operator_of(c) {
            Some(k) => match close_number(st.terms, st.kind, st.buf) {
                Ok(terms) => Ok(ScanState { terms, kind: k, buf: Seq::empty(), inside: false }),
                Err(e) => Err(e),
            },
            None => Ok(ScanState { buf: st.buf.push(c), ..st }),
        }
    }
}

pub open spec fn scan(cs: Seq<char>) -> Result<ScanState, ErrorView>
    decreases cs.len(),
{
    if cs.len() == 0 {
        Ok(
            ScanState {
                terms: Seq::empty(),
                kind: OperationKind::Add,
                buf: Seq::empty(),
                inside: false,
            },
        )
    } else {
        match scan(cs.drop_last()) {
            Ok(st) => scan_step(st, cs.last()),
            Err(e) => Err(e),
        }
    }
}

/// The expression that `text` denotes: its normalized characters scanned in
/// order, and the text still collected at the end read as a last number,
/// whether or not a group is open.
pub open spec fn parse_model(text: Seq<char>) -> Result<Seq<TermView>, ErrorView> {
    match scan(normalized(text)) {
        Ok(st) => close_number(st.terms, st.kind, st.buf),
        Err(e) => Err(e),
    }
}

/// A scan that fails on a prefix fails on the whole text, with that error.
pub proof fn lemma_group_scan_stops(cs: Seq<char>, i: int)
    requires
        0 <= i <= cs.len(),
        group_scan(cs.take(i)) is Err,
    ensures
        group_scan(cs) == group_scan(cs.take(i)),
    decreases cs.len() - i,
{
    if i < cs.len() {
        assert(cs.take(i + 1).drop_last() =~= cs.take(i));
        lemma_group_scan_stops(cs, i + 1);
    } else {
        assert(cs.take(i) =~= cs);
    }
}

/// A scan that fails on a prefix fails on the whole text, with that error.
pub proof fn lemma_scan_stops(cs: Seq<char>, i: int)
    requires
        0 <= i <= cs.len(),
        scan(cs.take(i)) is Err,
    ensures
        scan(cs) == scan(cs.take(i)),
    decreases cs.len() - i,
{
    if i < cs.len() {
        assert(cs.take(i + 1).drop_last() =~= cs.take(i));
        lemma_scan_stops(cs, i + 1);
    } else {
        assert(cs.take(i) =~= cs);
    }
}

/// Scans the text between a `(` and its `)`.
fn parse_group(text: &Vec<char>) -> (r: Result<Vec<Literal>, Error>)
    ensures
        match r {
            Ok(g) => group_model(text@) == Ok::<_, ErrorView>(literals_view(g@)),
            Err(e) => group_model(text@) == Err::<Seq<(OperationKind, Seq<char>)>, _>(e@),
        },
{
    let cs = normalize(text);
    let mut terms: Vec<Literal> = Vec::new();
    let mut kind = OperationKind::Add;
    let mut buf: Vec<char> = Vec::new();
    assert(cs@.take(0) =~= Seq::<char>::empty());
    assert(literals_view(terms@) =~= Seq::empty());
    for i in 0..cs.len()
        invariant
            cs@ == normalized(text@),
            group_scan(cs@.take(i as int)) == Ok::<_, ErrorView>(
                GroupScan { terms: literals_view(terms@), kind, buf: buf@ },
            ),
    {
        let c = cs[i];
        assert(cs@.take(i + 1).drop_last() =~= cs@.take(i as int));
        assert(cs@.take(i + 1).last() == c);
        match OperationKind::from_char(c) {
            Some(k) => {
                if buf.len() > 0 {
                    if is_float_literal(&buf) {
                        let ghost before = terms@;
                        terms.push(Literal { kind, text: string_of(&buf) });
                        assert(literals_view(terms@) =~= literals_view(before).push((kind, buf@)));
                    } else {
                        proof {
                            lemma_group_scan_stops(cs@, i + 1);
                        }
                        return Err(Error::NumberParseFailure(string_of(&buf)));
                    }
                }
                kind = k;
                buf = Vec::new();
            },
            None => {
                buf.push(c);
            },
        }
    }
    assert(cs@.take(cs@.len() as int) =~= cs@);
    if buf.len() > 0 {
        if is_float_literal(&buf) {
            let ghost before = terms@;
            terms.push(Literal { kind, text: string_of(&buf) });
            assert(literals_view(terms@) =~= literals_view(before).push((kind, buf@)));
        } else {
            return Err(Error::NumberParseFailure(string_of(&buf)));
        }
    }
    Ok(terms)
}

/// Ends the number collected in `buf`: appends its term to `terms`, unless
/// `buf` is empty; fails if `buf` is not a number.
fn push_number(terms: &mut Vec<Term>, kind: OperationKind, buf: &Vec<char>) -> (r: Result<(), Error>)
    ensures
        match r {
            Ok(_) => close_number(terms_view(old(terms)@), kind, buf@) == Ok::<_, ErrorView>(
                terms_view(final(terms)@),
            ),
            Err(e) => close_number(terms_view(old(terms)@), kind, buf@) == Err::<
                Seq<TermView>,
                _,
            >(e@),
        },
{
    if buf.len() == 0 {
        Ok(())
    } else if is_float_literal(buf) {
        let ghost before = terms@;
        terms.push(Term { kind, operand: Operand::Number(string_of(buf)) });
        assert(terms_view(terms@) =~= terms_view(before).push(
            (kind, OperandView::Number(buf@)),
        ));
        Ok(())
    } else {
        Err(Error::NumberParseFailure(string_of(buf)))
    }
}

impl Expression {
    /// The expression with no terms.
    pub fn empty() -> (r: Expression)
        ensures
            r@ == Seq::<TermView>::empty(),
    {
        let r = Expression { terms: Vec::new() };
        assert(r@ =~= Seq::<TermView>::empty());
        r
    }

    /// Parses `text`: see `parse_model`.
    pub fn new(text: &str) -> (r: Result<Expression, Error>)
        ensures
            match r {
                Ok(e) => parse_model(text@) == Ok::<_, ErrorView>(e@),
                Err(x) => parse_model(text@) == Err::<Seq<TermView>, _>(x@),
            },
    {
        let chars = chars_of(text);
        let cs = normalize(&chars);
        let mut terms: Vec<Term> = Vec::new();
        let mut kind = OperationKind::Add;
        let mut buf: Vec<char> = Vec::new();
        let mut inside = false;
        assert(cs@.take(0) =~= Seq::<char>::empty());
        assert(terms_view(terms@) =~= Seq::empty());
        for i in 0..cs.len()
            invariant
                cs@ == normalized(text@),
                scan(cs@.take(i as int)) == Ok::<_, ErrorView>(
                    ScanState { terms: terms_view(terms@), kind, buf: buf@, inside },
                ),
        {
            let c = cs[i];
            assert(cs@.take(i + 1).drop_last() =~= cs@.take(i as int));
            assert(cs@.take(i + 1).last() == c);
            if c == '(' {
                if inside {
                    proof {
                        lemma_scan_stops(cs@, i + 1);
                    }
                    return Err(Error::UnbalancedParenthesis(string_of(&buf)));
                }
                inside = true;
            } else if c == ')' {
                if !inside {
                    proof {
                        lemma_scan_stops(cs@, i + 1);
                    }
                    return Err(Error::UnbalancedParenthesis(string_of(&buf)));
                }
                match parse_group(&buf) {
                    Ok(g) => {
                        let ghost before = terms@;
                        let ghost gv = literals_view(g@);
                        terms.push(Term { kind, operand: Operand::Group(g) });
                        assert(terms_view(terms@) =~= terms_view(before).push(
                            (kind, OperandView::Group(gv)),
                        ));
                        buf = Vec::new();
                        inside = false;
                    },
                    Err(e) => {
                        proof {
                            lemma_scan_stops(cs@, i + 1);
                        }
                        return Err(e);
                    },
                }
            } else if inside {
                buf.push(c);
            } else {
                match OperationKind::from_char(c) {
                    Some(k) => {
                        match push_number(&mut terms, kind, &buf) {
                            Ok(_) => {},
                            Err(e) => {
                                proof {
                                    lemma_scan_stops(cs@, i + 1);
                                }
                                return Err(e);
                            },
                        }
                        kind = k;
                        buf = Vec::new();
                    },
                    None => {
                        buf.push(c);
                    },
                }
            }
        }
        assert(cs@.take(cs@.len() as int) =~= cs@);
        match push_number(&mut terms, kind, &buf) {
            Ok(_) => Ok(Expression { terms }),
            Err(e) => Err(e),
        }
    }
}

} // verus!
