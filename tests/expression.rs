use calculator::{
    group_steps, is_float_literal, is_white_space, Error, Expression, Literal, Operand,
    OperationKind, Step, Term,
};

fn operate_with(kind: OperationKind, num: f64, other: f64) -> f64 {
    match kind {
        OperationKind::Add => num + other,
        OperationKind::Subtract => other - num,
        OperationKind::Multiply => num * other,
        OperationKind::Divide => other / num,
    }
}

fn run(steps: &[Step], values: &mut [f64]) -> f64 {
    let mut result = 0.0;
    for step in steps {
        match *step {
            Step::Absorb { into, from, kind } => {
                values[into] = operate_with(kind, values[from], values[into]);
            }
            Step::Accumulate { from, kind } => match kind {
                OperationKind::Add => result += values[from],
                OperationKind::Subtract => result -= values[from],
                _ => {}
            },
        }
    }
    result
}

fn number(text: &str) -> f64 {
    text.parse::<f64>().expect("the library accepted a literal that f64 rejects")
}

fn group_value(group: &Vec<Literal>) -> f64 {
    let mut values: Vec<f64> = group.iter().map(|l| number(&l.text)).collect();
    run(&group_steps(group), &mut values)
}

fn value(expression: &Expression) -> f64 {
    let mut values: Vec<f64> = expression
        .terms
        .iter()
        .map(|t| match &t.operand {
            Operand::Number(text) => number(text),
            Operand::Group(group) => group_value(group),
        })
        .collect();
    run(&expression.evaluation_steps(), &mut values)
}

fn evaluate(text: &str) -> f64 {
    value(&Expression::new(text).expect("the text should parse"))
}

fn number_term(kind: OperationKind, text: &str) -> Term {
    Term { kind, operand: Operand::Number(text.to_string()) }
}

fn unbalanced_text(text: &str) -> String {
    match Expression::new(text) {
        Err(Error::UnbalancedParenthesis(t)) => t,
        other => panic!("expected UnbalancedParenthesis, got {:?}", other),
    }
}

fn bad_number_text(text: &str) -> String {
    match Expression::new(text) {
        Err(Error::NumberParseFailure(t)) => t,
        other => panic!("expected NumberParseFailure, got {:?}", other),
    }
}

#[test]
fn expression_should_be_created_with_simple_strs_correctly() {
    let expression = Expression::new("3 + 5").expect("falha na criação da Expression: [3 + 5]");
    assert_eq!(value(&expression), 8.0);

    let other_expression = Expression::new("3+5").expect("falha na criação da Expression: [3+5]");
    assert_eq!(value(&other_expression), 8.0);
}

#[test]
fn expression_should_be_created_correclty() {
    let expression_str = "3 + (3 + 5) * 6 + 4 - 3 / 2";
    let expression = Expression::new(expression_str)
        .expect("falha na criação da Expression [3 + (3 + 5) * 6 + 4 - 3 / 2]");
    assert_eq!(value(&expression), 3.0 + (3.0 + 5.0) * 6.0 + 4.0 - 3.0 / 2.0);
}

#[test]
fn expression_should_be_evaluated_correctly() {
    let expression = Expression {
        terms: vec![
            number_term(OperationKind::Add, "4.0"),
            number_term(OperationKind::Add, "5.0"),
            number_term(OperationKind::Add, "9.0"),
            number_term(OperationKind::Add, "3.0"),
            number_term(OperationKind::Multiply, "2.0"),
            number_term(OperationKind::Divide, "3.0"),
        ],
    };
    assert_eq!(value(&expression), 4.0 + 5.0 + 9.0 + 3.0 * 2.0 / 3.0);
}

#[test]
fn sums_and_differences_left_to_right() {
    assert_eq!(evaluate("1 - 2 + 3.5 - 0.25"), 1.0 - 2.0 + 3.5 - 0.25);
    assert_eq!(evaluate("10-20-30"), -40.0);
    let steps = Expression::new("1-2+3").unwrap().evaluation_steps();
    assert_eq!(
        steps,
        vec![
            Step::Accumulate { from: 0, kind: OperationKind::Add },
            Step::Accumulate { from: 1, kind: OperationKind::Subtract },
            Step::Accumulate { from: 2, kind: OperationKind::Add },
        ]
    );
}

#[test]
fn precedence_of_products() {
    assert_eq!(evaluate("4 + 5 + 9 + 3 * 2 / 3"), 4.0 + 5.0 + 9.0 + 3.0 * 2.0 / 3.0);
    assert_eq!(evaluate("2*3*4-6/2"), 21.0);
    assert_eq!(evaluate("1 - 8 / 4 / 2"), 0.0);
}

#[test]
fn steps_absorb_products_into_their_leader() {
    let steps = Expression::new("1+2*3/4-5").unwrap().evaluation_steps();
    assert_eq!(
        steps,
        vec![
            Step::Accumulate { from: 0, kind: OperationKind::Add },
            Step::Absorb { into: 1, from: 2, kind: OperationKind::Multiply },
            Step::Absorb { into: 1, from: 3, kind: OperationKind::Divide },
            Step::Accumulate { from: 1, kind: OperationKind::Add },
            Step::Accumulate { from: 4, kind: OperationKind::Subtract },
        ]
    );
}

#[test]
fn leading_product_without_leader_contributes_nothing() {
    let expression = Expression::new("*3*2+1").unwrap();
    assert_eq!(
        expression.evaluation_steps(),
        vec![Step::Accumulate { from: 2, kind: OperationKind::Add }]
    );
    assert_eq!(value(&expression), 1.0);
}

#[test]
fn parenthesis_group_is_one_operand() {
    assert_eq!(evaluate("3 + (3 + 5) * 6 + 4 - 3 / 2"), 3.0 + (3.0 + 5.0) * 6.0 + 4.0 - 3.0 / 2.0);
    let expression = Expression::new("2*(1-4)").unwrap();
    assert_eq!(expression.terms.len(), 2);
    match &expression.terms[1].operand {
        Operand::Group(group) => {
            assert_eq!(group.len(), 2);
            assert_eq!(group[0].text, "1");
            assert_eq!(group[1].kind, OperationKind::Subtract);
            assert_eq!(group[1].text, "4");
        }
        other => panic!("expected a group, got {:?}", other),
    }
    assert_eq!(value(&expression), -6.0);
}

#[test]
fn text_before_open_parenthesis_joins_the_group() {
    assert_eq!(evaluate("3(1+2)"), 33.0);
}

#[test]
fn nested_open_parenthesis_is_unbalanced() {
    assert_eq!(unbalanced_text("(1+(2+3))"), "1+");
}

#[test]
fn close_without_open_is_unbalanced() {
    assert_eq!(unbalanced_text("1+2)"), "2");
    assert_eq!(unbalanced_text(")"), "");
}

#[test]
fn bad_literal_is_number_parse_failure() {
    assert_eq!(bad_number_text("3..4"), "3..4");
    assert_eq!(bad_number_text("3..4 + 1"), "3..4");
    assert_eq!(bad_number_text("1 + abc"), "abc");
    assert_eq!(bad_number_text("(3+"), "3+");
    assert_eq!(bad_number_text("(1..2) + 3"), "1..2");
    assert_eq!(bad_number_text("1e+5"), "1e");
}

#[test]
fn single_operand_is_unchanged() {
    assert_eq!(evaluate("42"), 42.0);
    let expression = Expression::new("42").unwrap();
    assert_eq!(expression.terms.len(), 1);
    assert_eq!(expression.terms[0].kind, OperationKind::Add);
}

#[test]
fn leading_sign_applies_to_zero() {
    assert_eq!(evaluate("-5"), -5.0);
    assert_eq!(evaluate("+5 - -2"), 3.0);
}

#[test]
fn repeated_operators_keep_the_last() {
    assert_eq!(evaluate("3++5"), 8.0);
    assert_eq!(evaluate("3+*5"), 15.0);
    assert_eq!(evaluate("7-+2"), 9.0);
}

#[test]
fn empty_and_trailing_operator() {
    assert_eq!(evaluate(""), 0.0);
    assert_eq!(evaluate("   "), 0.0);
    assert_eq!(evaluate("3+"), 3.0);
    assert_eq!(Expression::new("3+").unwrap().terms.len(), 1);
}

#[test]
fn surrounding_whitespace_is_trimmed() {
    assert_eq!(evaluate("\t 3 + 5 \n"), 8.0);
}

#[test]
fn unclosed_group_reads_its_text_as_a_number() {
    assert_eq!(evaluate("(-5"), -5.0);
    assert_eq!(evaluate("1+(2"), 3.0);
}

#[test]
fn division_by_zero_follows_floats() {
    assert_eq!(evaluate("1/0"), f64::INFINITY);
    assert!(evaluate("0/0").is_nan());
}

#[test]
fn literal_grammar_matches_f64_parsing() {
    let samples = [
        "", "0", "42", "3.", ".5", ".", "3..4", "1e5", "1E5", "1e", "1e+5", "1e-5", "1e+", "e5",
        ".e5", "1.e5", ".5e5", "inf", "INF", "-inf", "+Infinity", "infinit", "nan", "NaN", "-nan",
        "+", "-", "+5", "-5.5", "--5", "5-", "1_000", " 1", "1 ", "0x10", "١", "12a", "infinity",
        "iNfInItY", "nana", "1.2.3", "00012", "1e05", "1.5E-07",
    ];
    for s in samples {
        let chars: Vec<char> = s.chars().collect();
        assert_eq!(is_float_literal(&chars), s.parse::<f64>().is_ok(), "on {:?}", s);
    }
}

#[test]
fn white_space_matches_char_is_whitespace() {
    for u in 0u32..=0x10ffff {
        if let Some(c) = char::from_u32(u) {
            assert_eq!(is_white_space(c), c.is_whitespace(), "on U+{:04X}", u);
        }
    }
}

#[test]
fn empty_expression_has_no_terms() {
    let expression = Expression::empty();
    assert!(expression.terms.is_empty());
    assert_eq!(expression.evaluation_steps(), Vec::<Step>::new());
    assert_eq!(value(&expression), 0.0);
}

#[test]
fn literal_text_is_kept_exactly() {
    let expression = Expression::new("1.50 * 2e1").unwrap();
    match (&expression.terms[0].operand, &expression.terms[1].operand) {
        (Operand::Number(a), Operand::Number(b)) => {
            assert_eq!(a, "1.50");
            assert_eq!(b, "2e1");
        }
        other => panic!("expected two numbers, got {:?}", other),
    }
    assert_eq!(expression.terms[1].kind, OperationKind::Multiply);
    assert_eq!(value(&expression), 30.0);
}

#[test]
fn literal_grammar_matches_f64_parsing_on_short_texts() {
    let alphabet = ['0', '7', '.', 'e', 'E', '+', '-', 'i', 'n', 'f', 'a', 'x'];
    let mut texts: Vec<Vec<char>> = vec![Vec::new()];
    let mut start = 0;
    for _ in 0..4 {
        let end = texts.len();
        for i in start..end {
            for c in alphabet {
                let mut t = texts[i].clone();
                t.push(c);
                texts.push(t);
            }
        }
        start = end;
    }
    for chars in &texts {
        let s: String = chars.iter().collect();
        assert_eq!(is_float_literal(chars), s.parse::<f64>().is_ok(), "on {:?}", s);
    }
}
