use scicomp::expr::{parse_expression, OpKind};

fn ops(text: &str) -> Vec<(OpKind, String)> {
    parse_expression(text).into_iter().map(|o| (o.kind, o.word)).collect()
}

fn push(w: &str) -> (OpKind, String) {
    (OpKind::Push, w.to_string())
}

fn op(k: OpKind) -> (OpKind, String) {
    (k, String::new())
}

#[test]
fn sums_and_products_in_postfix_order() {
    assert_eq!(
        ops("V + G - U * 0.2"),
        vec![push("V"), push("G"), op(OpKind::Add), push("U"), push("0.2"), op(OpKind::Mul), op(OpKind::Sub)]
    );
    assert_eq!(ops("A/B/C"), vec![push("A"), push("B"), op(OpKind::Div), push("C"), op(OpKind::Div)]);
}

#[test]
fn parentheses_and_negation() {
    assert_eq!(
        ops("-(A + B) * 2"),
        vec![push("A"), push("B"), op(OpKind::Add), op(OpKind::Neg), push("2"), op(OpKind::Mul)]
    );
    assert_eq!(ops("(1"), vec![push("1")]);
    assert_eq!(ops("--x_1"), vec![push("x_1"), op(OpKind::Neg), op(OpKind::Neg)]);
}

#[test]
fn empty_words_and_what_is_not_read() {
    assert_eq!(ops(""), vec![push("")]);
    assert_eq!(ops("A B"), vec![push("A")]);
    // a comment after an expression is read as two divisions
    assert_eq!(
        ops("U * 0.2  // c"),
        vec![push("U"), push("0.2"), op(OpKind::Mul), push(""), op(OpKind::Div), push("c"), op(OpKind::Div)]
    );
    assert_eq!(ops("Zeit + Höhe"), vec![push("Zeit"), push("Höhe"), op(OpKind::Add)]);
}
