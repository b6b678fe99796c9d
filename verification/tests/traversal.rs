use std::ops::ControlFlow;

use constraint_core::expression::{
    BinaryOperator, Expression, FunctionValueDefinition, Identity, IdentityKind, RepeatedArray,
    SelectedExpressions, UnaryOperator,
};
use constraint_core::visitor::{ExpressionVisitable, VisitOrder};

fn col(name: &str) -> Expression<u64> {
    Expression::Reference(name.to_string())
}

fn num(value: u64) -> Expression<u64> {
    Expression::Number(value)
}

fn add(left: Expression<u64>, right: Expression<u64>) -> Expression<u64> {
    Expression::BinaryOperation(Box::new(left), BinaryOperator::Add, Box::new(right))
}

fn mul(left: Expression<u64>, right: Expression<u64>) -> Expression<u64> {
    Expression::BinaryOperation(Box::new(left), BinaryOperator::Mul, Box::new(right))
}

fn neg(inner: Expression<u64>) -> Expression<u64> {
    Expression::UnaryOperation(UnaryOperator::Minus, Box::new(inner))
}

/// The expression written out, to tell the nodes of a tree apart.
fn show(e: &Expression<u64>) -> String {
    match e {
        Expression::Reference(name) => name.clone(),
        Expression::PublicReference(name) => format!(":{}", name),
        Expression::Number(n) => format!("{}", n),
        Expression::BinaryOperation(l, op, r) => {
            let sign = match op {
                BinaryOperator::Add => "+",
                BinaryOperator::Sub => "-",
                BinaryOperator::Mul => "*",
                BinaryOperator::Pow => "^",
            };
            format!("({} {} {})", show(l), sign, show(r))
        }
        Expression::UnaryOperation(UnaryOperator::Minus, x) => format!("-{}", show(x)),
    }
}

/// `(a + -b) * 3`
fn sample() -> Expression<u64> {
    mul(add(col("a"), neg(col("b"))), num(3))
}

fn visited<V: ExpressionVisitable<u64>>(target: &V, order: VisitOrder) -> Vec<String> {
    let mut seen = vec![];
    let flow = target.visit_expressions(
        &mut |e: &Expression<u64>| {
            seen.push(show(e));
            ControlFlow::<()>::Continue(())
        },
        order,
    );
    assert_eq!(flow, ControlFlow::Continue(()));
    seen
}

#[test]
fn pre_order_visits_a_node_before_its_operands() {
    assert_eq!(
        visited(&sample(), VisitOrder::Pre),
        vec!["((a + -b) * 3)", "(a + -b)", "a", "-b", "b", "3"]
    );
}

#[test]
fn post_order_visits_a_node_after_its_operands() {
    assert_eq!(
        visited(&sample(), VisitOrder::Post),
        vec!["a", "b", "-b", "(a + -b)", "3", "((a + -b) * 3)"]
    );
}

#[test]
fn both_orders_visit_the_same_nodes() {
    let mut pre = visited(&sample(), VisitOrder::Pre);
    let mut post = visited(&sample(), VisitOrder::Post);
    pre.sort();
    post.sort();
    assert_eq!(pre, post);
    assert_eq!(pre.len(), 6);
}

#[test]
fn leaf_is_visited_once_in_either_order() {
    assert_eq!(visited(&col("x"), VisitOrder::Pre), vec!["x"]);
    assert_eq!(visited(&num(4), VisitOrder::Post), vec!["4"]);
    let public: Expression<u64> = Expression::PublicReference("p".to_string());
    assert_eq!(visited(&public, VisitOrder::Pre), vec![":p"]);
}

#[test]
fn break_ends_the_traversal_and_is_returned() {
    for (order, at, expected) in [
        (VisitOrder::Pre, 3, "a"),
        (VisitOrder::Pre, 1, "((a + -b) * 3)"),
        (VisitOrder::Post, 3, "-b"),
        (VisitOrder::Post, 6, "((a + -b) * 3)"),
    ] {
        let mut calls = 0;
        let flow = sample().visit_expressions(
            &mut |e: &Expression<u64>| {
                calls += 1;
                if calls == at {
                    ControlFlow::Break(show(e))
                } else {
                    ControlFlow::Continue(())
                }
            },
            order,
        );
        assert_eq!(flow, ControlFlow::Break(expected.to_string()));
        assert_eq!(calls, at);
    }
}

#[test]
fn break_value_is_handed_up_unchanged() {
    let flow = sample().visit_expressions(
        &mut |e: &Expression<u64>| match e {
            Expression::Number(n) => ControlFlow::Break((*n, "found")),
            _ => ControlFlow::Continue(()),
        },
        VisitOrder::Pre,
    );
    assert_eq!(flow, ControlFlow::Break((3, "found")));
}

fn sample_identity() -> Identity<u64> {
    Identity {
        kind: IdentityKind::Plookup,
        left: SelectedExpressions {
            selector: Some(col("ls")),
            expressions: vec![add(col("l1"), num(1)), col("l2")],
        },
        right: SelectedExpressions {
            selector: Some(neg(col("rs"))),
            expressions: vec![col("r1"), col("r2")],
        },
    }
}

#[test]
fn identity_is_visited_left_to_right_selector_first() {
    assert_eq!(
        visited(&sample_identity(), VisitOrder::Pre),
        vec!["ls", "(l1 + 1)", "l1", "1", "l2", "-rs", "rs", "r1", "r2"]
    );
    assert_eq!(
        visited(&sample_identity(), VisitOrder::Post),
        vec!["ls", "l1", "1", "(l1 + 1)", "l2", "rs", "-rs", "r1", "r2"]
    );
}

#[test]
fn identity_without_selectors_is_visited_through_its_lists() {
    let identity = Identity {
        kind: IdentityKind::Polynomial,
        left: SelectedExpressions { selector: None, expressions: vec![col("x")] },
        right: SelectedExpressions { selector: None, expressions: vec![] },
    };
    assert_eq!(visited(&identity, VisitOrder::Pre), vec!["x"]);
    let empty: Identity<u64> = Identity {
        kind: IdentityKind::Connect,
        left: SelectedExpressions { selector: None, expressions: vec![] },
        right: SelectedExpressions { selector: None, expressions: vec![] },
    };
    assert!(visited(&empty, VisitOrder::Post).is_empty());
}

#[test]
fn break_in_an_identity_skips_what_follows() {
    let mut calls = 0;
    let flow = sample_identity().visit_expressions(
        &mut |e: &Expression<u64>| {
            calls += 1;
            match e {
                Expression::Reference(name) if name == "l2" => ControlFlow::Break(calls),
                _ => ControlFlow::Continue(()),
            }
        },
        VisitOrder::Pre,
    );
    assert_eq!(flow, ControlFlow::Break(5));
    assert_eq!(calls, 5);
}

#[test]
fn function_value_definitions_are_visited_by_kind() {
    let query = FunctionValueDefinition::Query(add(col("q"), num(2)));
    assert_eq!(visited(&query, VisitOrder::Pre), vec!["(q + 2)", "q", "2"]);
    let expression = FunctionValueDefinition::Expression(neg(col("e")));
    assert_eq!(visited(&expression, VisitOrder::Post), vec!["e", "-e"]);
    let number: FunctionValueDefinition<u64> = FunctionValueDefinition::Number(5);
    assert!(visited(&number, VisitOrder::Pre).is_empty());
}

fn sample_array() -> FunctionValueDefinition<u64> {
    FunctionValueDefinition::Array(vec![
        RepeatedArray { pattern: vec![num(1), add(col("x"), num(2))], size: 4 },
        RepeatedArray { pattern: vec![], size: 0 },
        RepeatedArray { pattern: vec![col("y")], size: 2 },
    ])
}

#[test]
fn arrays_are_visited_pattern_after_pattern() {
    assert_eq!(visited(&sample_array(), VisitOrder::Pre), vec!["1", "(x + 2)", "x", "2", "y"]);
    assert_eq!(visited(&sample_array(), VisitOrder::Post), vec!["1", "x", "2", "(x + 2)", "y"]);
    let none: FunctionValueDefinition<u64> = FunctionValueDefinition::Array(vec![]);
    assert!(visited(&none, VisitOrder::Pre).is_empty());
}

#[test]
fn rewriting_after_the_operands_sees_them_rewritten() {
    let mut e = sample();
    let mut seen = vec![];
    let flow = e.visit_expressions_mut(
        &mut |node: &mut Expression<u64>| {
            seen.push(show(node));
            if let Expression::Reference(_) = node {
                *node = num(7);
            }
            ControlFlow::<()>::Continue(())
        },
        VisitOrder::Post,
    );
    assert_eq!(flow, ControlFlow::Continue(()));
    assert_eq!(seen, vec!["a", "b", "-7", "(7 + -7)", "3", "((7 + -7) * 3)"]);
    assert_eq!(e, mul(add(num(7), neg(num(7))), num(3)));
}

#[test]
fn rewriting_before_the_operands_goes_on_below_the_new_node() {
    let mut e = mul(add(col("a"), col("b")), num(3));
    let mut seen = vec![];
    let flow = e.visit_expressions_mut(
        &mut |node: &mut Expression<u64>| {
            seen.push(show(node));
            if let Expression::BinaryOperation(_, BinaryOperator::Add, _) = node {
                *node = neg(col("c"));
            }
            ControlFlow::<()>::Continue(())
        },
        VisitOrder::Pre,
    );
    assert_eq!(flow, ControlFlow::Continue(()));
    assert_eq!(seen, vec!["((a + b) * 3)", "(a + b)", "c", "3"]);
    assert_eq!(e, mul(neg(col("c")), num(3)));
}

#[test]
fn break_while_rewriting_leaves_the_rest_as_it_was() {
    let mut e = add(add(col("a"), col("b")), add(col("c"), col("d")));
    let mut calls = 0;
    let flow = e.visit_expressions_mut(
        &mut |node: &mut Expression<u64>| {
            calls += 1;
            if let Expression::Reference(name) = node {
                if name == "b" {
                    *node = num(0);
                    return ControlFlow::Break("stop");
                }
                *node = num(1);
            }
            ControlFlow::Continue(())
        },
        VisitOrder::Post,
    );
    assert_eq!(flow, ControlFlow::Break("stop"));
    assert_eq!(calls, 2);
    assert_eq!(e, add(add(num(1), num(0)), add(col("c"), col("d"))));
}

#[test]
fn identity_is_rewritten_slot_by_slot() {
    let mut identity = sample_identity();
    let mut seen = vec![];
    let flow = identity.visit_expressions_mut(
        &mut |node: &mut Expression<u64>| {
            seen.push(show(node));
            if let Expression::Number(n) = node {
                *n += 10;
            }
            if let Expression::Reference(name) = node {
                if name == "r1" {
                    return ControlFlow::Break(seen.len());
                }
                name.push('!');
            }
            ControlFlow::Continue(())
        },
        VisitOrder::Pre,
    );
    assert_eq!(flow, ControlFlow::Break(8));
    assert_eq!(seen, vec!["ls", "(l1 + 1)", "l1", "1", "l2", "-rs", "rs", "r1"]);
    let expected = Identity {
        kind: IdentityKind::Plookup,
        left: SelectedExpressions {
            selector: Some(col("ls!")),
            expressions: vec![add(col("l1!"), num(11)), col("l2!")],
        },
        right: SelectedExpressions {
            selector: Some(neg(col("rs!"))),
            expressions: vec![col("r1"), col("r2")],
        },
    };
    assert_eq!(identity, expected);
}

#[test]
fn arrays_are_rewritten_pattern_after_pattern() {
    let mut definition = sample_array();
    let flow = definition.visit_expressions_mut(
        &mut |node: &mut Expression<u64>| {
            if let Expression::Number(n) = node {
                *n *= 2;
            }
            ControlFlow::<()>::Continue(())
        },
        VisitOrder::Post,
    );
    assert_eq!(flow, ControlFlow::Continue(()));
    let expected = FunctionValueDefinition::Array(vec![
        RepeatedArray { pattern: vec![num(2), add(col("x"), num(4))], size: 4 },
        RepeatedArray { pattern: vec![], size: 0 },
        RepeatedArray { pattern: vec![col("y")], size: 2 },
    ]);
    assert_eq!(definition, expected);
}

#[test]
fn single_definitions_are_rewritten_in_place() {
    let mut query = FunctionValueDefinition::Query(col("q"));
    let flow = query.visit_expressions_mut(
        &mut |node: &mut Expression<u64>| {
            *node = num(9);
            ControlFlow::<()>::Continue(())
        },
        VisitOrder::Pre,
    );
    assert_eq!(flow, ControlFlow::Continue(()));
    assert_eq!(query, FunctionValueDefinition::Query(num(9)));

    let mut number: FunctionValueDefinition<u64> = FunctionValueDefinition::Number(3);
    let mut calls = 0;
    let flow = number.visit_expressions_mut(
        &mut |_: &mut Expression<u64>| {
            calls += 1;
            ControlFlow::<()>::Continue(())
        },
        VisitOrder::Post,
    );
    assert_eq!(flow, ControlFlow::Continue(()));
    assert_eq!(calls, 0);
    assert_eq!(number, FunctionValueDefinition::Number(3));
}

#[test]
fn read_only_and_rewriting_traversals_visit_alike() {
    for order in [VisitOrder::Pre, VisitOrder::Post] {
        let mut e = sample();
        let mut seen = vec![];
        let flow = e.visit_expressions_mut(
            &mut |node: &mut Expression<u64>| {
                seen.push(show(node));
                ControlFlow::<()>::Continue(())
            },
            order,
        );
        assert_eq!(flow, ControlFlow::Continue(()));
        assert_eq!(seen, visited(&sample(), order));
        assert_eq!(e, sample());
    }
}

#[test]
fn clone_is_the_same_tree() {
    let e = sample();
    let copy = e.clone();
    assert_eq!(copy, e);
    assert_eq!(show(&copy), "((a + -b) * 3)");
    let identity = sample_identity();
    assert_eq!(identity.clone(), identity);
    assert_eq!(sample_array().clone(), sample_array());
}
