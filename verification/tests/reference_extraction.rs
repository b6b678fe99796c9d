use constraint_core::expression::{
    BinaryOperator, Expression, Identity, IdentityKind, SelectedExpressions, UnaryOperator,
};
use constraint_core::machine_extractor::ReferenceExtractor;
use constraint_core::name_set::NameSet;

fn names(list: &[&str]) -> NameSet {
    NameSet::from_names(list.iter().map(|n| n.to_string()).collect())
}

fn reference(name: &str) -> Expression<u64> {
    Expression::Reference(name.to_string())
}

fn sum(left: Expression<u64>, right: Expression<u64>) -> Expression<u64> {
    Expression::BinaryOperation(Box::new(left), BinaryOperator::Add, Box::new(right))
}

fn holds_exactly(set: &NameSet, expected: &[&str]) -> bool {
    set.len() == expected.len() && expected.iter().all(|n| set.contains(&n.to_string()))
}

#[test]
fn reference_is_found_if_looked_for() {
    let extractor = ReferenceExtractor::new(names(&["a", "b"]));
    assert!(holds_exactly(&extractor.in_expression(&reference("a")), &["a"]));
    assert!(holds_exactly(&extractor.in_expression(&reference("c")), &[]));
}

#[test]
fn numbers_and_public_values_refer_to_nothing() {
    let extractor = ReferenceExtractor::new(names(&["a", "b"]));
    let number: Expression<u64> = Expression::Number(7);
    let public: Expression<u64> = Expression::PublicReference("a".to_string());
    assert!(extractor.in_expression(&number).is_empty());
    assert!(extractor.in_expression(&public).is_empty());
}

#[test]
fn operations_join_what_their_operands_refer_to() {
    let extractor = ReferenceExtractor::new(names(&["a", "b", "d"]));
    let expr = sum(
        Expression::UnaryOperation(UnaryOperator::Minus, Box::new(reference("a"))),
        sum(reference("c"), sum(reference("b"), reference("a"))),
    );
    assert!(holds_exactly(&extractor.in_expression(&expr), &["a", "b"]));
}

#[test]
fn list_of_expressions_joins_its_members() {
    let extractor = ReferenceExtractor::new(names(&["a", "b", "c"]));
    let list = vec![reference("a"), Expression::Number(1), sum(reference("c"), reference("x"))];
    assert!(holds_exactly(&extractor.in_expressions(&list), &["a", "c"]));
    assert!(extractor.in_expressions::<u64>(&[]).is_empty());
}

#[test]
fn nothing_selected_refers_to_nothing() {
    let side: SelectedExpressions<u64> = SelectedExpressions { selector: None, expressions: vec![] };
    assert!(ReferenceExtractor::new(names(&["a", "b"])).in_selected_expressions(&side).is_empty());
    assert!(ReferenceExtractor::new(names(&[])).in_selected_expressions(&side).is_empty());
}

#[test]
fn selector_and_expressions_are_both_searched() {
    let extractor = ReferenceExtractor::new(names(&["s", "a", "b"]));
    let side = SelectedExpressions {
        selector: Some(reference("s")),
        expressions: vec![reference("a"), reference("z")],
    };
    assert!(holds_exactly(&extractor.in_selected_expressions(&side), &["s", "a"]));
    let unselected =
        SelectedExpressions { selector: None, expressions: vec![reference("b"), reference("z")] };
    assert!(holds_exactly(&extractor.in_selected_expressions(&unselected), &["b"]));
    let selector_only: SelectedExpressions<u64> =
        SelectedExpressions { selector: Some(reference("s")), expressions: vec![] };
    assert!(holds_exactly(&extractor.in_selected_expressions(&selector_only), &["s"]));
}

#[test]
fn identity_is_searched_on_both_sides() {
    let extractor = ReferenceExtractor::new(names(&["l", "r", "s"]));
    let identity = Identity {
        kind: IdentityKind::Permutation,
        left: SelectedExpressions { selector: None, expressions: vec![reference("l")] },
        right: SelectedExpressions {
            selector: Some(reference("s")),
            expressions: vec![reference("r"), reference("q")],
        },
    };
    assert!(holds_exactly(&extractor.in_identity(&identity), &["l", "r", "s"]));
}

#[test]
fn name_set_keeps_each_name_once() {
    let mut set = NameSet::new();
    assert!(set.is_empty());
    assert!(set.insert("a".to_string()));
    assert!(!set.insert("a".to_string()));
    assert!(set.insert("b".to_string()));
    assert_eq!(set.len(), 2);
    assert!(set.contains(&"a".to_string()));
    assert!(!set.contains(&"c".to_string()));
    assert!(!set.is_empty());
    assert_eq!(names(&["x", "y", "x", "x"]).len(), 2);
}

#[test]
fn name_set_union_and_subset() {
    let left = names(&["a", "b"]);
    let right = names(&["b", "c"]);
    let both = left.union(&right);
    assert!(holds_exactly(&both, &["a", "b", "c"]));
    assert!(left.is_subset(&both));
    assert!(right.is_subset(&both));
    assert!(!both.is_subset(&left));
    assert!(names(&[]).is_subset(&left));
    assert!(holds_exactly(&left.union(&names(&[])), &["a", "b"]));
    let copy = both.clone();
    assert!(copy.is_subset(&both) && both.is_subset(&copy));
}
