use constraint_core::expression::{
    BinaryOperator, Expression, Identity, IdentityKind, SelectedExpressions,
};
use constraint_core::machine::{FixedColumn, FixedData, WitnessColumn};
use constraint_core::machine_extractor::split_out_machines;

fn column(name: &str) -> Expression<u64> {
    Expression::Reference(name.to_string())
}

fn difference(left: &str, right: &str) -> Expression<u64> {
    Expression::BinaryOperation(
        Box::new(column(left)),
        BinaryOperator::Sub,
        Box::new(column(right)),
    )
}

fn nothing_selected() -> SelectedExpressions<u64> {
    SelectedExpressions { selector: None, expressions: vec![] }
}

/// The polynomial identity `left = right`.
fn equality(left: &str, right: &str) -> Identity<u64> {
    Identity {
        kind: IdentityKind::Polynomial,
        left: SelectedExpressions { selector: Some(difference(left, right)), expressions: vec![] },
        right: nothing_selected(),
    }
}

/// The lookup `{} in { column }`.
fn lookup_into(column_name: &str) -> Identity<u64> {
    Identity {
        kind: IdentityKind::Plookup,
        left: nothing_selected(),
        right: SelectedExpressions { selector: None, expressions: vec![column(column_name)] },
    }
}

fn witnesses(names: &[&str]) -> Vec<WitnessColumn<u64>> {
    names.iter().map(|n| WitnessColumn { name: n.to_string(), values: vec![1, 2, 3] }).collect()
}

fn fixed_data() -> FixedData<u64> {
    FixedData {
        fixed_cols: vec![
            FixedColumn { name: "fixed1".to_string(), values: vec![0, 1] },
            FixedColumn { name: "fixed2".to_string(), values: vec![0, 1] },
        ],
    }
}

#[test]
fn lookup_target_becomes_the_machine() {
    let fixed = fixed_data();
    let identities =
        vec![equality("w1", "w2"), lookup_into("w4"), equality("fixed1", "fixed2")];
    let witness_cols = witnesses(&["w1", "w2", "w3", "w4"]);

    let (machines, residual) = split_out_machines(&fixed, &identities, &witness_cols);

    assert_eq!(machines.len(), 1);
    let machine = &machines[0];
    assert_eq!(machine.identities().len(), 1);
    assert!(std::ptr::eq(machine.identities()[0], &identities[1]));
    assert_eq!(machine.witnesses().len(), 1);
    assert!(machine.witnesses().contains(&"w4".to_string()));
    assert!(!machine.witnesses().contains(&"w3".to_string()));
    assert!(std::ptr::eq(machine.fixed(), &fixed));

    assert_eq!(residual.len(), 2);
    assert!(std::ptr::eq(residual[0], &identities[0]));
    assert!(std::ptr::eq(residual[1], &identities[2]));
    assert_eq!(*residual[0], equality("w1", "w2"));
    assert_eq!(*residual[1], equality("fixed1", "fixed2"));
}

#[test]
fn identity_with_an_outside_witness_stays_outside() {
    let fixed = fixed_data();
    let identities = vec![
        equality("w1", "w2"),
        lookup_into("w4"),
        equality("fixed1", "fixed2"),
        equality("w4", "w5"),
    ];
    let witness_cols = witnesses(&["w1", "w2", "w3", "w4", "w5"]);

    let (machines, residual) = split_out_machines(&fixed, &identities, &witness_cols);

    assert_eq!(machines.len(), 1);
    assert_eq!(machines[0].identities().len(), 1);
    assert!(std::ptr::eq(machines[0].identities()[0], &identities[1]));
    assert_eq!(machines[0].witnesses().len(), 1);
    assert!(machines[0].witnesses().contains(&"w4".to_string()));
    assert!(!machines[0].witnesses().contains(&"w5".to_string()));

    assert_eq!(residual.len(), 3);
    assert!(std::ptr::eq(residual[0], &identities[0]));
    assert!(std::ptr::eq(residual[1], &identities[2]));
    assert!(std::ptr::eq(residual[2], &identities[3]));
}

#[test]
fn identity_over_machine_witnesses_only_joins_the_machine() {
    let fixed = fixed_data();
    // w4 and w5 both occur on a right-hand side, so `w4 = w5` is the
    // machine's own.
    let identities = vec![
        lookup_into("w4"),
        equality("w1", "w2"),
        equality("w4", "w5"),
        lookup_into("w5"),
    ];
    let witness_cols = witnesses(&["w1", "w2", "w4", "w5"]);

    let (machines, residual) = split_out_machines(&fixed, &identities, &witness_cols);

    assert_eq!(machines.len(), 1);
    let inside = machines[0].identities();
    assert_eq!(inside.len(), 3);
    assert!(std::ptr::eq(inside[0], &identities[0]));
    assert!(std::ptr::eq(inside[1], &identities[2]));
    assert!(std::ptr::eq(inside[2], &identities[3]));
    assert_eq!(machines[0].witnesses().len(), 2);
    assert!(machines[0].witnesses().contains(&"w4".to_string()));
    assert!(machines[0].witnesses().contains(&"w5".to_string()));
    assert_eq!(residual.len(), 1);
    assert!(std::ptr::eq(residual[0], &identities[1]));
}

#[test]
fn no_witness_on_a_right_hand_side_gives_no_machine() {
    let fixed = fixed_data();
    let identities =
        vec![equality("w1", "w2"), lookup_into("fixed1"), equality("fixed1", "w2")];
    let witness_cols = witnesses(&["w1", "w2"]);

    let (machines, residual) = split_out_machines(&fixed, &identities, &witness_cols);

    assert!(machines.is_empty());
    assert_eq!(residual.len(), 3);
    for (kept, given) in residual.iter().zip(identities.iter()) {
        assert!(std::ptr::eq(*kept, given));
    }
}

#[test]
fn no_identities_give_no_machine_and_no_residual() {
    let fixed = fixed_data();
    let identities: Vec<Identity<u64>> = vec![];
    let witness_cols = witnesses(&["w1"]);

    let (machines, residual) = split_out_machines(&fixed, &identities, &witness_cols);

    assert!(machines.is_empty());
    assert!(residual.is_empty());
}

#[test]
fn identity_without_witnesses_stays_outside() {
    let fixed = fixed_data();
    let identities = vec![equality("fixed1", "fixed2"), lookup_into("w1")];
    let witness_cols = witnesses(&["w1"]);

    let (machines, residual) = split_out_machines(&fixed, &identities, &witness_cols);

    assert_eq!(machines.len(), 1);
    assert_eq!(machines[0].identities().len(), 1);
    assert!(std::ptr::eq(machines[0].identities()[0], &identities[1]));
    assert_eq!(residual.len(), 1);
    assert!(std::ptr::eq(residual[0], &identities[0]));
}

#[test]
fn the_two_parts_hold_every_identity_once_and_in_order() {
    let fixed = fixed_data();
    let identities = vec![
        equality("a", "b"),
        lookup_into("m"),
        equality("m", "m"),
        equality("m", "a"),
        equality("fixed1", "m"),
        equality("fixed1", "fixed2"),
    ];
    let witness_cols = witnesses(&["a", "b", "m"]);

    let (machines, residual) = split_out_machines(&fixed, &identities, &witness_cols);

    assert_eq!(machines.len(), 1);
    let inside = machines[0].identities();
    assert_eq!(inside.len() + residual.len(), identities.len());
    let place = |id: &Identity<u64>| {
        identities.iter().position(|given| std::ptr::eq(given, id)).unwrap()
    };
    let inside_at: Vec<usize> = inside.iter().map(|id| place(id)).collect();
    let residual_at: Vec<usize> = residual.iter().map(|id| place(id)).collect();
    assert_eq!(inside_at, vec![1, 2, 4]);
    assert_eq!(residual_at, vec![0, 3, 5]);
}

#[test]
fn machine_identities_refer_to_no_outside_witness() {
    let fixed = fixed_data();
    let identities = vec![
        lookup_into("m"),
        equality("m", "a"),
        equality("m", "fixed2"),
        equality("b", "a"),
    ];
    let witness_cols = witnesses(&["a", "b", "m"]);

    let (machines, _) = split_out_machines(&fixed, &identities, &witness_cols);

    assert_eq!(machines.len(), 1);
    let machine = &machines[0];
    assert_eq!(machine.identities().len(), 2);
    let all = constraint_core::machine_extractor::ReferenceExtractor::new(
        constraint_core::name_set::NameSet::from_names(vec![
            "a".to_string(),
            "b".to_string(),
            "m".to_string(),
        ]),
    );
    for id in machine.identities().iter() {
        assert!(all.in_identity(id).is_subset(machine.witnesses()));
    }
}
