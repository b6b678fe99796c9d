use constraint_core::column_names::{get_all_col_names, sanitize_name};

fn strings(list: &[&str]) -> Vec<String> {
    list.iter().map(|s| s.to_string()).collect()
}

fn columns(list: &[&str]) -> Vec<(String, Vec<u64>)> {
    list.iter().map(|s| (s.to_string(), vec![0, 1])).collect()
}

#[test]
fn dots_and_brackets_become_underscores() {
    assert_eq!(sanitize_name(&"main.x[3]".to_string()), "main_x_3_");
    assert_eq!(sanitize_name(&"a.b.c".to_string()), "a_b_c");
    assert_eq!(sanitize_name(&"[[..]]".to_string()), "______");
}

#[test]
fn other_characters_stay() {
    assert_eq!(sanitize_name(&"plain_name9".to_string()), "plain_name9");
    assert_eq!(sanitize_name(&"x(1) {é}".to_string()), "x(1) {é}");
    assert_eq!(sanitize_name(&String::new()), "");
}

#[test]
fn column_names_are_listed_fixed_first() {
    let fixed = columns(&["main.first", "main.last"]);
    let witness = columns(&["main.w[0]", "main.v"]);
    let to_be_shifted = strings(&["main_v", "main_first"]);

    let (fixed_names, witness_names, all_cols, unshifted, given, shifted, with_shifts) =
        get_all_col_names(&fixed, &witness, &to_be_shifted);

    assert_eq!(fixed_names, strings(&["main_first", "main_last"]));
    assert_eq!(witness_names, strings(&["main_w_0_", "main_v"]));
    assert_eq!(all_cols, strings(&["main_first", "main_last", "main_w_0_", "main_v"]));
    assert_eq!(unshifted, strings(&["main_first", "main_last", "main_w_0_", "main_v"]));
    assert_eq!(given, strings(&["main_v", "main_first"]));
    assert_eq!(shifted, strings(&["main_v_shift", "main_first_shift"]));
    assert_eq!(
        with_shifts,
        strings(&[
            "main_first",
            "main_last",
            "main_w_0_",
            "main_v",
            "main_v_shift",
            "main_first_shift"
        ])
    );
}

#[test]
fn column_named_like_a_shifted_copy_is_not_unshifted() {
    let fixed = columns(&["x_shift", "y"]);
    let witness = columns(&["x", "z.shift", "z_shift"]);
    let to_be_shifted = strings(&["x", "z"]);

    let (_, _, all_cols, unshifted, _, shifted, with_shifts) =
        get_all_col_names(&fixed, &witness, &to_be_shifted);

    assert_eq!(all_cols, strings(&["x_shift", "y", "x", "z_shift", "z_shift"]));
    assert_eq!(shifted, strings(&["x_shift", "z_shift"]));
    assert_eq!(unshifted, strings(&["y", "x"]));
    assert_eq!(
        with_shifts,
        strings(&["x_shift", "y", "x", "z_shift", "z_shift", "x_shift", "z_shift"])
    );
}

#[test]
fn no_columns_give_no_names() {
    let none: Vec<(String, Vec<u64>)> = vec![];
    let (fixed_names, witness_names, all_cols, unshifted, given, shifted, with_shifts) =
        get_all_col_names(&none, &none, &[]);
    assert!(fixed_names.is_empty());
    assert!(witness_names.is_empty());
    assert!(all_cols.is_empty());
    assert!(unshifted.is_empty());
    assert!(given.is_empty());
    assert!(shifted.is_empty());
    assert!(with_shifts.is_empty());
}

#[test]
fn names_to_shift_are_not_made_safe() {
    let fixed = columns(&[]);
    let witness = columns(&["a.b"]);
    let to_be_shifted = strings(&["a.b"]);
    let (_, witness_names, _, _, given, shifted, _) =
        get_all_col_names(&fixed, &witness, &to_be_shifted);
    assert_eq!(witness_names, strings(&["a_b"]));
    assert_eq!(given, strings(&["a.b"]));
    assert_eq!(shifted, strings(&["a.b_shift"]));
}
