use rotom::compiler::macro_condition::{arg_count_condition, condition_bindings};
use rotom::database::{ParamDef, ParamType};

#[test]
fn arg_count_conditions() {
    assert_eq!(arg_count_condition("1 arg"), Some(1));
    assert_eq!(arg_count_condition("2 args"), Some(2));
    assert_eq!(arg_count_condition("3 arg(s)"), Some(3));
    assert_eq!(arg_count_condition("x args"), None);
    assert_eq!(arg_count_condition("value == 1"), None);
    assert_eq!(arg_count_condition("99999999999999999999999 args"), Some(0));
}

#[test]
fn condition_bindings_pair_names_with_resolved_arguments() {
    let p = |n: &str| ParamDef {
        name: n.to_string(),
        param_type: ParamType::U16,
        const_value: None,
        default: None,
        optional: false,
    };
    let params = vec![p("a"), p("b"), p("c")];
    let b = condition_bindings(&[Some(1), None, Some(-3), Some(9)], &params);
    assert_eq!(b, vec![("a".to_string(), 1i64), ("c".to_string(), -3i64)]);
    assert!(condition_bindings(&[], &params).is_empty());
}
