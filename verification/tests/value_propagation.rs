use num_bigint::BigInt;
use program_structure::ast::{
    ExpressionInfixOpcode, ExpressionPrefixOpcode, Meta, VariableName, VariableType,
};
use program_structure::file_definition::FileLocation;
use program_structure::ir::{self, Expression};
use program_structure::value_meta::{ValueMeta, ValueReduction, VarEnvironment};

fn meta() -> ir::Meta {
    ir::Meta::from_ast(&Meta { location: FileLocation { start: 2, end: 4 }, file_id: Some(1) })
}

fn name(text: &str) -> VariableName {
    VariableName::from_name(text.to_string())
}

fn number(value: i64) -> Expression {
    Expression::Number { meta: meta(), value: BigInt::from(value) }
}

fn variable(text: &str) -> Expression {
    Expression::Variable {
        meta: meta(),
        name: name(text),
        xtype: VariableType::Var,
        access: Vec::new(),
    }
}

fn infix(lhe: Expression, infix_op: ExpressionInfixOpcode, rhe: Expression) -> Expression {
    Expression::InfixOp { meta: meta(), lhe: Box::new(lhe), infix_op, rhe: Box::new(rhe) }
}

fn field(value: i64) -> ValueReduction {
    ValueReduction::FieldElement { value: BigInt::from(value) }
}

fn known(e: &Expression) -> Option<String> {
    e.get_reduces_to().map(|v| match v {
        ValueReduction::Boolean { value } => format!("{value}"),
        ValueReduction::FieldElement { value } => format!("{value}"),
    })
}

fn propagated(mut e: Expression, env: &VarEnvironment) -> Expression {
    e.propagate_values(env);
    e
}

#[test]
fn number_reduces_to_itself() {
    let e = propagated(number(7), &VarEnvironment::new());
    assert!(e.is_constant());
    assert!(e.is_field_element());
    assert!(!e.is_boolean());
    assert_eq!(known(&e), Some("7".to_string()));
    assert_eq!(e.get_meta().location, FileLocation { start: 2, end: 4 });
}

#[test]
fn variable_reduces_to_its_last_binding() {
    let mut env = VarEnvironment::new();
    env.add_variable(name("x"), field(1));
    env.add_variable(name("y"), ValueReduction::Boolean { value: true });
    env.add_variable(name("x"), field(2));
    assert_eq!(known(&propagated(variable("x"), &env)), Some("2".to_string()));
    assert_eq!(known(&propagated(variable("y"), &env)), Some("true".to_string()));
    assert_eq!(known(&propagated(variable("z"), &env)), None);
    match env.get_variable(&name("x")) {
        Some(ValueReduction::FieldElement { value }) => assert_eq!(*value, BigInt::from(2)),
        _ => panic!("expected a field element"),
    }
    assert!(env.get_variable(&name("z")).is_none());
}

#[test]
fn comparison_of_known_operands_reduces_to_a_boolean() {
    let mut env = VarEnvironment::new();
    env.add_variable(name("x"), field(3));
    let equal = propagated(infix(variable("x"), ExpressionInfixOpcode::Eq, number(3)), &env);
    assert!(equal.is_boolean());
    assert_eq!(known(&equal), Some("true".to_string()));
    let differ = propagated(infix(variable("x"), ExpressionInfixOpcode::NotEq, number(3)), &env);
    assert_eq!(known(&differ), Some("false".to_string()));
    let unequal = propagated(infix(variable("x"), ExpressionInfixOpcode::Eq, number(4)), &env);
    assert_eq!(known(&unequal), Some("false".to_string()));
    let unknown = propagated(infix(variable("y"), ExpressionInfixOpcode::Eq, number(3)), &env);
    assert_eq!(known(&unknown), None);
    let sum = propagated(infix(variable("x"), ExpressionInfixOpcode::Add, number(3)), &env);
    assert_eq!(known(&sum), None);
    match &sum {
        Expression::InfixOp { lhe, rhe, .. } => {
            assert_eq!(known(lhe), Some("3".to_string()));
            assert_eq!(known(rhe), Some("3".to_string()));
        }
        _ => panic!("expected an infix operation"),
    }
}

#[test]
fn boolean_operations_of_known_operands_reduce() {
    let env = VarEnvironment::new();
    let yes = || infix(number(1), ExpressionInfixOpcode::Eq, number(1));
    let no = || infix(number(1), ExpressionInfixOpcode::Eq, number(2));
    let both = propagated(infix(yes(), ExpressionInfixOpcode::BoolAnd, no()), &env);
    assert_eq!(known(&both), Some("false".to_string()));
    let either = propagated(infix(yes(), ExpressionInfixOpcode::BoolOr, no()), &env);
    assert_eq!(known(&either), Some("true".to_string()));
    let not = propagated(
        Expression::PrefixOp {
            meta: meta(),
            prefix_op: ExpressionPrefixOpcode::BoolNot,
            rhe: Box::new(no()),
        },
        &env,
    );
    assert_eq!(known(&not), Some("true".to_string()));
    let minus = propagated(
        Expression::PrefixOp {
            meta: meta(),
            prefix_op: ExpressionPrefixOpcode::Sub,
            rhe: Box::new(number(1)),
        },
        &env,
    );
    assert_eq!(known(&minus), None);
    let mixed = propagated(infix(yes(), ExpressionInfixOpcode::Eq, number(1)), &env);
    assert_eq!(known(&mixed), None);
}

#[test]
fn switch_reduces_to_the_selected_branch_or_what_both_agree_on() {
    let switch = |cond: Expression, if_true: Expression, if_false: Expression| {
        Expression::InlineSwitchOp {
            meta: meta(),
            cond: Box::new(cond),
            if_true: Box::new(if_true),
            if_false: Box::new(if_false),
        }
    };
    let env = VarEnvironment::new();
    let yes = infix(number(1), ExpressionInfixOpcode::Eq, number(1));
    assert_eq!(known(&propagated(switch(yes, number(5), number(6)), &env)), Some("5".to_string()));
    let no = infix(number(1), ExpressionInfixOpcode::Eq, number(2));
    assert_eq!(known(&propagated(switch(no, number(5), number(6)), &env)), Some("6".to_string()));
    let agree = switch(variable("c"), number(5), number(5));
    assert_eq!(known(&propagated(agree, &env)), Some("5".to_string()));
    let disagree = switch(variable("c"), number(5), number(6));
    assert_eq!(known(&propagated(disagree, &env)), None);
}

#[test]
fn propagating_again_never_changes_what_is_known() {
    let mut first = VarEnvironment::new();
    first.add_variable(name("x"), field(3));
    let mut second = VarEnvironment::new();
    second.add_variable(name("x"), field(4));
    second.add_variable(name("y"), field(9));
    let mut e = infix(variable("x"), ExpressionInfixOpcode::Eq, variable("y"));
    e.propagate_values(&first);
    assert_eq!(known(&e), None);
    e.propagate_values(&second);
    match &e {
        Expression::InfixOp { lhe, rhe, .. } => {
            assert_eq!(known(lhe), Some("3".to_string()));
            assert_eq!(known(rhe), Some("9".to_string()));
        }
        _ => panic!("expected an infix operation"),
    }
    assert_eq!(known(&e), Some("false".to_string()));
    e.propagate_values(&VarEnvironment::new());
    e.propagate_values(&first);
    assert_eq!(known(&e), Some("false".to_string()));
}

#[test]
fn calls_and_arrays_are_not_reduced_but_their_parts_are() {
    let env = VarEnvironment::new();
    let call = propagated(
        Expression::Call { meta: meta(), id: "f".to_string(), args: vec![number(1), number(2)] },
        &env,
    );
    assert_eq!(known(&call), None);
    match &call {
        Expression::Call { id, args, .. } => {
            assert_eq!(id, "f");
            assert_eq!(known(&args[1]), Some("2".to_string()));
        }
        _ => panic!("expected a call"),
    }
    let indexed = propagated(
        Expression::Variable {
            meta: meta(),
            name: name("a"),
            xtype: VariableType::Var,
            access: vec![
                ir::Access::ArrayAccess { index: number(0) },
                ir::Access::ComponentAccess { name: "out".to_string() },
            ],
        },
        &env,
    );
    match &indexed {
        Expression::Variable { access, .. } => match &access[0] {
            ir::Access::ArrayAccess { index } => assert_eq!(known(index), Some("0".to_string())),
            _ => panic!("expected an index"),
        },
        _ => panic!("expected a variable"),
    }
}
