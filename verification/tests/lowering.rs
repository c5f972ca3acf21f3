use num_bigint::BigInt;
use program_structure::ast::{
    Access, AssignOp, Expression, ExpressionInfixOpcode, ExpressionPrefixOpcode, Meta, SignalType,
    Statement, VariableName, VariableType,
};
use program_structure::environment::IREnvironment;
use program_structure::errors::CFGError;
use program_structure::file_definition::FileLocation;
use program_structure::ir;

fn meta(start: usize) -> Meta {
    Meta { location: FileLocation { start, end: start + 3 }, file_id: Some(4) }
}

fn name(text: &str) -> VariableName {
    VariableName::from_name(text.to_string())
}

fn number(value: i64) -> Expression {
    Expression::Number { meta: meta(10), value: BigInt::from(value) }
}

fn variable(text: &str) -> Expression {
    Expression::Variable { meta: meta(20), name: name(text), access: Vec::new() }
}

fn environment() -> IREnvironment {
    let mut env = IREnvironment::new();
    for (text, xtype) in [
        ("v", VariableType::Var),
        ("s", VariableType::Signal(SignalType::Input)),
        ("c", VariableType::Component),
    ] {
        let declaration = ir::Declaration {
            meta: ir::Meta::from_ast(&meta(0)),
            name: name(text),
            xtype,
            dimensions: Vec::new(),
        };
        env.add_declaration(declaration).unwrap();
    }
    env
}

fn kind_of(e: &ir::Expression) -> VariableType {
    match e {
        ir::Expression::Variable { xtype, .. } => *xtype,
        _ => panic!("expected a variable"),
    }
}

#[test]
fn number_keeps_its_value_and_place() {
    match number(42).try_into_ir(&environment()).unwrap() {
        ir::Expression::Number { meta, value } => {
            assert_eq!(value, BigInt::from(42));
            assert_eq!(meta.location, FileLocation { start: 10, end: 13 });
            assert_eq!(meta.file_id, Some(4));
            assert!(!meta.value_knowledge.is_constant());
        }
        _ => panic!("expected a number"),
    }
}

#[test]
fn variable_gets_the_kind_it_was_declared_with() {
    let env = environment();
    assert_eq!(kind_of(&variable("v").try_into_ir(&env).unwrap()), VariableType::Var);
    assert_eq!(
        kind_of(&variable("s").try_into_ir(&env).unwrap()),
        VariableType::Signal(SignalType::Input)
    );
    assert_eq!(kind_of(&variable("c").try_into_ir(&env).unwrap()), VariableType::Component);
    assert_eq!(variable("w").try_into_ir(&env).err(), Some(CFGError::UnknownSymbol));
}

#[test]
fn accesses_are_lowered_in_order() {
    let e = Expression::Variable {
        meta: meta(0),
        name: name("c"),
        access: vec![
            Access::ArrayAccess { index: variable("v") },
            Access::ComponentAccess { name: "out".to_string() },
        ],
    };
    match e.try_into_ir(&environment()).unwrap() {
        ir::Expression::Variable { access, .. } => {
            assert_eq!(access.len(), 2);
            match &access[0] {
                ir::Access::ArrayAccess { index } => assert_eq!(kind_of(index), VariableType::Var),
                _ => panic!("expected an index"),
            }
            match &access[1] {
                ir::Access::ComponentAccess { name } => assert_eq!(name, "out"),
                _ => panic!("expected a component access"),
            }
        }
        _ => panic!("expected a variable"),
    }
    let unknown_index = Expression::Variable {
        meta: meta(0),
        name: name("c"),
        access: vec![Access::ArrayAccess { index: variable("w") }],
    };
    assert_eq!(unknown_index.try_into_ir(&environment()).err(), Some(CFGError::UnknownSymbol));
}

#[test]
fn operators_keep_their_opcode() {
    let env = environment();
    let infix = Expression::InfixOp {
        meta: meta(0),
        lhe: Box::new(variable("v")),
        infix_op: ExpressionInfixOpcode::ShiftL,
        rhe: Box::new(number(1)),
    };
    match infix.try_into_ir(&env).unwrap() {
        ir::Expression::InfixOp { infix_op, lhe, rhe, .. } => {
            assert_eq!(infix_op, ExpressionInfixOpcode::ShiftL);
            assert!(matches!(*lhe, ir::Expression::Variable { .. }));
            assert!(matches!(*rhe, ir::Expression::Number { .. }));
        }
        _ => panic!("expected an infix operation"),
    }
    let prefix = Expression::PrefixOp {
        meta: meta(0),
        prefix_op: ExpressionPrefixOpcode::Complement,
        rhe: Box::new(variable("v")),
    };
    match prefix.try_into_ir(&env).unwrap() {
        ir::Expression::PrefixOp { prefix_op, .. } => {
            assert_eq!(prefix_op, ExpressionPrefixOpcode::Complement)
        }
        _ => panic!("expected a prefix operation"),
    }
}

#[test]
fn inline_switch_stays_an_expression() {
    let switch = Expression::InlineSwitchOp {
        meta: meta(0),
        cond: Box::new(variable("v")),
        if_true: Box::new(number(1)),
        if_false: Box::new(number(2)),
    };
    assert!(matches!(
        switch.try_into_ir(&environment()).unwrap(),
        ir::Expression::InlineSwitchOp { .. }
    ));
}

#[test]
fn every_kind_of_expression_lowers_to_its_counterpart() {
    let env = environment();
    let args = || vec![variable("v"), number(2)];
    let call = Expression::Call { meta: meta(0), id: "f".to_string(), args: args() };
    match call.try_into_ir(&env).unwrap() {
        ir::Expression::Call { id, args, .. } => {
            assert_eq!(id, "f");
            assert_eq!(args.len(), 2);
        }
        _ => panic!("expected a call"),
    }
    let anonymous =
        Expression::AnonymousComponent { meta: meta(0), id: "T".to_string(), args: args() };
    assert!(matches!(
        anonymous.try_into_ir(&env).unwrap(),
        ir::Expression::AnonymousComponent { .. }
    ));
    let array = Expression::ArrayInLine { meta: meta(0), values: args() };
    assert!(matches!(array.try_into_ir(&env).unwrap(), ir::Expression::ArrayInLine { .. }));
    let tuple = Expression::Tuple { meta: meta(0), values: args() };
    assert!(matches!(tuple.try_into_ir(&env).unwrap(), ir::Expression::Tuple { .. }));
    let uniform = Expression::UniformArray {
        meta: meta(0),
        value: Box::new(number(0)),
        dimension: Box::new(variable("v")),
    };
    assert!(matches!(uniform.try_into_ir(&env).unwrap(), ir::Expression::UniformArray { .. }));
    let parallel = Expression::ParallelOp { meta: meta(0), rhe: Box::new(variable("c")) };
    assert!(matches!(parallel.try_into_ir(&env).unwrap(), ir::Expression::ParallelOp { .. }));
    let unknown_argument =
        Expression::Call { meta: meta(0), id: "f".to_string(), args: vec![variable("w")] };
    assert_eq!(unknown_argument.try_into_ir(&env).err(), Some(CFGError::UnknownSymbol));
}

#[test]
fn plain_statements_lower_to_their_counterparts() {
    let env = environment();
    let substitution = Statement::Substitution {
        meta: meta(30),
        var: name("s"),
        access: Vec::new(),
        op: AssignOp::AssignConstraintSignal,
        rhe: number(1),
    };
    match substitution.try_into_ir(&env).unwrap() {
        ir::Statement::Substitution { var, xtype, op, meta, .. } => {
            assert_eq!(var.name, "s");
            assert_eq!(xtype, VariableType::Signal(SignalType::Input));
            assert_eq!(op, AssignOp::AssignConstraintSignal);
            assert_eq!(meta.location, FileLocation { start: 30, end: 33 });
        }
        _ => panic!("expected a substitution"),
    }
    let assert = Statement::Assert { meta: meta(0), arg: variable("v") };
    assert!(matches!(assert.try_into_ir(&env).unwrap(), ir::Statement::Assert { .. }));
    let log = Statement::LogCall { meta: meta(0), args: vec![variable("v"), number(1)] };
    match log.try_into_ir(&env).unwrap() {
        ir::Statement::LogCall { args, .. } => assert_eq!(args.len(), 2),
        _ => panic!("expected a log call"),
    }
    let multi = Statement::MultiSubstitution {
        meta: meta(0),
        lhe: Expression::Tuple { meta: meta(0), values: vec![variable("v"), variable("s")] },
        op: AssignOp::AssignVar,
        rhe: Expression::Call { meta: meta(0), id: "f".to_string(), args: Vec::new() },
    };
    assert!(matches!(
        multi.try_into_ir(&env).unwrap(),
        ir::Statement::MultiSubstitution { .. }
    ));
    let unknown_target = Statement::Substitution {
        meta: meta(0),
        var: name("w"),
        access: Vec::new(),
        op: AssignOp::AssignVar,
        rhe: number(1),
    };
    assert_eq!(unknown_target.try_into_ir(&env).err(), Some(CFGError::UnknownSymbol));
}

#[test]
fn declaration_lowers_its_dimensions() {
    let env = environment();
    let declaration = Statement::Declaration {
        meta: meta(40),
        xtype: VariableType::Signal(SignalType::Output),
        name: name("out"),
        dimensions: vec![variable("v"), number(3)],
        is_constant: false,
    };
    let lowered = declaration.declaration_into_ir(&env).unwrap();
    assert_eq!(lowered.name.name, "out");
    assert_eq!(lowered.xtype, VariableType::Signal(SignalType::Output));
    assert_eq!(lowered.dimensions.len(), 2);
    assert_eq!(lowered.meta.location, FileLocation { start: 40, end: 43 });
    let unknown_dimension = Statement::Declaration {
        meta: meta(40),
        xtype: VariableType::Var,
        name: name("a"),
        dimensions: vec![variable("w")],
        is_constant: false,
    };
    assert_eq!(
        unknown_dimension.declaration_into_ir(&env).err(),
        Some(CFGError::UnknownSymbol)
    );
}
