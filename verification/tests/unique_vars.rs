use num_bigint::BigInt;
use program_structure::ast::{
    AssignOp, Expression, ExpressionInfixOpcode, Meta, SignalType, Statement, VariableName,
    VariableType,
};
use program_structure::file_definition::FileLocation;
use program_structure::parameter_data::{DefinitionKind, ParameterData};
use program_structure::report::MessageCategory;
use program_structure::unique_vars::ensure_unique_variables;

fn meta(start: usize) -> Meta {
    Meta { location: FileLocation { start, end: start + 1 }, file_id: Some(7) }
}

fn name(text: &str, version: usize) -> VariableName {
    VariableName { name: text.to_string(), version }
}

fn number(value: i64) -> Expression {
    Expression::Number { meta: meta(0), value: BigInt::from(value) }
}

fn variable(text: &str) -> Expression {
    Expression::Variable { meta: meta(0), name: name(text, 0), access: Vec::new() }
}

fn declare(text: &str, version: usize, xtype: VariableType, at: usize) -> Statement {
    Statement::Declaration {
        meta: meta(at),
        xtype,
        name: name(text, version),
        dimensions: Vec::new(),
        is_constant: false,
    }
}

fn declare_var(text: &str, value: i64) -> Statement {
    Statement::InitializationBlock {
        meta: meta(0),
        xtype: VariableType::Var,
        initializations: vec![
            declare(text, 0, VariableType::Var, 0),
            Statement::Substitution {
                meta: meta(0),
                var: name(text, 0),
                access: Vec::new(),
                op: AssignOp::AssignVar,
                rhe: number(value),
            },
        ],
    }
}

fn constrain(lhe: Expression, rhe: Expression) -> Statement {
    Statement::ConstraintEquality { meta: meta(0), lhe, rhe }
}

fn block(stmts: Vec<Statement>) -> Statement {
    Statement::Block { meta: meta(0), stmts }
}

fn parameters(params: &[&str]) -> ParameterData {
    ParameterData {
        name: "T".to_string(),
        kind: DefinitionKind::Template,
        file_id: Some(7),
        location: FileLocation { start: 0, end: 1 },
        param_names: params.iter().map(|p| p.to_string()).collect(),
        input_signals: Vec::new(),
        output_signals: Vec::new(),
        components: Vec::new(),
    }
}

fn statements(stmt: &Statement) -> &Vec<Statement> {
    match stmt {
        Statement::Block { stmts, .. } => stmts,
        Statement::InitializationBlock { initializations, .. } => initializations,
        _ => panic!("expected a block"),
    }
}

fn declared_name(stmt: &Statement) -> (String, usize) {
    match stmt {
        Statement::Declaration { name, .. } => (name.name.clone(), name.version),
        Statement::InitializationBlock { initializations, .. } => declared_name(&initializations[0]),
        _ => panic!("expected a declaration"),
    }
}

fn assigned_name(stmt: &Statement) -> (String, usize) {
    match stmt {
        Statement::InitializationBlock { initializations, .. } => match &initializations[1] {
            Statement::Substitution { var, .. } => (var.name.clone(), var.version),
            _ => panic!("expected a substitution"),
        },
        _ => panic!("expected an initialization block"),
    }
}

fn constrained_name(stmt: &Statement) -> (String, usize) {
    match stmt {
        Statement::ConstraintEquality { lhe: Expression::Variable { name, .. }, .. } => {
            (name.name.clone(), name.version)
        }
        _ => panic!("expected a constraint on a variable"),
    }
}

fn x(version: usize) -> (String, usize) {
    ("x".to_string(), version)
}

#[test]
fn inner_declaration_of_a_taken_name_is_renamed() {
    let body = block(vec![
        declare_var("x", 1),
        block(vec![declare_var("x", 2), constrain(variable("x"), number(2))]),
        constrain(variable("x"), number(1)),
    ]);
    let (out, reports) = ensure_unique_variables(&body, &parameters(&[]));
    assert!(reports.is_empty());
    let outer = statements(&out);
    assert_eq!(declared_name(&outer[0]), x(0));
    assert_eq!(assigned_name(&outer[0]), x(0));
    let inner = statements(&outer[1]);
    assert_eq!(declared_name(&inner[0]), x(1));
    assert_eq!(assigned_name(&inner[0]), x(1));
    assert_eq!(constrained_name(&inner[1]), x(1));
    assert_eq!(constrained_name(&outer[2]), x(0));
}

#[test]
fn body_of_unique_variables_is_left_as_it_is() {
    let body = block(vec![
        declare_var("x", 1),
        Statement::IfThenElse {
            meta: meta(3),
            cond: Expression::InfixOp {
                meta: meta(4),
                lhe: Box::new(variable("x")),
                infix_op: ExpressionInfixOpcode::Eq,
                rhe: Box::new(number(1)),
            },
            if_case: Box::new(block(vec![declare_var("y", 2)])),
            else_case: Some(Box::new(block(vec![declare_var("z", 3)]))),
        },
        constrain(variable("x"), number(1)),
    ]);
    let (out, reports) = ensure_unique_variables(&body, &parameters(&["n"]));
    assert!(reports.is_empty());
    assert_eq!(format!("{:?}", out), format!("{:?}", body));
}

#[test]
fn rewriting_twice_changes_nothing_more() {
    let body = block(vec![
        declare_var("x", 1),
        block(vec![declare_var("x", 2)]),
        block(vec![declare_var("x", 3)]),
    ]);
    let (once, _) = ensure_unique_variables(&body, &parameters(&[]));
    let (twice, reports) = ensure_unique_variables(&once, &parameters(&[]));
    assert!(reports.is_empty());
    assert_eq!(format!("{:?}", twice), format!("{:?}", once));
}

#[test]
fn declarations_in_sibling_blocks_get_names_of_their_own() {
    let body = block(vec![
        block(vec![declare_var("x", 1)]),
        block(vec![declare_var("x", 2), constrain(variable("x"), number(2))]),
    ]);
    let (out, reports) = ensure_unique_variables(&body, &parameters(&[]));
    assert!(reports.is_empty());
    let outer = statements(&out);
    assert_eq!(declared_name(&statements(&outer[0])[0]), x(0));
    assert_eq!(declared_name(&statements(&outer[1])[0]), x(1));
    assert_eq!(constrained_name(&statements(&outer[1])[1]), x(1));
}

#[test]
fn first_free_version_is_taken() {
    let body = block(vec![
        declare("x", 0, VariableType::Var, 0),
        declare("x", 1, VariableType::Var, 1),
        block(vec![declare("x", 0, VariableType::Var, 2)]),
        block(vec![declare("x", 0, VariableType::Var, 3)]),
    ]);
    let (out, reports) = ensure_unique_variables(&body, &parameters(&[]));
    assert!(reports.is_empty());
    let outer = statements(&out);
    assert_eq!(declared_name(&outer[0]), x(0));
    assert_eq!(declared_name(&outer[1]), x(1));
    assert_eq!(declared_name(&statements(&outer[2])[0]), x(2));
    assert_eq!(declared_name(&statements(&outer[3])[0]), x(3));
}

#[test]
fn variable_named_like_a_parameter_is_renamed_with_a_warning() {
    let body = block(vec![declare_var("n", 1), constrain(variable("n"), number(1))]);
    let (out, reports) = ensure_unique_variables(&body, &parameters(&["n"]));
    let outer = statements(&out);
    assert_eq!(declared_name(&outer[0]), ("n".to_string(), 1));
    assert_eq!(constrained_name(&outer[1]), ("n".to_string(), 1));
    assert_eq!(reports.len(), 1);
    assert_eq!(reports[0].id(), "shadowing-declaration");
    assert_eq!(*reports[0].category(), MessageCategory::Warning);
    assert_eq!(reports[0].primary_file_ids(), vec![7]);
    assert_eq!(reports[0].primary_labels()[0].location, FileLocation { start: 0, end: 1 });
}

#[test]
fn use_of_a_parameter_keeps_its_name() {
    let body = block(vec![constrain(variable("n"), number(1))]);
    let (out, reports) = ensure_unique_variables(&body, &parameters(&["n"]));
    assert!(reports.is_empty());
    assert_eq!(constrained_name(&statements(&out)[0]), ("n".to_string(), 0));
}

#[test]
fn variable_named_like_a_signal_is_an_error_and_keeps_its_name() {
    let body = block(vec![
        declare("s", 0, VariableType::Signal(SignalType::Intermediate), 2),
        declare("s", 0, VariableType::Var, 5),
    ]);
    let (out, reports) = ensure_unique_variables(&body, &parameters(&[]));
    assert_eq!(reports.len(), 1);
    assert_eq!(reports[0].id(), "shadowing-signal");
    assert_eq!(*reports[0].category(), MessageCategory::Error);
    assert_eq!(reports[0].primary_labels()[0].location, FileLocation { start: 5, end: 6 });
    assert_eq!(reports[0].primary_labels()[0].file_id, 7);
    let outer = statements(&out);
    assert_eq!(declared_name(&outer[0]), ("s".to_string(), 0));
    assert_eq!(declared_name(&outer[1]), ("s".to_string(), 0));
}

#[test]
fn variable_named_like_an_input_signal_of_the_template_is_an_error() {
    let mut param_data = parameters(&[]);
    param_data.input_signals = vec!["in".to_string()];
    let body = block(vec![declare("in", 0, VariableType::Var, 1)]);
    let (_, reports) = ensure_unique_variables(&body, &param_data);
    assert_eq!(reports.len(), 1);
    assert_eq!(reports[0].id(), "shadowing-signal");
}

#[test]
fn signals_and_components_are_not_renamed() {
    let body = block(vec![
        declare("c", 0, VariableType::Component, 0),
        block(vec![declare("c", 0, VariableType::Component, 1)]),
        declare("b", 0, VariableType::Bus, 2),
        block(vec![declare("b", 0, VariableType::Bus, 3)]),
    ]);
    let (out, reports) = ensure_unique_variables(&body, &parameters(&[]));
    assert!(reports.is_empty());
    assert_eq!(format!("{:?}", out), format!("{:?}", body));
}

#[test]
fn use_behind_an_inner_block_refers_to_the_outer_declaration() {
    let body = block(vec![
        declare_var("x", 1),
        Statement::While {
            meta: meta(0),
            cond: variable("x"),
            stmt: Box::new(block(vec![declare_var("x", 2), constrain(variable("x"), number(2))])),
        },
        Statement::Return { meta: meta(0), value: variable("x") },
    ]);
    let (out, _) = ensure_unique_variables(&body, &parameters(&[]));
    let outer = statements(&out);
    match &outer[1] {
        Statement::While { cond: Expression::Variable { name, .. }, stmt, .. } => {
            assert_eq!(name.version, 0);
            assert_eq!(constrained_name(&statements(stmt)[1]), x(1));
        }
        _ => panic!("expected a loop"),
    }
    match &outer[2] {
        Statement::Return { value: Expression::Variable { name, .. }, .. } => {
            assert_eq!(name.version, 0)
        }
        _ => panic!("expected a return"),
    }
}

#[test]
fn variable_named_like_a_component_is_renamed_without_a_report() {
    let body = block(vec![
        declare("c", 0, VariableType::Component, 0),
        block(vec![declare_var("c", 1), constrain(variable("c"), number(1))]),
        constrain(variable("c"), number(2)),
    ]);
    let (out, reports) = ensure_unique_variables(&body, &parameters(&[]));
    assert!(reports.is_empty());
    let outer = statements(&out);
    assert_eq!(declared_name(&outer[0]), ("c".to_string(), 0));
    let inner = statements(&outer[1]);
    assert_eq!(declared_name(&inner[0]), ("c".to_string(), 1));
    assert_eq!(constrained_name(&inner[1]), ("c".to_string(), 1));
    assert_eq!(constrained_name(&outer[2]), ("c".to_string(), 0));
}

#[test]
fn variable_declared_before_a_bus_of_its_name_is_renamed_too() {
    let body = block(vec![
        declare_var("b", 1),
        constrain(variable("b"), number(1)),
        block(vec![
            declare("b", 0, VariableType::Bus, 4),
            constrain(variable("b"), number(2)),
        ]),
        constrain(variable("b"), number(3)),
    ]);
    let (out, reports) = ensure_unique_variables(&body, &parameters(&[]));
    assert!(reports.is_empty());
    let outer = statements(&out);
    assert_eq!(declared_name(&outer[0]), ("b".to_string(), 1));
    assert_eq!(constrained_name(&outer[1]), ("b".to_string(), 1));
    let inner = statements(&outer[2]);
    assert_eq!(declared_name(&inner[0]), ("b".to_string(), 0));
    assert_eq!(constrained_name(&inner[1]), ("b".to_string(), 0));
    assert_eq!(constrained_name(&outer[3]), ("b".to_string(), 1));
}

#[test]
fn variable_named_like_a_component_of_the_template_is_renamed() {
    let mut param_data = parameters(&[]);
    param_data.components = vec!["adder".to_string()];
    let body = block(vec![declare_var("adder", 1)]);
    let (out, reports) = ensure_unique_variables(&body, &param_data);
    assert!(reports.is_empty());
    assert_eq!(declared_name(&statements(&out)[0]), ("adder".to_string(), 1));
}
