use num_bigint::BigInt;
use program_structure::ast::{Expression, ExpressionInfixOpcode, Meta, Statement};
use program_structure::file_definition::FileLocation;
use program_structure::gather_information::{
    gather_templates_expression, gather_templates_statement, NameSet,
};
use program_structure::program_archive::{FunctionData, ProgramArchive, TemplateData};

fn meta() -> Meta {
    Meta { location: FileLocation { start: 0, end: 0 }, file_id: Some(0) }
}

fn call(id: &str) -> Expression {
    Expression::Call { meta: meta(), id: id.to_string(), args: Vec::new() }
}

fn returning(value: Expression) -> Statement {
    Statement::Block { meta: meta(), stmts: vec![Statement::Return { meta: meta(), value }] }
}

fn template(name: &str, body: Statement) -> TemplateData {
    TemplateData {
        name: name.to_string(),
        file_id: Some(0),
        param_location: FileLocation { start: 0, end: 0 },
        param_names: Vec::new(),
        input_signals: Vec::new(),
        output_signals: Vec::new(),
        components: Vec::new(),
        body,
    }
}

fn function(name: &str, body: Statement) -> FunctionData {
    FunctionData {
        name: name.to_string(),
        file_id: Some(0),
        param_location: FileLocation { start: 0, end: 0 },
        param_names: Vec::new(),
        body,
    }
}

fn chain() -> ProgramArchive {
    let mut archive = ProgramArchive::new();
    archive.add_template(template("A", returning(call("B"))));
    archive.add_template(template("B", returning(call("f"))));
    archive.add_function(function("f", returning(call("g"))));
    archive.add_function(function(
        "g",
        returning(Expression::Number { meta: meta(), value: BigInt::from(0) }),
    ));
    archive
}

#[test]
fn call_is_followed_through_templates_and_functions() {
    let archive = chain();
    let mut result = NameSet::new();
    gather_templates_expression(&call("A"), &mut result, &archive, 10);
    assert_eq!(result.len(), 4);
    assert!(result.contains("A"));
    assert!(result.contains("B"));
    assert!(result.contains("f"));
    assert!(result.contains("g"));
}

#[test]
fn level_bounds_how_deep_calls_are_followed() {
    let archive = chain();
    let mut result = NameSet::new();
    gather_templates_expression(&call("A"), &mut result, &archive, 2);
    assert_eq!(result.len(), 2);
    assert!(result.contains("A"));
    assert!(result.contains("B"));
    assert!(!result.contains("f"));
}

#[test]
fn level_zero_gathers_no_call() {
    let archive = chain();
    let mut result = NameSet::new();
    gather_templates_expression(&call("A"), &mut result, &archive, 0);
    assert!(result.is_empty());
}

#[test]
fn name_in_the_set_is_not_followed_again() {
    let archive = chain();
    let mut result = NameSet::new();
    result.insert("A".to_string());
    gather_templates_expression(&call("A"), &mut result, &archive, 10);
    assert_eq!(result.len(), 1);
}

#[test]
fn anonymous_component_is_gathered_at_any_level() {
    let archive = chain();
    let mut result = NameSet::new();
    let expr = Expression::AnonymousComponent { meta: meta(), id: "A".to_string(), args: vec![call("B")] };
    gather_templates_expression(&expr, &mut result, &archive, 0);
    assert_eq!(result.len(), 1);
    assert!(result.contains("A"));
}

#[test]
fn unknown_callee_is_gathered_by_name() {
    let archive = chain();
    let mut result = NameSet::new();
    let expr = Expression::InfixOp {
        meta: meta(),
        lhe: Box::new(call("missing")),
        infix_op: ExpressionInfixOpcode::Add,
        rhe: Box::new(Expression::PrefixOp {
            meta: meta(),
            prefix_op: program_structure::ast::ExpressionPrefixOpcode::Sub,
            rhe: Box::new(call("g")),
        }),
    };
    gather_templates_expression(&expr, &mut result, &archive, 1);
    assert_eq!(result.len(), 2);
    assert!(result.contains("missing"));
    assert!(result.contains("g"));
}

#[test]
fn statement_gathers_conditions_and_nested_statements() {
    let archive = chain();
    let mut result = NameSet::new();
    let stmt = Statement::Block {
        meta: meta(),
        stmts: vec![
            Statement::IfThenElse {
                meta: meta(),
                cond: call("g"),
                if_case: Box::new(returning(call("f"))),
                else_case: Some(Box::new(Statement::Assert { meta: meta(), arg: call("B") })),
            },
            Statement::While {
                meta: meta(),
                cond: call("w"),
                stmt: Box::new(Statement::ConstraintEquality {
                    meta: meta(),
                    lhe: call("l"),
                    rhe: call("r"),
                }),
            },
            Statement::LogCall { meta: meta(), args: vec![call("unseen")] },
        ],
    };
    gather_templates_statement(&stmt, &mut result, &archive, 1);
    for name in ["g", "f", "B", "w", "l", "r"] {
        assert!(result.contains(name), "{name}");
    }
    assert_eq!(result.len(), 6);
    assert!(!result.contains("unseen"));
}
