use num_bigint::BigInt;
use program_structure::ast::{
    AssignOp, Definition, Expression, ExpressionInfixOpcode, Meta, SignalType, Statement,
    VariableName, VariableType,
};
use program_structure::cfg::Cfg;
use program_structure::errors::CFGError;
use program_structure::file_definition::FileLocation;
use program_structure::ir;
use program_structure::parameter_data::DefinitionKind;
use program_structure::program_archive::{FunctionData, TemplateData};
use program_structure::report::MessageCategory;

fn meta() -> Meta {
    Meta { location: FileLocation { start: 0, end: 1 }, file_id: Some(0) }
}

fn name(text: &str) -> VariableName {
    VariableName::from_name(text.to_string())
}

fn number(value: i64) -> Expression {
    Expression::Number { meta: meta(), value: BigInt::from(value) }
}

fn variable(text: &str) -> Expression {
    Expression::Variable { meta: meta(), name: name(text), access: Vec::new() }
}

fn infix(lhe: Expression, infix_op: ExpressionInfixOpcode, rhe: Expression) -> Expression {
    Expression::InfixOp { meta: meta(), lhe: Box::new(lhe), infix_op, rhe: Box::new(rhe) }
}

fn declare(text: &str, xtype: VariableType) -> Statement {
    Statement::Declaration {
        meta: meta(),
        xtype,
        name: name(text),
        dimensions: Vec::new(),
        is_constant: false,
    }
}

fn assign(text: &str, rhe: Expression) -> Statement {
    Statement::Substitution {
        meta: meta(),
        var: name(text),
        access: Vec::new(),
        op: AssignOp::AssignVar,
        rhe,
    }
}

fn declare_var(text: &str, value: i64) -> Statement {
    Statement::InitializationBlock {
        meta: meta(),
        xtype: VariableType::Var,
        initializations: vec![declare(text, VariableType::Var), assign(text, number(value))],
    }
}

fn constrain(lhe: Expression, rhe: Expression) -> Statement {
    Statement::ConstraintEquality { meta: meta(), lhe, rhe }
}

fn block(stmts: Vec<Statement>) -> Statement {
    Statement::Block { meta: meta(), stmts }
}

fn template(body: Statement) -> Definition {
    Definition::Template { meta: meta(), name: "T".to_string(), args: Vec::new(), body }
}

fn declared(cfg: &Cfg) -> Vec<(String, usize, VariableType)> {
    cfg.get_declarations()
        .get_declarations()
        .iter()
        .map(|d| (d.name.name.clone(), d.name.version, d.xtype))
        .collect()
}

fn successors(cfg: &Cfg, index: usize) -> Vec<usize> {
    cfg.get_basic_blocks()[index].get_successors().clone()
}

fn predecessors(cfg: &Cfg, index: usize) -> Vec<usize> {
    cfg.get_basic_blocks()[index].get_predecessors().clone()
}

#[test]
fn declaration_and_constraint_make_one_block() {
    let body = block(vec![declare_var("x", 1), constrain(variable("x"), number(1))]);
    let (cfg, reports) = Cfg::try_from_definition(&template(body)).unwrap();
    assert_eq!(cfg.len(), 1);
    assert_eq!(cfg.get_basic_blocks()[0].len(), 2);
    assert_eq!(declared(&cfg), vec![("x".to_string(), 0, VariableType::Var)]);
    assert!(reports.is_empty());
    assert_eq!(cfg.get_name(), "T");
    assert_eq!(cfg.get_immediate_dominator(0), None);
    assert!(cfg.get_dominance_frontier(0).is_empty());
}

#[test]
fn branches_of_an_if_join_and_the_entry_dominates_the_join() {
    let body = block(vec![
        declare_var("x", 0),
        Statement::IfThenElse {
            meta: meta(),
            cond: infix(variable("x"), ExpressionInfixOpcode::Eq, number(0)),
            if_case: Box::new(block(vec![assign("x", number(1))])),
            else_case: Some(Box::new(block(vec![assign("x", number(2))]))),
        },
        constrain(variable("x"), number(1)),
    ]);
    let (cfg, reports) = Cfg::try_from_definition(&template(body)).unwrap();
    assert!(reports.is_empty());
    assert_eq!(cfg.len(), 4);
    assert_eq!(successors(&cfg, 0), vec![1, 2]);
    assert_eq!(successors(&cfg, 1), vec![3]);
    assert_eq!(successors(&cfg, 2), vec![3]);
    assert_eq!(predecessors(&cfg, 3), vec![1, 2]);
    assert_eq!(cfg.get_immediate_dominator(0), None);
    assert_eq!(cfg.get_immediate_dominator(1), Some(0));
    assert_eq!(cfg.get_immediate_dominator(2), Some(0));
    assert_eq!(cfg.get_immediate_dominator(3), Some(0));
    assert_eq!(cfg.get_dominance_frontier(1), &vec![3]);
    assert_eq!(cfg.get_dominance_frontier(2), &vec![3]);
    assert!(cfg.get_dominance_frontier(0).is_empty());
    assert!(cfg.get_dominance_frontier(3).is_empty());
}

#[test]
fn loop_body_leads_back_to_the_header() {
    let body = block(vec![
        declare_var("i", 0),
        Statement::While {
            meta: meta(),
            cond: infix(variable("i"), ExpressionInfixOpcode::Lesser, number(10)),
            stmt: Box::new(block(vec![assign(
                "i",
                infix(variable("i"), ExpressionInfixOpcode::Add, number(1)),
            )])),
        },
        constrain(variable("i"), number(10)),
    ]);
    let (cfg, _) = Cfg::try_from_definition(&template(body)).unwrap();
    assert_eq!(cfg.len(), 4);
    assert_eq!(successors(&cfg, 0), vec![1]);
    assert_eq!(successors(&cfg, 1), vec![2, 3]);
    assert_eq!(successors(&cfg, 2), vec![1]);
    assert_eq!(successors(&cfg, 3), Vec::<usize>::new());
    match cfg.get_basic_blocks()[1].get_statements().last() {
        Some(ir::Statement::IfThenElse { if_true, if_false, .. }) => {
            assert_eq!((*if_true, *if_false), (2, Some(3)));
        }
        _ => panic!("expected a branch"),
    }
    assert_eq!(cfg.get_immediate_dominator(1), Some(0));
    assert_eq!(cfg.get_immediate_dominator(2), Some(1));
    assert_eq!(cfg.get_immediate_dominator(3), Some(1));
    assert_eq!(cfg.get_dominance_frontier(1), &vec![1]);
    assert_eq!(cfg.get_dominance_frontier(2), &vec![1]);
}

#[test]
fn shadowing_declaration_is_renamed_and_both_are_in_the_declaration_map() {
    let body = block(vec![
        declare_var("x", 1),
        block(vec![declare_var("x", 2), constrain(variable("x"), number(2))]),
        constrain(variable("x"), number(1)),
    ]);
    let (cfg, reports) = Cfg::try_from_definition(&template(body)).unwrap();
    assert!(reports.is_empty());
    assert_eq!(cfg.len(), 1);
    assert_eq!(
        declared(&cfg),
        vec![("x".to_string(), 0, VariableType::Var), ("x".to_string(), 1, VariableType::Var)]
    );
    let inner = VariableName { name: "x".to_string(), version: 1 };
    assert_eq!(cfg.get_declarations().get_declaration(&inner).unwrap().name.version, 1);
    let missing = VariableName { name: "x".to_string(), version: 2 };
    assert!(cfg.get_declarations().get_declaration(&missing).is_none());
    match &cfg.get_basic_blocks()[0].get_statements()[2] {
        ir::Statement::ConstraintEquality { lhe: ir::Expression::Variable { name, .. }, .. } => {
            assert_eq!(name.version, 1)
        }
        _ => panic!("expected a constraint on a variable"),
    }
}

#[test]
fn variable_named_like_a_signal_yields_no_graph() {
    let body = block(vec![
        declare("s", VariableType::Signal(SignalType::Intermediate)),
        declare_var("s", 0),
    ]);
    let error = Cfg::try_from_definition(&template(body)).unwrap_err();
    assert_eq!(error, CFGError::ShadowingSignal);
    let report = error.to_report(Some(0), FileLocation { start: 0, end: 1 });
    assert_eq!(report.id(), "shadowing-signal");
    assert_eq!(*report.category(), MessageCategory::Error);
    assert_eq!(report.primary_file_ids(), vec![0]);
}

#[test]
fn return_ends_its_block_without_successor() {
    let body = block(vec![
        declare_var("x", 1),
        Statement::IfThenElse {
            meta: meta(),
            cond: infix(variable("x"), ExpressionInfixOpcode::Eq, number(1)),
            if_case: Box::new(block(vec![Statement::Return { meta: meta(), value: number(0) }])),
            else_case: None,
        },
        constrain(variable("x"), number(2)),
    ]);
    let (cfg, _) = Cfg::try_from_definition(&template(body)).unwrap();
    assert_eq!(cfg.len(), 3);
    assert_eq!(predecessors(&cfg, 2), vec![0]);
    assert_eq!(successors(&cfg, 1), Vec::<usize>::new());
    assert_eq!(cfg.get_immediate_dominator(2), Some(0));
}

#[test]
fn parameter_is_declared_and_warned_about_when_shadowed() {
    let definition = Definition::Function {
        meta: meta(),
        name: "f".to_string(),
        args: vec!["n".to_string()],
        body: block(vec![
            declare_var("n", 1),
            Statement::Return { meta: meta(), value: variable("n") },
        ]),
    };
    let (cfg, reports) = Cfg::try_from_definition(&definition).unwrap();
    assert_eq!(reports.len(), 1);
    assert_eq!(reports[0].id(), "shadowing-declaration");
    assert_eq!(*reports[0].category(), MessageCategory::Warning);
    assert_eq!(
        declared(&cfg),
        vec![("n".to_string(), 0, VariableType::Var), ("n".to_string(), 1, VariableType::Var)]
    );
    assert_eq!(cfg.get_parameters().param_names, vec!["n".to_string()]);
}

#[test]
fn repeated_parameter_fails_the_definition() {
    let definition = Definition::Function {
        meta: meta(),
        name: "f".to_string(),
        args: vec!["n".to_string(), "n".to_string()],
        body: block(vec![]),
    };
    assert_eq!(
        Cfg::try_from_definition(&definition).err(),
        Some(CFGError::DuplicateDeclaration)
    );
}

#[test]
fn unknown_symbol_fails_the_definition() {
    let body = block(vec![constrain(variable("y"), number(1))]);
    assert_eq!(Cfg::try_from_definition(&template(body)).err(), Some(CFGError::UnknownSymbol));
}

#[test]
fn template_and_function_data_build_the_same_graph_as_a_definition() {
    let body = || block(vec![declare_var("x", 1), constrain(variable("x"), variable("n"))]);
    let template = TemplateData {
        name: "T".to_string(),
        file_id: Some(0),
        param_location: FileLocation { start: 0, end: 1 },
        param_names: vec!["n".to_string()],
        input_signals: Vec::new(),
        output_signals: Vec::new(),
        components: Vec::new(),
        body: body(),
    };
    let function = FunctionData {
        name: "f".to_string(),
        file_id: Some(0),
        param_location: FileLocation { start: 0, end: 1 },
        param_names: vec!["n".to_string()],
        body: body(),
    };
    let (of_template, _) = Cfg::try_from_template(&template).unwrap();
    let (of_function, _) = Cfg::try_from_function(&function).unwrap();
    assert_eq!(of_template.get_name(), "T");
    assert_eq!(of_function.get_name(), "f");
    assert_eq!(of_template.len(), 1);
    assert_eq!(declared(&of_template), declared(&of_function));
    assert_eq!(of_template.get_entry_block().len(), of_function.get_entry_block().len());
    assert!(of_template.get_basic_block(1).is_none());
}

#[test]
fn input_signal_of_a_template_cannot_be_shadowed() {
    let template = TemplateData {
        name: "T".to_string(),
        file_id: Some(0),
        param_location: FileLocation { start: 0, end: 1 },
        param_names: Vec::new(),
        input_signals: vec!["in".to_string()],
        output_signals: Vec::new(),
        components: Vec::new(),
        body: block(vec![declare_var("in", 1)]),
    };
    assert_eq!(Cfg::try_from_template(&template).err(), Some(CFGError::ShadowingSignal));
}

#[test]
fn graph_keeps_what_is_fixed_of_its_definition() {
    let place = Meta { location: FileLocation { start: 12, end: 40 }, file_id: Some(3) };
    let definition = Definition::Template {
        meta: place,
        name: "Main".to_string(),
        args: vec!["n".to_string(), "k".to_string()],
        body: block(vec![]),
    };
    let (cfg, _) = Cfg::try_from_definition(&definition).unwrap();
    let parameters = cfg.get_parameters();
    assert_eq!(parameters.name, "Main");
    assert_eq!(parameters.kind, DefinitionKind::Template);
    assert_eq!(parameters.file_id, Some(3));
    assert_eq!(parameters.location, FileLocation { start: 12, end: 40 });
    assert_eq!(parameters.param_names, vec!["n".to_string(), "k".to_string()]);
    let declarations = cfg.get_declarations().get_declarations();
    assert_eq!(declarations.len(), 2);
    assert_eq!(declarations[0].meta.location, FileLocation { start: 12, end: 40 });
    assert_eq!(declarations[1].meta.file_id, Some(3));
    let function = FunctionData {
        name: "f".to_string(),
        file_id: Some(5),
        param_location: FileLocation { start: 1, end: 2 },
        param_names: Vec::new(),
        body: block(vec![]),
    };
    let (of_function, _) = Cfg::try_from_function(&function).unwrap();
    assert_eq!(of_function.get_parameters().kind, DefinitionKind::Function);
    assert_eq!(of_function.get_parameters().file_id, Some(5));
    assert_eq!(of_function.get_parameters().location, FileLocation { start: 1, end: 2 });
}

#[test]
fn signal_declared_in_two_blocks_has_one_key() {
    let body = block(vec![
        block(vec![declare("s", VariableType::Signal(SignalType::Intermediate))]),
        block(vec![declare("s", VariableType::Signal(SignalType::Intermediate))]),
    ]);
    let (cfg, reports) = Cfg::try_from_definition(&template(body)).unwrap();
    assert!(reports.is_empty());
    assert_eq!(cfg.get_declarations().len(), 1);
}

#[test]
fn variable_and_component_of_one_name_have_keys_of_their_own() {
    let body = block(vec![
        declare("c", VariableType::Component),
        block(vec![declare_var("c", 1), constrain(variable("c"), number(1))]),
    ]);
    let (cfg, reports) = Cfg::try_from_definition(&template(body)).unwrap();
    assert!(reports.is_empty());
    assert_eq!(
        declared(&cfg),
        vec![
            ("c".to_string(), 0, VariableType::Component),
            ("c".to_string(), 1, VariableType::Var)
        ]
    );
    match &cfg.get_basic_blocks()[0].get_statements()[1] {
        ir::Statement::ConstraintEquality {
            lhe: ir::Expression::Variable { name, xtype, .. }, ..
        } => {
            assert_eq!(name.version, 1);
            assert_eq!(*xtype, VariableType::Var);
        }
        _ => panic!("expected a constraint on a variable"),
    }
}
