use num_bigint::BigInt;
use program_structure::ast::{
    AssignOp, Expression, ExpressionInfixOpcode, Meta, Statement, VariableName, VariableType,
};
use program_structure::basic_block::BasicBlock;
use program_structure::cfg_impl::build_basic_blocks;
use program_structure::environment::IREnvironment;
use program_structure::errors::CFGError;
use program_structure::file_definition::FileLocation;
use program_structure::ir;

fn meta(start: usize, end: usize) -> Meta {
    Meta { location: FileLocation { start, end }, file_id: Some(0) }
}

fn name(text: &str) -> VariableName {
    VariableName::from_name(text.to_string())
}

fn number(value: i64) -> Expression {
    Expression::Number { meta: meta(0, 1), value: BigInt::from(value) }
}

fn variable(text: &str) -> Expression {
    Expression::Variable { meta: meta(0, 1), name: name(text), access: Vec::new() }
}

fn infix(lhe: Expression, infix_op: ExpressionInfixOpcode, rhe: Expression) -> Expression {
    Expression::InfixOp { meta: meta(0, 1), lhe: Box::new(lhe), infix_op, rhe: Box::new(rhe) }
}

fn declare_var(text: &str, value: i64) -> Statement {
    Statement::InitializationBlock {
        meta: meta(0, 1),
        xtype: VariableType::Var,
        initializations: vec![
            Statement::Declaration {
                meta: meta(0, 1),
                xtype: VariableType::Var,
                name: name(text),
                dimensions: Vec::new(),
                is_constant: false,
            },
            assign(text, number(value)),
        ],
    }
}

fn assign(text: &str, rhe: Expression) -> Statement {
    Statement::Substitution {
        meta: meta(0, 1),
        var: name(text),
        access: Vec::new(),
        op: AssignOp::AssignVar,
        rhe,
    }
}

fn constrain(lhe: Expression, rhe: Expression) -> Statement {
    Statement::ConstraintEquality { meta: meta(0, 1), lhe, rhe }
}

fn block(stmts: Vec<Statement>) -> Statement {
    Statement::Block { meta: meta(0, 1), stmts }
}

fn build(body: &Statement) -> Result<Vec<BasicBlock>, CFGError> {
    let mut env = IREnvironment::new();
    build_basic_blocks(body, &mut env)
}

fn edges(block: &BasicBlock) -> (Vec<usize>, Vec<usize>) {
    (block.get_predecessors().clone(), block.get_successors().clone())
}

fn branch_targets(block: &BasicBlock) -> Option<(usize, Option<usize>)> {
    match block.get_statements().last() {
        Some(ir::Statement::IfThenElse { if_true, if_false, .. }) => Some((*if_true, *if_false)),
        _ => None,
    }
}

fn assert_graph_invariants(blocks: &[BasicBlock]) {
    assert!(!blocks.is_empty());
    assert!(blocks[0].get_predecessors().is_empty());
    for (i, block) in blocks.iter().enumerate() {
        assert_eq!(block.get_index(), i);
        if i > 0 {
            assert!(!block.get_predecessors().is_empty());
        }
        for j in block.get_successors() {
            assert!(blocks[*j].get_predecessors().contains(&i));
        }
        for j in block.get_predecessors() {
            assert!(blocks[*j].get_successors().contains(&i));
        }
        match branch_targets(block) {
            Some((if_true, Some(if_false))) => {
                assert_eq!(block.get_successors(), &vec![if_true, if_false]);
            }
            Some((if_true, None)) => assert_eq!(block.get_successors()[0], if_true),
            None => assert!(block.get_successors().len() <= 1),
        }
    }
}

#[test]
fn straight_line_body_is_one_block() {
    let body = block(vec![declare_var("x", 1), constrain(variable("x"), number(1))]);
    let blocks = build(&body).unwrap();
    assert_eq!(blocks.len(), 1);
    assert_eq!(blocks[0].len(), 2);
    assert!(matches!(blocks[0].get_statements()[0], ir::Statement::Substitution { .. }));
    assert!(matches!(blocks[0].get_statements()[1], ir::Statement::ConstraintEquality { .. }));
    assert_eq!(edges(&blocks[0]), (vec![], vec![]));
    assert_graph_invariants(&blocks);
}

#[test]
fn if_else_joins_in_a_fourth_block() {
    let body = block(vec![
        declare_var("x", 0),
        Statement::IfThenElse {
            meta: meta(0, 1),
            cond: infix(variable("x"), ExpressionInfixOpcode::Eq, number(0)),
            if_case: Box::new(block(vec![assign("x", number(1))])),
            else_case: Some(Box::new(block(vec![assign("x", number(2))]))),
        },
        constrain(variable("x"), number(1)),
    ]);
    let blocks = build(&body).unwrap();
    assert_eq!(blocks.len(), 4);
    assert_eq!(blocks[0].len(), 2);
    assert_eq!(branch_targets(&blocks[0]), Some((1, Some(2))));
    assert_eq!(edges(&blocks[0]), (vec![], vec![1, 2]));
    assert_eq!(edges(&blocks[1]), (vec![0], vec![3]));
    assert_eq!(edges(&blocks[2]), (vec![0], vec![3]));
    assert_eq!(edges(&blocks[3]), (vec![1, 2], vec![]));
    assert_eq!(blocks[1].len(), 1);
    assert_eq!(blocks[2].len(), 1);
    assert!(matches!(blocks[3].get_statements()[0], ir::Statement::ConstraintEquality { .. }));
    assert_graph_invariants(&blocks);
}

#[test]
fn while_loop_has_header_body_and_tail() {
    let body = block(vec![
        declare_var("i", 0),
        Statement::While {
            meta: meta(0, 1),
            cond: infix(variable("i"), ExpressionInfixOpcode::Lesser, number(10)),
            stmt: Box::new(block(vec![assign(
                "i",
                infix(variable("i"), ExpressionInfixOpcode::Add, number(1)),
            )])),
        },
        constrain(variable("i"), number(10)),
    ]);
    let blocks = build(&body).unwrap();
    assert_eq!(blocks.len(), 4);
    assert_eq!(edges(&blocks[0]), (vec![], vec![1]));
    assert_eq!(edges(&blocks[1]), (vec![0, 2], vec![2, 3]));
    assert_eq!(edges(&blocks[2]), (vec![1], vec![1]));
    assert_eq!(edges(&blocks[3]), (vec![1], vec![]));
    assert_eq!(branch_targets(&blocks[1]), Some((2, Some(3))));
    assert_eq!(blocks[0].len(), 1);
    assert_eq!(blocks[1].len(), 1);
    assert_eq!(blocks[2].len(), 1);
    assert_eq!(blocks[3].len(), 1);
    assert_graph_invariants(&blocks);
}

#[test]
fn return_in_if_case_has_no_successor() {
    let body = block(vec![
        declare_var("x", 1),
        Statement::IfThenElse {
            meta: meta(0, 1),
            cond: infix(variable("x"), ExpressionInfixOpcode::Eq, number(1)),
            if_case: Box::new(block(vec![Statement::Return { meta: meta(0, 1), value: number(0) }])),
            else_case: None,
        },
        constrain(variable("x"), number(2)),
    ]);
    let blocks = build(&body).unwrap();
    assert_eq!(blocks.len(), 3);
    assert_eq!(edges(&blocks[0]), (vec![], vec![1, 2]));
    assert_eq!(edges(&blocks[1]), (vec![0], vec![]));
    assert_eq!(edges(&blocks[2]), (vec![0], vec![]));
    assert_eq!(branch_targets(&blocks[0]), Some((1, Some(2))));
    assert!(matches!(blocks[1].get_statements()[0], ir::Statement::Return { .. }));
    assert_graph_invariants(&blocks);
}

#[test]
fn conditional_at_end_of_loop_body_keeps_open_false_target() {
    let body = block(vec![
        declare_var("i", 0),
        Statement::While {
            meta: meta(0, 1),
            cond: infix(variable("i"), ExpressionInfixOpcode::Lesser, number(10)),
            stmt: Box::new(block(vec![Statement::IfThenElse {
                meta: meta(0, 1),
                cond: infix(variable("i"), ExpressionInfixOpcode::Eq, number(3)),
                if_case: Box::new(block(vec![assign("i", number(5))])),
                else_case: None,
            }])),
        },
    ]);
    let blocks = build(&body).unwrap();
    assert_eq!(blocks.len(), 4);
    assert_eq!(branch_targets(&blocks[2]), Some((3, None)));
    assert_eq!(edges(&blocks[2]), (vec![1], vec![3, 1]));
    assert_eq!(edges(&blocks[3]), (vec![2], vec![1]));
    assert_eq!(edges(&blocks[1]), (vec![0, 3, 2], vec![2]));
    assert_graph_invariants(&blocks);
}

#[test]
fn unknown_variable_fails_the_definition() {
    let body = block(vec![constrain(variable("y"), number(1))]);
    assert_eq!(build(&body).err(), Some(CFGError::UnknownSymbol));
}

#[test]
fn duplicate_declaration_in_one_scope_fails() {
    let body = block(vec![declare_var("x", 1), declare_var("x", 2)]);
    assert_eq!(build(&body).err(), Some(CFGError::DuplicateDeclaration));
}

#[test]
fn variable_is_unknown_outside_its_block() {
    let body = block(vec![block(vec![declare_var("x", 1)]), constrain(variable("x"), number(1))]);
    assert_eq!(build(&body).err(), Some(CFGError::UnknownSymbol));
}

#[test]
fn initialization_block_rejects_other_statements() {
    let body = block(vec![Statement::InitializationBlock {
        meta: meta(0, 1),
        xtype: VariableType::Var,
        initializations: vec![Statement::Return { meta: meta(0, 1), value: number(0) }],
    }]);
    assert_eq!(build(&body).err(), Some(CFGError::MalformedInitBlock));
}

#[test]
fn lowering_resolves_the_declared_kind() {
    let body = block(vec![
        Statement::Declaration {
            meta: meta(3, 9),
            xtype: VariableType::Component,
            name: name("c"),
            dimensions: Vec::new(),
            is_constant: false,
        },
        constrain(variable("c"), number(1)),
    ]);
    let blocks = build(&body).unwrap();
    match &blocks[0].get_statements()[0] {
        ir::Statement::ConstraintEquality { lhe, rhe, .. } => {
            match lhe {
                ir::Expression::Variable { name, xtype, meta, .. } => {
                    assert_eq!(name.name, "c");
                    assert_eq!(name.version, 0);
                    assert_eq!(*xtype, VariableType::Component);
                    assert_eq!(meta.location, FileLocation { start: 0, end: 1 });
                    assert!(!meta.value_knowledge.is_constant());
                }
                _ => panic!("expected a variable"),
            }
            match rhe {
                ir::Expression::Number { value, .. } => assert_eq!(*value, BigInt::from(1)),
                _ => panic!("expected a number"),
            }
        }
        _ => panic!("expected a constraint"),
    }
}

#[test]
fn empty_body_is_one_empty_block() {
    let blocks = build(&block(vec![])).unwrap();
    assert_eq!(blocks.len(), 1);
    assert!(blocks[0].is_empty());
    assert_eq!(blocks[0].get_meta().location, FileLocation { start: 0, end: 1 });
    assert_graph_invariants(&blocks);
}

#[test]
fn loop_at_the_start_leaves_the_entry_empty() {
    let body = block(vec![Statement::While {
        meta: meta(5, 9),
        cond: number(1),
        stmt: Box::new(block(vec![])),
    }]);
    let blocks = build(&body).unwrap();
    assert_eq!(blocks.len(), 3);
    assert!(blocks[0].is_empty());
    assert_eq!(edges(&blocks[0]), (vec![], vec![1]));
    assert_eq!(edges(&blocks[1]), (vec![0, 2], vec![2]));
    assert_eq!(edges(&blocks[2]), (vec![1], vec![1]));
    assert_eq!(branch_targets(&blocks[1]), Some((2, None)));
    assert_eq!(blocks[1].get_meta().location, FileLocation { start: 5, end: 9 });
    assert_graph_invariants(&blocks);
}

#[test]
fn inner_loop_leads_back_to_the_outer_header() {
    let inner = Statement::While {
        meta: meta(0, 1),
        cond: number(1),
        stmt: Box::new(block(vec![constrain(number(1), number(1))])),
    };
    let body = block(vec![
        Statement::While { meta: meta(0, 1), cond: number(1), stmt: Box::new(block(vec![inner])) },
        constrain(number(2), number(2)),
    ]);
    let blocks = build(&body).unwrap();
    // 0 entry, 1 outer header, 2 outer body, 3 inner header, 4 inner body, 5 tail
    assert_eq!(blocks.len(), 6);
    assert_eq!(edges(&blocks[1]), (vec![0, 3], vec![2, 5]));
    assert_eq!(edges(&blocks[2]), (vec![1], vec![3]));
    assert_eq!(edges(&blocks[3]), (vec![2, 4], vec![4, 1]));
    assert_eq!(edges(&blocks[4]), (vec![3], vec![3]));
    assert_eq!(edges(&blocks[5]), (vec![1], vec![]));
    assert_eq!(branch_targets(&blocks[1]), Some((2, Some(5))));
    assert_eq!(branch_targets(&blocks[3]), Some((4, None)));
    assert_graph_invariants(&blocks);
}

#[test]
fn if_without_else_falls_through_to_the_next_block() {
    let body = block(vec![
        Statement::IfThenElse {
            meta: meta(0, 1),
            cond: number(1),
            if_case: Box::new(block(vec![Statement::IfThenElse {
                meta: meta(0, 1),
                cond: number(2),
                if_case: Box::new(block(vec![constrain(number(1), number(1))])),
                else_case: None,
            }])),
            else_case: None,
        },
        constrain(number(2), number(2)),
    ]);
    let blocks = build(&body).unwrap();
    // 0 entry, 1 outer case, 2 inner case, 3 join
    assert_eq!(blocks.len(), 4);
    assert_eq!(edges(&blocks[0]), (vec![], vec![1, 3]));
    assert_eq!(edges(&blocks[1]), (vec![0], vec![2, 3]));
    assert_eq!(edges(&blocks[2]), (vec![1], vec![3]));
    assert_eq!(edges(&blocks[3]), (vec![2, 1, 0], vec![]));
    assert_eq!(branch_targets(&blocks[0]), Some((1, Some(3))));
    assert_eq!(branch_targets(&blocks[1]), Some((2, Some(3))));
    assert_graph_invariants(&blocks);
}

#[test]
fn statement_behind_two_returning_cases_begins_a_block_behind_both() {
    let returning = || block(vec![Statement::Return { meta: meta(0, 1), value: number(0) }]);
    let body = block(vec![
        Statement::IfThenElse {
            meta: meta(0, 1),
            cond: number(1),
            if_case: Box::new(returning()),
            else_case: Some(Box::new(returning())),
        },
        constrain(number(2), number(2)),
    ]);
    let blocks = build(&body).unwrap();
    assert_eq!(blocks.len(), 4);
    assert_eq!(edges(&blocks[0]), (vec![], vec![1, 2]));
    assert_eq!(edges(&blocks[1]), (vec![0], vec![3]));
    assert_eq!(edges(&blocks[2]), (vec![0], vec![3]));
    assert_eq!(edges(&blocks[3]), (vec![1, 2], vec![]));
    assert_eq!(blocks[1].len(), 1);
    assert_eq!(blocks[2].len(), 1);
    assert!(matches!(blocks[2].get_statements()[0], ir::Statement::Return { .. }));
    assert!(matches!(blocks[3].get_statements()[0], ir::Statement::ConstraintEquality { .. }));
    assert_graph_invariants(&blocks);
}

#[test]
fn returning_case_beside_an_else_leads_to_the_join() {
    let body = block(vec![
        Statement::IfThenElse {
            meta: meta(0, 1),
            cond: number(1),
            if_case: Box::new(block(vec![Statement::Return { meta: meta(0, 1), value: number(0) }])),
            else_case: Some(Box::new(block(vec![constrain(number(1), number(1))]))),
        },
        constrain(number(2), number(2)),
    ]);
    let blocks = build(&body).unwrap();
    assert_eq!(blocks.len(), 4);
    assert_eq!(edges(&blocks[1]), (vec![0], vec![3]));
    assert_eq!(edges(&blocks[2]), (vec![0], vec![3]));
    assert_eq!(edges(&blocks[3]), (vec![1, 2], vec![]));
    assert_graph_invariants(&blocks);
}

#[test]
fn loop_body_that_returns_leads_back_to_the_header() {
    let body = block(vec![
        Statement::While {
            meta: meta(0, 1),
            cond: number(1),
            stmt: Box::new(block(vec![Statement::Return { meta: meta(0, 1), value: number(0) }])),
        },
        constrain(number(2), number(2)),
    ]);
    let blocks = build(&body).unwrap();
    assert_eq!(blocks.len(), 4);
    assert_eq!(edges(&blocks[0]), (vec![], vec![1]));
    assert_eq!(edges(&blocks[1]), (vec![0, 2], vec![2, 3]));
    assert_eq!(edges(&blocks[2]), (vec![1], vec![1]));
    assert_eq!(edges(&blocks[3]), (vec![1], vec![]));
    assert_eq!(branch_targets(&blocks[1]), Some((2, Some(3))));
    assert_graph_invariants(&blocks);
}

#[test]
fn loop_of_nothing_but_a_return_has_three_blocks() {
    let body = block(vec![Statement::While {
        meta: meta(0, 1),
        cond: number(1),
        stmt: Box::new(block(vec![Statement::Return { meta: meta(0, 1), value: number(0) }])),
    }]);
    let blocks = build(&body).unwrap();
    assert_eq!(blocks.len(), 3);
    assert_eq!(edges(&blocks[1]), (vec![0, 2], vec![2]));
    assert_eq!(edges(&blocks[2]), (vec![1], vec![1]));
    assert_graph_invariants(&blocks);
}

#[test]
fn declaration_adds_no_statement_but_is_recorded() {
    let mut env = IREnvironment::new();
    let body = block(vec![
        Statement::Declaration {
            meta: meta(0, 1),
            xtype: VariableType::Var,
            name: name("n"),
            dimensions: Vec::new(),
            is_constant: false,
        },
        block(vec![Statement::Declaration {
            meta: meta(0, 1),
            xtype: VariableType::Var,
            name: name("m"),
            dimensions: vec![variable("n")],
            is_constant: false,
        }]),
    ]);
    let blocks = build_basic_blocks(&body, &mut env).unwrap();
    assert_eq!(blocks.len(), 1);
    assert!(blocks[0].is_empty());
    assert_eq!(env.depth(), 1);
    assert!(env.lookup(&name("n")).is_err());
    let names: Vec<String> = env.into_declarations().into_iter().map(|d| d.name.name).collect();
    assert_eq!(names, vec!["n", "m"]);
}

#[test]
fn unknown_symbol_in_a_condition_or_a_dimension_fails() {
    let in_condition = block(vec![Statement::While {
        meta: meta(0, 1),
        cond: variable("y"),
        stmt: Box::new(block(vec![])),
    }]);
    assert_eq!(build(&in_condition).err(), Some(CFGError::UnknownSymbol));
    let in_branch = block(vec![Statement::IfThenElse {
        meta: meta(0, 1),
        cond: variable("y"),
        if_case: Box::new(block(vec![])),
        else_case: None,
    }]);
    assert_eq!(build(&in_branch).err(), Some(CFGError::UnknownSymbol));
    let in_dimension = block(vec![Statement::Declaration {
        meta: meta(0, 1),
        xtype: VariableType::Var,
        name: name("a"),
        dimensions: vec![variable("y")],
        is_constant: false,
    }]);
    assert_eq!(build(&in_dimension).err(), Some(CFGError::UnknownSymbol));
}

#[test]
fn first_failure_in_source_order_is_reported() {
    let body = block(vec![
        Statement::InitializationBlock {
            meta: meta(0, 1),
            xtype: VariableType::Var,
            initializations: vec![
                assign("y", number(1)),
                Statement::Return { meta: meta(0, 1), value: number(0) },
            ],
        },
    ]);
    assert_eq!(build(&body).err(), Some(CFGError::UnknownSymbol));
    let body = block(vec![
        Statement::InitializationBlock {
            meta: meta(0, 1),
            xtype: VariableType::Var,
            initializations: vec![
                Statement::Return { meta: meta(0, 1), value: number(0) },
                assign("y", number(1)),
            ],
        },
    ]);
    assert_eq!(build(&body).err(), Some(CFGError::MalformedInitBlock));
}
