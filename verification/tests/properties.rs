use num_bigint::BigInt;
use program_structure::ast::{
    AssignOp, Definition, Expression, ExpressionInfixOpcode, Meta, Statement, VariableName,
    VariableType,
};
use program_structure::basic_block::BasicBlock;
use program_structure::cfg::Cfg;
use program_structure::file_definition::FileLocation;
use program_structure::ir;
use program_structure::parameter_data::{DefinitionKind, ParameterData};
use program_structure::unique_vars::ensure_unique_variables;

/// A small generator of pseudo-random numbers, so that every run sees the
/// same bodies.
struct Numbers(u64);

impl Numbers {
    fn next(&mut self, bound: u64) -> u64 {
        self.0 = self.0.wrapping_mul(6364136223846793005).wrapping_add(1442695040888963407);
        (self.0 >> 33) % bound
    }
}

fn meta() -> Meta {
    Meta { location: FileLocation { start: 0, end: 1 }, file_id: Some(0) }
}

fn name(text: &str) -> VariableName {
    VariableName::from_name(text.to_string())
}

fn number(value: u64) -> Expression {
    Expression::Number { meta: meta(), value: BigInt::from(value) }
}

fn variable(text: &str) -> Expression {
    Expression::Variable { meta: meta(), name: name(text), access: Vec::new() }
}

fn condition(numbers: &mut Numbers) -> Expression {
    Expression::InfixOp {
        meta: meta(),
        lhe: Box::new(variable("p")),
        infix_op: ExpressionInfixOpcode::Lesser,
        rhe: Box::new(number(numbers.next(10))),
    }
}

fn body(numbers: &mut Numbers, depth: u64) -> Statement {
    let count = numbers.next(4);
    let mut stmts = Vec::new();
    for _ in 0..count {
        stmts.push(statement(numbers, depth));
    }
    Statement::Block { meta: meta(), stmts }
}

fn statement(numbers: &mut Numbers, depth: u64) -> Statement {
    let names = ["x", "y", "z"];
    let kinds = if depth == 0 { 4 } else { 7 };
    match numbers.next(kinds) {
        0 => Statement::InitializationBlock {
            meta: meta(),
            xtype: VariableType::Var,
            initializations: vec![
                Statement::Declaration {
                    meta: meta(),
                    xtype: VariableType::Var,
                    name: name(names[numbers.next(3) as usize]),
                    dimensions: Vec::new(),
                    is_constant: false,
                },
                Statement::Substitution {
                    meta: meta(),
                    var: name("p"),
                    access: Vec::new(),
                    op: AssignOp::AssignVar,
                    rhe: number(numbers.next(10)),
                },
            ],
        },
        1 => Statement::ConstraintEquality { meta: meta(), lhe: variable("p"), rhe: number(1) },
        2 => Statement::Return { meta: meta(), value: variable("p") },
        3 => Statement::Assert { meta: meta(), arg: condition(numbers) },
        4 => Statement::While {
            meta: meta(),
            cond: condition(numbers),
            stmt: Box::new(body(numbers, depth - 1)),
        },
        5 => Statement::IfThenElse {
            meta: meta(),
            cond: condition(numbers),
            if_case: Box::new(body(numbers, depth - 1)),
            else_case: None,
        },
        _ => Statement::IfThenElse {
            meta: meta(),
            cond: condition(numbers),
            if_case: Box::new(body(numbers, depth - 1)),
            else_case: Some(Box::new(body(numbers, depth - 1))),
        },
    }
}

fn definition(body: Statement) -> Definition {
    Definition::Function { meta: meta(), name: "f".to_string(), args: vec!["p".to_string()], body }
}

fn parameters() -> ParameterData {
    ParameterData {
        name: "f".to_string(),
        kind: DefinitionKind::Function,
        file_id: Some(0),
        location: FileLocation { start: 0, end: 1 },
        param_names: vec!["p".to_string()],
        input_signals: Vec::new(),
        output_signals: Vec::new(),
        components: Vec::new(),
    }
}

fn declared_variables(stmt: &Statement, into: &mut Vec<(String, usize)>) {
    match stmt {
        Statement::Block { stmts, .. } => stmts.iter().for_each(|s| declared_variables(s, into)),
        Statement::InitializationBlock { initializations, .. } => {
            initializations.iter().for_each(|s| declared_variables(s, into))
        }
        Statement::IfThenElse { if_case, else_case, .. } => {
            declared_variables(if_case, into);
            if let Some(else_case) = else_case {
                declared_variables(else_case, into);
            }
        }
        Statement::While { stmt, .. } => declared_variables(stmt, into),
        Statement::Declaration { name, .. } => into.push((name.name.clone(), name.version)),
        _ => {}
    }
}

fn reached_without(blocks: &[BasicBlock], avoid: Option<usize>) -> Vec<bool> {
    let mut reached = vec![false; blocks.len()];
    if avoid == Some(0) {
        return reached;
    }
    let mut waiting = vec![0];
    reached[0] = true;
    while let Some(at) = waiting.pop() {
        for next in blocks[at].get_successors() {
            if Some(*next) != avoid && !reached[*next] {
                reached[*next] = true;
                waiting.push(*next);
            }
        }
    }
    reached
}

fn check_graph(blocks: &[BasicBlock]) {
    assert!(!blocks.is_empty());
    assert!(blocks[0].get_predecessors().is_empty());
    for (i, block) in blocks.iter().enumerate() {
        assert_eq!(block.get_index(), i);
        if i > 0 {
            assert!(!block.get_predecessors().is_empty());
        }
        for j in block.get_successors() {
            assert!(*j != 0 && *j < blocks.len());
            assert!(blocks[*j].get_predecessors().contains(&i));
        }
        for j in block.get_predecessors() {
            assert!(blocks[*j].get_successors().contains(&i));
        }
        match block.get_statements().last() {
            Some(ir::Statement::IfThenElse { if_true, if_false: Some(if_false), .. }) => {
                assert_eq!(*if_true, i + 1);
                assert_eq!(block.get_successors(), &vec![*if_true, *if_false]);
            }
            Some(ir::Statement::IfThenElse { if_true, if_false: None, .. }) => {
                assert_eq!(*if_true, i + 1);
                assert_eq!(block.get_successors()[0], *if_true);
                assert!(block.get_successors().len() <= 2);
                assert!(block.get_successors().iter().skip(1).all(|header| *header < i));
            }
            _ => assert!(block.get_successors().len() <= 1),
        }
    }
}

fn check_dominators(cfg: &Cfg) {
    let blocks = cfg.get_basic_blocks();
    let reached = reached_without(blocks, None);
    let avoided: Vec<Vec<bool>> =
        (0..blocks.len()).map(|d| reached_without(blocks, Some(d))).collect();
    let dominates = |d: usize, b: usize| !avoided[d][b];
    assert_eq!(cfg.get_immediate_dominator(0), None);
    for b in 1..blocks.len() {
        match cfg.get_immediate_dominator(b) {
            None => assert!(!reached[b]),
            Some(d) => {
                assert!(reached[b]);
                assert!(d != b && dominates(d, b));
                for s in 0..blocks.len() {
                    if s != b && dominates(s, b) {
                        assert!(dominates(s, d));
                    }
                }
                let mut at = b;
                let mut steps = 0;
                while at != 0 {
                    at = cfg.get_immediate_dominator(at).unwrap();
                    steps += 1;
                    assert!(steps <= blocks.len());
                }
            }
        }
    }
    for b in 0..blocks.len() {
        for f in 0..blocks.len() {
            let expected = !(b != f && dominates(b, f))
                && (0..blocks.len()).any(|p| {
                    reached[p] && blocks[p].get_successors().contains(&f) && dominates(b, p)
                });
            assert_eq!(cfg.get_dominance_frontier(b).contains(&f), expected);
        }
    }
}

#[test]
fn graphs_of_generated_bodies_keep_their_invariants() {
    let mut numbers = Numbers(2024);
    let mut largest = 0;
    for _ in 0..300 {
        let body = body(&mut numbers, 3);
        let (cfg, _) = Cfg::try_from_definition(&definition(body)).unwrap();
        check_graph(cfg.get_basic_blocks());
        check_dominators(&cfg);
        largest = largest.max(cfg.len());
    }
    assert!(largest > 8);
}

#[test]
fn declared_names_of_generated_bodies_are_unique() {
    let mut numbers = Numbers(7);
    for _ in 0..300 {
        let body = body(&mut numbers, 3);
        let (out, reports) = ensure_unique_variables(&body, &parameters());
        assert!(reports.is_empty());
        let mut declared = vec![("p".to_string(), 0)];
        declared_variables(&out, &mut declared);
        let mut distinct = declared.clone();
        distinct.sort();
        distinct.dedup();
        assert_eq!(distinct.len(), declared.len());
        let (cfg, _) = Cfg::try_from_definition(&definition(body)).unwrap();
        let in_map: Vec<(String, usize)> = cfg
            .get_declarations()
            .get_declarations()
            .iter()
            .map(|d| (d.name.name.clone(), d.name.version))
            .collect();
        assert_eq!(in_map, declared);
    }
}

#[test]
fn rewriting_generated_bodies_twice_changes_nothing_more() {
    let mut numbers = Numbers(99);
    for _ in 0..200 {
        let body = body(&mut numbers, 3);
        let (once, _) = ensure_unique_variables(&body, &parameters());
        let (twice, reports) = ensure_unique_variables(&once, &parameters());
        assert!(reports.is_empty());
        assert_eq!(format!("{:?}", twice), format!("{:?}", once));
    }
}
