//! Which templates and functions a piece of code reaches through calls.

use crate::ast::{Expression, Statement};
use crate::program_archive::ProgramArchive;
use vstd::hash_set::StringHashSet;
use vstd::prelude::*;

verus! {

/// A set of names of templates and functions.
pub type NameSet = StringHashSet;

/// The names in `result` together with those that `expr` reaches.
///
/// A call reaches the definition it names and, while `level` is not used up,
/// what the body of that definition reaches with one level less. A name that
/// is in the set already is not followed again. An anonymous component
/// reaches the template it names. The arguments of either are not looked
/// into.
pub open spec fn gathered_expression(
    expr: Expression,
    result: Set<Seq<char>>,
    archive: ProgramArchive,
    level: nat,
) -> Set<Seq<char>>
    decreases level, 0nat, expr, 0nat,
{
    match expr {
        Expression::Call { id, .. } => {
            if level > 0 && !result.contains(id@) {
                if archive.templates@.contains_key(id@) {
                    gathered_statement(
                        archive.templates@[id@].body,
                        result.insert(id@),
                        archive,
                        (level - 1) as nat,
                    )
                } else if archive.functions@.contains_key(id@) {
                    gathered_statement(
                        archive.functions@[id@].body,
                        result.insert(id@),
                        archive,
                        (level - 1) as nat,
                    )
                } else {
                    result.insert(id@)
                }
            } else {
                result
            }
        },
        Expression::AnonymousComponent { id, .. } => result.insert(id@),
        Expression::InfixOp { lhe, rhe, .. } => gathered_expression(
            *rhe,
            gathered_expression(*lhe, result, archive, level),
            archive,
            level,
        ),
        Expression::PrefixOp { rhe, .. } => gathered_expression(*rhe, result, archive, level),
        Expression::ParallelOp { rhe, .. } => gathered_expression(*rhe, result, archive, level),
        _ => result,
    }
}

/// The names in `result` together with those that `stmt` reaches: those that
/// its conditions, returned, asserted and assigned values and its nested
/// statements reach, in source order.
pub open spec fn gathered_statement(
    stmt: Statement,
    result: Set<Seq<char>>,
    archive: ProgramArchive,
    level: nat,
) -> Set<Seq<char>>
    decreases level, 1nat, stmt, 0nat,
{
    match stmt {
        Statement::IfThenElse { cond, if_case, else_case, .. } => {
            let after_if = gathered_statement(
                *if_case,
                gathered_expression(cond, result, archive, level),
                archive,
                level,
            );
            match else_case {
                Some(else_case) => gathered_statement(*else_case, after_if, archive, level),
                None => after_if,
            }
        },
        Statement::While { cond, stmt: body, .. } => gathered_statement(
            *body,
            gathered_expression(cond, result, archive, level),
            archive,
            level,
        ),
        Statement::Return { value, .. } => gathered_expression(value, result, archive, level),
        Statement::InitializationBlock { initializations, .. } => gathered_statements(
            initializations@,
            initializations@.len(),
            result,
            archive,
            level,
        ),
        Statement::Declaration { .. } => result,
        Statement::Substitution { rhe, .. } => gathered_expression(rhe, result, archive, level),
        Statement::MultiSubstitution { rhe, .. } => gathered_expression(rhe, result, archive, level),
        Statement::ConstraintEquality { lhe, rhe, .. } => gathered_expression(
            rhe,
            gathered_expression(lhe, result, archive, level),
            archive,
            level,
        ),
        Statement::LogCall { .. } => result,
        Statement::Block { stmts, .. } => gathered_statements(
            stmts@,
            stmts@.len(),
            result,
            archive,
            level,
        ),
        Statement::Assert { arg, .. } => gathered_expression(arg, result, archive, level),
    }
}

/// The names in `result` together with those that the first `n` of `stmts`
/// reach.
pub open spec fn gathered_statements(
    stmts: Seq<Statement>,
    n: nat,
    result: Set<Seq<char>>,
    archive: ProgramArchive,
    level: nat,
) -> Set<Seq<char>>
    decreases level, 1nat, stmts, n,
{
    if n == 0 || n > stmts.len() {
        result
    } else {
        gathered_statement(
            stmts[n - 1],
            gathered_statements(stmts, (n - 1) as nat, result, archive, level),
            archive,
            level,
        )
    }
}

/// Adds to `result` the names of the templates and functions that `expr`
/// reaches, following calls `level` deep.
pub fn gather_templates_expression(
    expr: &Expression,
    result: &mut StringHashSet,
    program_archive: &ProgramArchive,
    level: usize,
)
    ensures
        final(result)@ == gathered_expression(*expr, old(result)@, *program_archive, level as nat),
        old(result)@.subset_of(final(result)@),
    decreases level, 0nat, expr, 0nat,
{
    match expr {
        Expression::Call { id, .. } => {
            if level > 0 {
                if !result.contains(id.as_str()) {
                    result.insert(id.clone());
                    if let Some(template) = program_archive.templates.get(id.as_str()) {
                        gather_templates_statement(
                            template.get_body(),
                            result,
                            program_archive,
                            level - 1,
                        );
                    } else if let Some(func) = program_archive.functions.get(id.as_str()) {
                        gather_templates_statement(
                            func.get_body(),
                            result,
                            program_archive,
                            level - 1,
                        );
                    }
                }
            }
        },
        Expression::AnonymousComponent { id, .. } => {
            result.insert(id.clone());
        },
        Expression::InfixOp { lhe, rhe, .. } => {
            gather_templates_expression(lhe, result, program_archive, level);
            gather_templates_expression(rhe, result, program_archive, level);
        },
        Expression::PrefixOp { rhe, .. } => {
            gather_templates_expression(rhe, result, program_archive, level);
        },
        Expression::ParallelOp { rhe, .. } => {
            gather_templates_expression(rhe, result, program_archive, level);
        },
        _ => {},
    }
}

/// Adds to `result` the names that each of `stmts` reaches, in order.
#[verifier::loop_isolation(false)]
fn gather_templates_statements(
    stmts: &Vec<Statement>,
    result: &mut StringHashSet,
    program_archive: &ProgramArchive,
    level: usize,
)
    ensures
        final(result)@ == gathered_statements(
            stmts@,
            stmts@.len(),
            old(result)@,
            *program_archive,
            level as nat,
        ),
        old(result)@.subset_of(final(result)@),
    decreases level, 1nat, stmts, 0nat,
{
    let mut i: usize = 0;
    while i < stmts.len()
        invariant
            i <= stmts@.len(),
            result@ == gathered_statements(
                stmts@,
                i as nat,
                old(result)@,
                *program_archive,
                level as nat,
            ),
            old(result)@.subset_of(result@),
        decreases stmts@.len() - i,
    {
        gather_templates_statement(&stmts[i], result, program_archive, level);
        i += 1;
    }
}

/// Adds to `result` the names of the templates and functions that `stmt`
/// reaches, following calls `level` deep.
pub fn gather_templates_statement(
    stmt: &Statement,
    result: &mut StringHashSet,
    program_archive: &ProgramArchive,
    level: usize,
)
    ensures
        final(result)@ == gathered_statement(*stmt, old(result)@, *program_archive, level as nat),
        old(result)@.subset_of(final(result)@),
    decreases level, 1nat, stmt, 1nat,
{
    match stmt {
        Statement::IfThenElse { cond, if_case, else_case, .. } => {
            gather_templates_expression(cond, result, program_archive, level);
            gather_templates_statement(if_case, result, program_archive, level);
            if let Some(ecase) = else_case {
                gather_templates_statement(ecase, result, program_archive, level);
            }
        },
        Statement::While { cond, stmt, .. } => {
            gather_templates_expression(cond, result, program_archive, level);
            gather_templates_statement(stmt, result, program_archive, level);
        },
        Statement::Return { value, .. } => {
            gather_templates_expression(value, result, program_archive, level);
        },
        Statement::InitializationBlock { initializations, .. } => {
            gather_templates_statements(initializations, result, program_archive, level);
        },
        Statement::Declaration { .. } => {},
        Statement::Substitution { rhe, .. } => {
            gather_templates_expression(rhe, result, program_archive, level);
        },
        Statement::MultiSubstitution { rhe, .. } => {
            gather_templates_expression(rhe, result, program_archive, level);
        },
        Statement::ConstraintEquality { lhe, rhe, .. } => {
            gather_templates_expression(lhe, result, program_archive, level);
            gather_templates_expression(rhe, result, program_archive, level);
        },
        Statement::LogCall { .. } => {},
        Statement::Block { stmts, .. } => {
            gather_templates_statements(stmts, result, program_archive, level);
        },
        Statement::Assert { arg, .. } => {
            gather_templates_expression(arg, result, program_archive, level);
        },
    }
}

} // verus!
