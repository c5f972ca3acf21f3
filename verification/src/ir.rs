//! The intermediate representation that basic blocks hold.
//!
//! It follows the syntax tree, but every reference to a symbol carries the
//! kind it was declared with, and a conditional names the blocks it branches
//! to in place of nested bodies.

use crate::ast::{
    AssignOp, ExpressionInfixOpcode, ExpressionPrefixOpcode, NameView, VariableName, VariableType,
};
use crate::file_definition::{FileID, FileLocation};
use crate::value_meta::ValueKnowledge;
use num_bigint::BigInt;
use vstd::prelude::*;

verus! {

/// The position of a basic block in the graph.
pub type Index = usize;

/// Metadata of a node of the intermediate representation.
#[derive(Debug)]
pub struct Meta {
    pub location: FileLocation,
    pub file_id: Option<FileID>,
    /// The kind of what the node stands for, once an analysis has found it.
    pub type_knowledge: Option<VariableType>,
    /// The value that the node reduces to, once an analysis has found it.
    pub value_knowledge: ValueKnowledge,
}

#[derive(Debug)]
pub enum Access {
    ComponentAccess { name: String },
    ArrayAccess { index: Expression },
}

#[derive(Debug)]
#[allow(inconsistent_fields)]
pub enum Expression {
    Number { meta: Meta, value: BigInt },
    Variable { meta: Meta, name: VariableName, xtype: VariableType, access: Vec<Access> },
    InfixOp { meta: Meta, lhe: Box<Expression>, infix_op: ExpressionInfixOpcode, rhe: Box<Expression> },
    PrefixOp { meta: Meta, prefix_op: ExpressionPrefixOpcode, rhe: Box<Expression> },
    ParallelOp { meta: Meta, rhe: Box<Expression> },
    InlineSwitchOp { meta: Meta, cond: Box<Expression>, if_true: Box<Expression>, if_false: Box<Expression> },
    Call { meta: Meta, id: String, args: Vec<Expression> },
    AnonymousComponent { meta: Meta, id: String, args: Vec<Expression> },
    ArrayInLine { meta: Meta, values: Vec<Expression> },
    Tuple { meta: Meta, values: Vec<Expression> },
    UniformArray { meta: Meta, value: Box<Expression>, dimension: Box<Expression> },
}

#[derive(Debug)]
pub enum Statement {
    /// A branch on `cond` to block `if_true`, and otherwise to block
    /// `if_false` where there is one.
    IfThenElse { meta: Meta, cond: Expression, if_true: Index, if_false: Option<Index> },
    Return { meta: Meta, value: Expression },
    Assert { meta: Meta, arg: Expression },
    LogCall { meta: Meta, args: Vec<Expression> },
    Substitution { meta: Meta, var: VariableName, xtype: VariableType, access: Vec<Access>, op: AssignOp, rhe: Expression },
    MultiSubstitution { meta: Meta, lhe: Expression, op: AssignOp, rhe: Expression },
    ConstraintEquality { meta: Meta, lhe: Expression, rhe: Expression },
}

/// A declared local, as the declaration map records it.
#[derive(Debug)]
pub struct Declaration {
    pub meta: Meta,
    pub name: VariableName,
    pub xtype: VariableType,
    pub dimensions: Vec<Expression>,
}

/// The metadata of the node that a syntax-tree node with `meta` lowers to:
/// same place, nothing known of its value yet.
pub open spec fn lowered_meta(meta: crate::ast::Meta, r: Meta) -> bool {
    &&& r.location == meta.location
    &&& r.file_id == meta.file_id
    &&& r.type_knowledge is None
    &&& r.value_knowledge@ is None
}

impl Meta {
    /// Metadata for the node that a syntax-tree node with `meta` lowers to.
    pub fn from_ast(meta: &crate::ast::Meta) -> (r: Meta)
        ensures
            lowered_meta(*meta, r),
    {
        Meta {
            location: meta.location,
            file_id: meta.file_id,
            type_knowledge: None,
            value_knowledge: ValueKnowledge::new(),
        }
    }
}

/// Every variable that `e` mentions has its name in `names`.
pub open spec fn expression_names_within(e: Expression, names: Set<NameView>) -> bool
    decreases e,
{
    match e {
        Expression::Number { .. } => true,
        Expression::Variable { name, access, .. } => {
            &&& names.contains(name@)
            &&& forall|i: int|
                0 <= i < access@.len() ==> access_names_within(#[trigger] access@[i], names)
        },
        Expression::InfixOp { lhe, rhe, .. } => {
            &&& expression_names_within(*lhe, names)
            &&& expression_names_within(*rhe, names)
        },
        Expression::PrefixOp { rhe, .. } => expression_names_within(*rhe, names),
        Expression::ParallelOp { rhe, .. } => expression_names_within(*rhe, names),
        Expression::InlineSwitchOp { cond, if_true, if_false, .. } => {
            &&& expression_names_within(*cond, names)
            &&& expression_names_within(*if_true, names)
            &&& expression_names_within(*if_false, names)
        },
        Expression::Call { args, .. } => forall|i: int|
            0 <= i < args@.len() ==> expression_names_within(#[trigger] args@[i], names),
        Expression::AnonymousComponent { args, .. } => forall|i: int|
            0 <= i < args@.len() ==> expression_names_within(#[trigger] args@[i], names),
        Expression::ArrayInLine { values, .. } => forall|i: int|
            0 <= i < values@.len() ==> expression_names_within(#[trigger] values@[i], names),
        Expression::Tuple { values, .. } => forall|i: int|
            0 <= i < values@.len() ==> expression_names_within(#[trigger] values@[i], names),
        Expression::UniformArray { value, dimension, .. } => {
            &&& expression_names_within(*value, names)
            &&& expression_names_within(*dimension, names)
        },
    }
}

/// Every variable that the access mentions has its name in `names`.
pub open spec fn access_names_within(a: Access, names: Set<NameView>) -> bool
    decreases a,
{
    match a {
        Access::ComponentAccess { .. } => true,
        Access::ArrayAccess { index } => expression_names_within(index, names),
    }
}

/// Every variable that one of `es` mentions has its name in `names`.
pub open spec fn expressions_names_within(es: Seq<Expression>, names: Set<NameView>) -> bool {
    forall|i: int| 0 <= i < es.len() ==> expression_names_within(#[trigger] es[i], names)
}

/// Every variable that one of the accesses mentions has its name in `names`.
pub open spec fn accesses_names_within(accesses: Seq<Access>, names: Set<NameView>) -> bool {
    forall|i: int| 0 <= i < accesses.len() ==> access_names_within(#[trigger] accesses[i], names)
}

/// Every variable that the statement mentions has its name in `names`.
pub open spec fn statement_names_within(s: Statement, names: Set<NameView>) -> bool {
    match s {
        Statement::IfThenElse { cond, .. } => expression_names_within(cond, names),
        Statement::Return { value, .. } => expression_names_within(value, names),
        Statement::Assert { arg, .. } => expression_names_within(arg, names),
        Statement::LogCall { args, .. } => expressions_names_within(args@, names),
        Statement::Substitution { var, access, rhe, .. } => {
            &&& names.contains(var@)
            &&& accesses_names_within(access@, names)
            &&& expression_names_within(rhe, names)
        },
        Statement::MultiSubstitution { lhe, rhe, .. } => {
            &&& expression_names_within(lhe, names)
            &&& expression_names_within(rhe, names)
        },
        Statement::ConstraintEquality { lhe, rhe, .. } => {
            &&& expression_names_within(lhe, names)
            &&& expression_names_within(rhe, names)
        },
    }
}

/// What holds of the names in one set holds of them in a larger one.
pub proof fn lemma_expression_names_within_larger(
    e: Expression,
    names: Set<NameView>,
    more: Set<NameView>,
)
    requires
        expression_names_within(e, names),
        names.subset_of(more),
    ensures
        expression_names_within(e, more),
    decreases e,
{
    match e {
        Expression::Number { .. } => {},
        Expression::Variable { access, .. } => {
            assert forall|i: int| 0 <= i < access@.len() implies access_names_within(
                #[trigger] access@[i],
                more,
            ) by {
                lemma_access_names_within_larger(access@[i], names, more);
            }
        },
        Expression::InfixOp { lhe, rhe, .. } => {
            lemma_expression_names_within_larger(*lhe, names, more);
            lemma_expression_names_within_larger(*rhe, names, more);
        },
        Expression::PrefixOp { rhe, .. } => {
            lemma_expression_names_within_larger(*rhe, names, more);
        },
        Expression::ParallelOp { rhe, .. } => {
            lemma_expression_names_within_larger(*rhe, names, more);
        },
        Expression::InlineSwitchOp { cond, if_true, if_false, .. } => {
            lemma_expression_names_within_larger(*cond, names, more);
            lemma_expression_names_within_larger(*if_true, names, more);
            lemma_expression_names_within_larger(*if_false, names, more);
        },
        Expression::Call { args, .. } => {
            lemma_expressions_names_within_larger(args@, names, more);
        },
        Expression::AnonymousComponent { args, .. } => {
            lemma_expressions_names_within_larger(args@, names, more);
        },
        Expression::ArrayInLine { values, .. } => {
            lemma_expressions_names_within_larger(values@, names, more);
        },
        Expression::Tuple { values, .. } => {
            lemma_expressions_names_within_larger(values@, names, more);
        },
        Expression::UniformArray { value, dimension, .. } => {
            lemma_expression_names_within_larger(*value, names, more);
            lemma_expression_names_within_larger(*dimension, names, more);
        },
    }
}

/// What holds of the names in one set holds of them in a larger one.
pub proof fn lemma_access_names_within_larger(a: Access, names: Set<NameView>, more: Set<NameView>)
    requires
        access_names_within(a, names),
        names.subset_of(more),
    ensures
        access_names_within(a, more),
    decreases a,
{
    match a {
        Access::ComponentAccess { .. } => {},
        Access::ArrayAccess { index } => {
            lemma_expression_names_within_larger(index, names, more);
        },
    }
}

/// What holds of the names in one set holds of them in a larger one.
pub proof fn lemma_expressions_names_within_larger(
    es: Seq<Expression>,
    names: Set<NameView>,
    more: Set<NameView>,
)
    requires
        expressions_names_within(es, names),
        names.subset_of(more),
    ensures
        expressions_names_within(es, more),
    decreases es,
{
    assert forall|i: int| 0 <= i < es.len() implies expression_names_within(
        #[trigger] es[i],
        more,
    ) by {
        lemma_expression_names_within_larger(es[i], names, more);
    }
}

/// What holds of the names in one set holds of them in a larger one.
pub proof fn lemma_statement_names_within_larger(
    s: Statement,
    names: Set<NameView>,
    more: Set<NameView>,
)
    requires
        statement_names_within(s, names),
        names.subset_of(more),
    ensures
        statement_names_within(s, more),
{
    match s {
        Statement::IfThenElse { cond, .. } => {
            lemma_expression_names_within_larger(cond, names, more);
        },
        Statement::Return { value, .. } => {
            lemma_expression_names_within_larger(value, names, more);
        },
        Statement::Assert { arg, .. } => {
            lemma_expression_names_within_larger(arg, names, more);
        },
        Statement::LogCall { args, .. } => {
            lemma_expressions_names_within_larger(args@, names, more);
        },
        Statement::Substitution { access, rhe, .. } => {
            assert forall|i: int| 0 <= i < access@.len() implies access_names_within(
                #[trigger] access@[i],
                more,
            ) by {
                lemma_access_names_within_larger(access@[i], names, more);
            }
            lemma_expression_names_within_larger(rhe, names, more);
        },
        Statement::MultiSubstitution { lhe, rhe, .. } => {
            lemma_expression_names_within_larger(lhe, names, more);
            lemma_expression_names_within_larger(rhe, names, more);
        },
        Statement::ConstraintEquality { lhe, rhe, .. } => {
            lemma_expression_names_within_larger(lhe, names, more);
            lemma_expression_names_within_larger(rhe, names, more);
        },
    }
}

} // verus!
