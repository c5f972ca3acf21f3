//! The abstract syntax tree of a definition body.

use crate::file_definition::{FileID, FileLocation};
use num_bigint::BigInt;
use vstd::prelude::*;

verus! {

/// Metadata that the parser attaches to every node.
#[derive(Clone, Copy, Debug, PartialEq, Eq, Structural)]
pub struct Meta {
    pub location: FileLocation,
    pub file_id: Option<FileID>,
}

#[derive(Clone, Copy, Debug, PartialEq, Eq, Structural)]
pub enum SignalType {
    Input,
    Output,
    Intermediate,
}

#[derive(Clone, Copy, Debug, PartialEq, Eq, Structural)]
pub enum VariableType {
    Var,
    Signal(SignalType),
    Component,
    AnonymousComponent,
    Bus,
}

#[derive(Clone, Copy, Debug, PartialEq, Eq, Structural)]
pub enum AssignOp {
    AssignVar,
    AssignSignal,
    AssignConstraintSignal,
}

#[derive(Clone, Copy, Debug, PartialEq, Eq, Structural)]
pub enum ExpressionInfixOpcode {
    Mul,
    Div,
    Add,
    Sub,
    Pow,
    IntDiv,
    Mod,
    ShiftL,
    ShiftR,
    LesserEq,
    GreaterEq,
    Lesser,
    Greater,
    Eq,
    NotEq,
    BoolOr,
    BoolAnd,
    BitOr,
    BitAnd,
    BitXor,
}

#[derive(Clone, Copy, Debug, PartialEq, Eq, Structural)]
pub enum ExpressionPrefixOpcode {
    Sub,
    BoolNot,
    Complement,
}

/// The name of a variable, signal or component.
///
/// A name as written in the source has version 0. The uniqueness pass gives a
/// declaration that repeats an earlier name a version of its own.
#[derive(Debug)]
pub struct VariableName {
    pub name: String,
    pub version: usize,
}

#[derive(Debug)]
pub enum Access {
    ComponentAccess { name: String },
    ArrayAccess { index: Expression },
}

#[derive(Debug)]
#[allow(inconsistent_fields)]
pub enum Expression {
    Number { meta: Meta, value: BigInt },
    Variable { meta: Meta, name: VariableName, access: Vec<Access> },
    InfixOp { meta: Meta, lhe: Box<Expression>, infix_op: ExpressionInfixOpcode, rhe: Box<Expression> },
    PrefixOp { meta: Meta, prefix_op: ExpressionPrefixOpcode, rhe: Box<Expression> },
    ParallelOp { meta: Meta, rhe: Box<Expression> },
    InlineSwitchOp { meta: Meta, cond: Box<Expression>, if_true: Box<Expression>, if_false: Box<Expression> },
    Call { meta: Meta, id: String, args: Vec<Expression> },
    AnonymousComponent { meta: Meta, id: String, args: Vec<Expression> },
    ArrayInLine { meta: Meta, values: Vec<Expression> },
    Tuple { meta: Meta, values: Vec<Expression> },
    UniformArray { meta: Meta, value: Box<Expression>, dimension: Box<Expression> },
}

#[derive(Debug)]
pub enum Statement {
    Block { meta: Meta, stmts: Vec<Statement> },
    InitializationBlock { meta: Meta, xtype: VariableType, initializations: Vec<Statement> },
    IfThenElse { meta: Meta, cond: Expression, if_case: Box<Statement>, else_case: Option<Box<Statement>> },
    While { meta: Meta, cond: Expression, stmt: Box<Statement> },
    Return { meta: Meta, value: Expression },
    Assert { meta: Meta, arg: Expression },
    LogCall { meta: Meta, args: Vec<Expression> },
    Declaration { meta: Meta, xtype: VariableType, name: VariableName, dimensions: Vec<Expression>, is_constant: bool },
    Substitution { meta: Meta, var: VariableName, access: Vec<Access>, op: AssignOp, rhe: Expression },
    MultiSubstitution { meta: Meta, lhe: Expression, op: AssignOp, rhe: Expression },
    ConstraintEquality { meta: Meta, lhe: Expression, rhe: Expression },
}

/// A definition as the parser hands it over.
#[derive(Debug)]
pub enum Definition {
    Template { meta: Meta, name: String, args: Vec<String>, body: Statement },
    Function { meta: Meta, name: String, args: Vec<String>, body: Statement },
}

impl Definition {
    pub open spec fn name(self) -> String {
        match self {
            Definition::Template { name, .. } => name,
            Definition::Function { name, .. } => name,
        }
    }

    pub open spec fn meta(self) -> Meta {
        match self {
            Definition::Template { meta, .. } => meta,
            Definition::Function { meta, .. } => meta,
        }
    }

    /// The names of the parameters, in order.
    pub open spec fn args(self) -> Vec<String> {
        match self {
            Definition::Template { args, .. } => args,
            Definition::Function { args, .. } => args,
        }
    }

    pub open spec fn body(self) -> Statement {
        match self {
            Definition::Template { body, .. } => body,
            Definition::Function { body, .. } => body,
        }
    }

    pub fn get_body(&self) -> (r: &Statement)
        ensures
            *r == self.body(),
    {
        match self {
            Definition::Template { body, .. } => body,
            Definition::Function { body, .. } => body,
        }
    }
}

impl Statement {
    /// The metadata of the statement.
    pub open spec fn meta(self) -> Meta {
        match self {
            Statement::Block { meta, .. } => meta,
            Statement::InitializationBlock { meta, .. } => meta,
            Statement::IfThenElse { meta, .. } => meta,
            Statement::While { meta, .. } => meta,
            Statement::Return { meta, .. } => meta,
            Statement::Assert { meta, .. } => meta,
            Statement::LogCall { meta, .. } => meta,
            Statement::Declaration { meta, .. } => meta,
            Statement::Substitution { meta, .. } => meta,
            Statement::MultiSubstitution { meta, .. } => meta,
            Statement::ConstraintEquality { meta, .. } => meta,
        }
    }

    pub fn get_meta(&self) -> (r: &Meta)
        ensures
            *r == self.meta(),
    {
        match self {
            Statement::Block { meta, .. } => meta,
            Statement::InitializationBlock { meta, .. } => meta,
            Statement::IfThenElse { meta, .. } => meta,
            Statement::While { meta, .. } => meta,
            Statement::Return { meta, .. } => meta,
            Statement::Assert { meta, .. } => meta,
            Statement::LogCall { meta, .. } => meta,
            Statement::Declaration { meta, .. } => meta,
            Statement::Substitution { meta, .. } => meta,
            Statement::MultiSubstitution { meta, .. } => meta,
            Statement::ConstraintEquality { meta, .. } => meta,
        }
    }
}

/// What a name stands for: its characters and its version.
pub type NameView = (Seq<char>, usize);

impl View for VariableName {
    type V = NameView;

    open spec fn view(&self) -> NameView {
        (self.name@, self.version)
    }
}

impl VariableName {
    /// The name as written in the source.
    pub fn from_name(name: String) -> (r: VariableName)
        ensures
            r@ == (name@, 0usize),
    {
        VariableName { name, version: 0 }
    }

    /// The name with another version.
    pub fn with_version(&self, version: usize) -> (r: VariableName)
        ensures
            r@ == (self.name@, version),
    {
        VariableName { name: self.name.clone(), version }
    }

    /// A copy of the name.
    pub fn duplicate(&self) -> (r: VariableName)
        ensures
            r@ == self@,
    {
        VariableName { name: self.name.clone(), version: self.version }
    }

    /// Whether two names have the same characters and the same version.
    pub fn equals(&self, other: &VariableName) -> (r: bool)
        ensures
            r == (self@ == other@),
    {
        self.version == other.version && self.name == other.name
    }
}

} // verus!
