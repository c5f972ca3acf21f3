//! Lowering of syntax-tree nodes to the intermediate representation.
//!
//! Lowering keeps the shape of a node and resolves each variable it mentions
//! against the environment. It fails when a variable is not visible.

use crate::ast;
use crate::ast::NameView;
use crate::environment::{IREnvironment, Scope, visible_kind};
use crate::errors::CFGError;
use crate::ir;
use vstd::prelude::*;

verus! {

/// Every variable that `e` mentions is visible in `scopes`.
pub open spec fn resolves_expression(e: ast::Expression, scopes: Seq<Scope>) -> bool
    decreases e,
{
    match e {
        ast::Expression::Number { .. } => true,
        ast::Expression::Variable { name, access, .. } => {
            &&& visible_kind(scopes, name@) is Some
            &&& forall|i: int| 0 <= i < access@.len() ==> resolves_access(#[trigger] access@[i], scopes)
        },
        ast::Expression::InfixOp { lhe, rhe, .. } => {
            &&& resolves_expression(*lhe, scopes)
            &&& resolves_expression(*rhe, scopes)
        },
        ast::Expression::PrefixOp { rhe, .. } => resolves_expression(*rhe, scopes),
        ast::Expression::ParallelOp { rhe, .. } => resolves_expression(*rhe, scopes),
        ast::Expression::InlineSwitchOp { cond, if_true, if_false, .. } => {
            &&& resolves_expression(*cond, scopes)
            &&& resolves_expression(*if_true, scopes)
            &&& resolves_expression(*if_false, scopes)
        },
        ast::Expression::Call { args, .. } => forall|i: int|
            0 <= i < args@.len() ==> resolves_expression(#[trigger] args@[i], scopes),
        ast::Expression::AnonymousComponent { args, .. } => forall|i: int|
            0 <= i < args@.len() ==> resolves_expression(#[trigger] args@[i], scopes),
        ast::Expression::ArrayInLine { values, .. } => forall|i: int|
            0 <= i < values@.len() ==> resolves_expression(#[trigger] values@[i], scopes),
        ast::Expression::Tuple { values, .. } => forall|i: int|
            0 <= i < values@.len() ==> resolves_expression(#[trigger] values@[i], scopes),
        ast::Expression::UniformArray { value, dimension, .. } => {
            &&& resolves_expression(*value, scopes)
            &&& resolves_expression(*dimension, scopes)
        },
    }
}

/// Every variable that the access mentions is visible in `scopes`.
pub open spec fn resolves_access(a: ast::Access, scopes: Seq<Scope>) -> bool
    decreases a,
{
    match a {
        ast::Access::ComponentAccess { .. } => true,
        ast::Access::ArrayAccess { index } => resolves_expression(index, scopes),
    }
}

/// Every variable that one of `es` mentions is visible in `scopes`.
pub open spec fn resolves_expressions(es: Seq<ast::Expression>, scopes: Seq<Scope>) -> bool {
    forall|i: int| 0 <= i < es.len() ==> resolves_expression(#[trigger] es[i], scopes)
}

/// Every variable that one of the accesses mentions is visible in `scopes`.
pub open spec fn resolves_accesses(accesses: Seq<ast::Access>, scopes: Seq<Scope>) -> bool {
    forall|i: int| 0 <= i < accesses.len() ==> resolves_access(#[trigger] accesses[i], scopes)
}

/// `r` is `e` lowered in `scopes`: the same expression, each node with the
/// metadata of the node it comes from, each variable with the kind that
/// `scopes` give it.
pub open spec fn lowered_expression(e: ast::Expression, scopes: Seq<Scope>, r: ir::Expression) -> bool
    decreases e,
{
    match e {
        ast::Expression::Number { meta, value } => {
            &&& r matches ir::Expression::Number { meta: m, value: v }
            &&& ir::lowered_meta(meta, m)
            &&& v == value
        },
        ast::Expression::Variable { meta, name, access } => {
            &&& r matches ir::Expression::Variable { meta: m, name: n, xtype, access: a }
            &&& ir::lowered_meta(meta, m)
            &&& n@ == name@
            &&& visible_kind(scopes, name@) == Some(xtype)
            &&& a@.len() == access@.len()
            &&& forall|i: int|
                0 <= i < access@.len() ==> lowered_access(#[trigger] access@[i], scopes, a@[i])
        },
        ast::Expression::InfixOp { meta, lhe, infix_op, rhe } => {
            &&& r matches ir::Expression::InfixOp { meta: m, lhe: l, infix_op: op, rhe: h }
            &&& ir::lowered_meta(meta, m)
            &&& op == infix_op
            &&& lowered_expression(*lhe, scopes, *l)
            &&& lowered_expression(*rhe, scopes, *h)
        },
        ast::Expression::PrefixOp { meta, prefix_op, rhe } => {
            &&& r matches ir::Expression::PrefixOp { meta: m, prefix_op: op, rhe: h }
            &&& ir::lowered_meta(meta, m)
            &&& op == prefix_op
            &&& lowered_expression(*rhe, scopes, *h)
        },
        ast::Expression::ParallelOp { meta, rhe } => {
            &&& r matches ir::Expression::ParallelOp { meta: m, rhe: h }
            &&& ir::lowered_meta(meta, m)
            &&& lowered_expression(*rhe, scopes, *h)
        },
        ast::Expression::InlineSwitchOp { meta, cond, if_true, if_false } => {
            &&& r matches ir::Expression::InlineSwitchOp { meta: m, cond: c, if_true: t, if_false: f }
            &&& ir::lowered_meta(meta, m)
            &&& lowered_expression(*cond, scopes, *c)
            &&& lowered_expression(*if_true, scopes, *t)
            &&& lowered_expression(*if_false, scopes, *f)
        },
        ast::Expression::Call { meta, id, args } => {
            &&& r matches ir::Expression::Call { meta: m, id: d, args: a }
            &&& ir::lowered_meta(meta, m)
            &&& d@ == id@
            &&& a@.len() == args@.len()
            &&& forall|i: int|
                0 <= i < args@.len() ==> lowered_expression(#[trigger] args@[i], scopes, a@[i])
        },
        ast::Expression::AnonymousComponent { meta, id, args } => {
            &&& r matches ir::Expression::AnonymousComponent { meta: m, id: d, args: a }
            &&& ir::lowered_meta(meta, m)
            &&& d@ == id@
            &&& a@.len() == args@.len()
            &&& forall|i: int|
                0 <= i < args@.len() ==> lowered_expression(#[trigger] args@[i], scopes, a@[i])
        },
        ast::Expression::ArrayInLine { meta, values } => {
            &&& r matches ir::Expression::ArrayInLine { meta: m, values: a }
            &&& ir::lowered_meta(meta, m)
            &&& a@.len() == values@.len()
            &&& forall|i: int|
                0 <= i < values@.len() ==> lowered_expression(#[trigger] values@[i], scopes, a@[i])
        },
        ast::Expression::Tuple { meta, values } => {
            &&& r matches ir::Expression::Tuple { meta: m, values: a }
            &&& ir::lowered_meta(meta, m)
            &&& a@.len() == values@.len()
            &&& forall|i: int|
                0 <= i < values@.len() ==> lowered_expression(#[trigger] values@[i], scopes, a@[i])
        },
        ast::Expression::UniformArray { meta, value, dimension } => {
            &&& r matches ir::Expression::UniformArray { meta: m, value: v, dimension: d }
            &&& ir::lowered_meta(meta, m)
            &&& lowered_expression(*value, scopes, *v)
            &&& lowered_expression(*dimension, scopes, *d)
        },
    }
}

/// `r` is the access `a` lowered in `scopes`.
pub open spec fn lowered_access(a: ast::Access, scopes: Seq<Scope>, r: ir::Access) -> bool
    decreases a,
{
    match a {
        ast::Access::ComponentAccess { name } => {
            &&& r matches ir::Access::ComponentAccess { name: n }
            &&& n@ == name@
        },
        ast::Access::ArrayAccess { index } => {
            &&& r matches ir::Access::ArrayAccess { index: i }
            &&& lowered_expression(index, scopes, i)
        },
    }
}

/// `rs` are `es` lowered in `scopes`, one for one.
pub open spec fn lowered_expressions(
    es: Seq<ast::Expression>,
    scopes: Seq<Scope>,
    rs: Seq<ir::Expression>,
) -> bool {
    &&& rs.len() == es.len()
    &&& forall|i: int| 0 <= i < es.len() ==> lowered_expression(#[trigger] es[i], scopes, rs[i])
}

/// `rs` are the accesses `accesses` lowered in `scopes`, one for one.
pub open spec fn lowered_accesses(
    accesses: Seq<ast::Access>,
    scopes: Seq<Scope>,
    rs: Seq<ir::Access>,
) -> bool {
    &&& rs.len() == accesses.len()
    &&& forall|i: int|
        0 <= i < accesses.len() ==> lowered_access(#[trigger] accesses[i], scopes, rs[i])
}

/// Lowers each of `es`, in order.
pub fn lower_expressions(es: &Vec<ast::Expression>, env: &IREnvironment) -> (r: Result<
    Vec<ir::Expression>,
    CFGError,
>)
    requires
        env.well_formed(),
    ensures
        match r {
            Ok(rs) => resolves_expressions(es@, env.scopes()) && lowered_expressions(
                es@,
                env.scopes(),
                rs@,
            ),
            Err(error) => error == CFGError::UnknownSymbol && !resolves_expressions(
                es@,
                env.scopes(),
            ),
        },
    decreases es,
{
    let mut rs: Vec<ir::Expression> = Vec::new();
    let mut i: usize = 0;
    while i < es.len()
        invariant
            env.well_formed(),
            i <= es.len(),
            rs@.len() == i,
            forall|k: int| 0 <= k < i ==> resolves_expression(#[trigger] es@[k], env.scopes()),
            forall|k: int|
                0 <= k < i ==> lowered_expression(#[trigger] es@[k], env.scopes(), rs@[k]),
        decreases es.len() - i,
    {
        let x = es[i].try_into_ir(env)?;
        rs.push(x);
        i += 1;
    }
    Ok(rs)
}

/// Lowers each of the accesses, in order.
pub fn lower_accesses(accesses: &Vec<ast::Access>, env: &IREnvironment) -> (r: Result<
    Vec<ir::Access>,
    CFGError,
>)
    requires
        env.well_formed(),
    ensures
        match r {
            Ok(rs) => resolves_accesses(accesses@, env.scopes()) && lowered_accesses(
                accesses@,
                env.scopes(),
                rs@,
            ),
            Err(error) => error == CFGError::UnknownSymbol && !resolves_accesses(
                accesses@,
                env.scopes(),
            ),
        },
    decreases accesses,
{
    let mut rs: Vec<ir::Access> = Vec::new();
    let mut i: usize = 0;
    while i < accesses.len()
        invariant
            env.well_formed(),
            i <= accesses.len(),
            rs@.len() == i,
            forall|k: int| 0 <= k < i ==> resolves_access(#[trigger] accesses@[k], env.scopes()),
            forall|k: int|
                0 <= k < i ==> lowered_access(#[trigger] accesses@[k], env.scopes(), rs@[k]),
        decreases accesses.len() - i,
    {
        let x = accesses[i].try_into_ir(env)?;
        rs.push(x);
        i += 1;
    }
    Ok(rs)
}

impl ast::Access {
    /// Lowers the access in the scopes that are open in `env`.
    pub fn try_into_ir(&self, env: &IREnvironment) -> (r: Result<ir::Access, CFGError>)
        requires
            env.well_formed(),
        ensures
            match r {
                Ok(x) => resolves_access(*self, env.scopes()) && lowered_access(
                    *self,
                    env.scopes(),
                    x,
                ),
                Err(error) => error == CFGError::UnknownSymbol && !resolves_access(
                    *self,
                    env.scopes(),
                ),
            },
        decreases self,
    {
        match self {
            ast::Access::ComponentAccess { name } => Ok(
                ir::Access::ComponentAccess { name: name.clone() },
            ),
            ast::Access::ArrayAccess { index } => {
                let index = index.try_into_ir(env)?;
                Ok(ir::Access::ArrayAccess { index })
            },
        }
    }
}

impl ast::Expression {
    /// Lowers the expression in the scopes that are open in `env`.
    pub fn try_into_ir(&self, env: &IREnvironment) -> (r: Result<ir::Expression, CFGError>)
        requires
            env.well_formed(),
        ensures
            match r {
                Ok(x) => resolves_expression(*self, env.scopes()) && lowered_expression(
                    *self,
                    env.scopes(),
                    x,
                ),
                Err(error) => error == CFGError::UnknownSymbol && !resolves_expression(
                    *self,
                    env.scopes(),
                ),
            },
        decreases self,
    {
        match self {
            ast::Expression::Number { meta, value } => Ok(
                ir::Expression::Number {
                    meta: ir::Meta::from_ast(meta),
                    value: value.clone(),
                },
            ),
            ast::Expression::Variable { meta, name, access } => {
                let xtype = env.lookup(name)?.xtype;
                let access = lower_accesses(access, env)?;
                Ok(
                    ir::Expression::Variable {
                        meta: ir::Meta::from_ast(meta),
                        name: name.duplicate(),
                        xtype,
                        access,
                    },
                )
            },
            ast::Expression::InfixOp { meta, lhe, infix_op, rhe } => {
                let l = lhe.try_into_ir(env)?;
                let h = rhe.try_into_ir(env)?;
                Ok(
                    ir::Expression::InfixOp {
                        meta: ir::Meta::from_ast(meta),
                        lhe: Box::new(l),
                        infix_op: *infix_op,
                        rhe: Box::new(h),
                    },
                )
            },
            ast::Expression::PrefixOp { meta, prefix_op, rhe } => {
                let h = rhe.try_into_ir(env)?;
                Ok(
                    ir::Expression::PrefixOp {
                        meta: ir::Meta::from_ast(meta),
                        prefix_op: *prefix_op,
                        rhe: Box::new(h),
                    },
                )
            },
            ast::Expression::ParallelOp { meta, rhe } => {
                let h = rhe.try_into_ir(env)?;
                Ok(ir::Expression::ParallelOp { meta: ir::Meta::from_ast(meta), rhe: Box::new(h) })
            },
            ast::Expression::InlineSwitchOp { meta, cond, if_true, if_false } => {
                let c = cond.try_into_ir(env)?;
                let t = if_true.try_into_ir(env)?;
                let f = if_false.try_into_ir(env)?;
                Ok(
                    ir::Expression::InlineSwitchOp {
                        meta: ir::Meta::from_ast(meta),
                        cond: Box::new(c),
                        if_true: Box::new(t),
                        if_false: Box::new(f),
                    },
                )
            },
            ast::Expression::Call { meta, id, args } => {
                let args = lower_expressions(args, env)?;
                Ok(ir::Expression::Call { meta: ir::Meta::from_ast(meta), id: id.clone(), args })
            },
            ast::Expression::AnonymousComponent { meta, id, args } => {
                let args = lower_expressions(args, env)?;
                Ok(
                    ir::Expression::AnonymousComponent {
                        meta: ir::Meta::from_ast(meta),
                        id: id.clone(),
                        args,
                    },
                )
            },
            ast::Expression::ArrayInLine { meta, values } => {
                let values = lower_expressions(values, env)?;
                Ok(ir::Expression::ArrayInLine { meta: ir::Meta::from_ast(meta), values })
            },
            ast::Expression::Tuple { meta, values } => {
                let values = lower_expressions(values, env)?;
                Ok(ir::Expression::Tuple { meta: ir::Meta::from_ast(meta), values })
            },
            ast::Expression::UniformArray { meta, value, dimension } => {
                let v = value.try_into_ir(env)?;
                let d = dimension.try_into_ir(env)?;
                Ok(
                    ir::Expression::UniformArray {
                        meta: ir::Meta::from_ast(meta),
                        value: Box::new(v),
                        dimension: Box::new(d),
                    },
                )
            },
        }
    }
}

/// Whether lowering turns the statement into one statement of a block:
/// it neither nests statements nor declares anything.
pub open spec fn is_plain(s: ast::Statement) -> bool {
    s is Return || s is Assert || s is LogCall || s is Substitution || s is MultiSubstitution
        || s is ConstraintEquality
}

/// Every variable that the plain statement `s` mentions is visible in
/// `scopes`.
pub open spec fn resolves_statement(s: ast::Statement, scopes: Seq<Scope>) -> bool {
    match s {
        ast::Statement::Return { value, .. } => resolves_expression(value, scopes),
        ast::Statement::Assert { arg, .. } => resolves_expression(arg, scopes),
        ast::Statement::LogCall { args, .. } => resolves_expressions(args@, scopes),
        ast::Statement::Substitution { var, access, rhe, .. } => {
            &&& visible_kind(scopes, var@) is Some
            &&& resolves_accesses(access@, scopes)
            &&& resolves_expression(rhe, scopes)
        },
        ast::Statement::MultiSubstitution { lhe, rhe, .. } => {
            &&& resolves_expression(lhe, scopes)
            &&& resolves_expression(rhe, scopes)
        },
        ast::Statement::ConstraintEquality { lhe, rhe, .. } => {
            &&& resolves_expression(lhe, scopes)
            &&& resolves_expression(rhe, scopes)
        },
        _ => true,
    }
}

/// `r` is the plain statement `s` lowered in `scopes`.
pub open spec fn lowered_statement(s: ast::Statement, scopes: Seq<Scope>, r: ir::Statement) -> bool {
    match s {
        ast::Statement::Return { meta, value } => {
            &&& r matches ir::Statement::Return { meta: m, value: v }
            &&& ir::lowered_meta(meta, m)
            &&& lowered_expression(value, scopes, v)
        },
        ast::Statement::Assert { meta, arg } => {
            &&& r matches ir::Statement::Assert { meta: m, arg: a }
            &&& ir::lowered_meta(meta, m)
            &&& lowered_expression(arg, scopes, a)
        },
        ast::Statement::LogCall { meta, args } => {
            &&& r matches ir::Statement::LogCall { meta: m, args: a }
            &&& ir::lowered_meta(meta, m)
            &&& lowered_expressions(args@, scopes, a@)
        },
        ast::Statement::Substitution { meta, var, access, op, rhe } => {
            &&& r matches ir::Statement::Substitution {
                meta: m,
                var: v,
                xtype,
                access: a,
                op: o,
                rhe: h,
            }
            &&& ir::lowered_meta(meta, m)
            &&& v@ == var@
            &&& visible_kind(scopes, var@) == Some(xtype)
            &&& lowered_accesses(access@, scopes, a@)
            &&& o == op
            &&& lowered_expression(rhe, scopes, h)
        },
        ast::Statement::MultiSubstitution { meta, lhe, op, rhe } => {
            &&& r matches ir::Statement::MultiSubstitution { meta: m, lhe: l, op: o, rhe: h }
            &&& ir::lowered_meta(meta, m)
            &&& lowered_expression(lhe, scopes, l)
            &&& o == op
            &&& lowered_expression(rhe, scopes, h)
        },
        ast::Statement::ConstraintEquality { meta, lhe, rhe } => {
            &&& r matches ir::Statement::ConstraintEquality { meta: m, lhe: l, rhe: h }
            &&& ir::lowered_meta(meta, m)
            &&& lowered_expression(lhe, scopes, l)
            &&& lowered_expression(rhe, scopes, h)
        },
        _ => false,
    }
}

/// `d` is what the declaration `s` records when it is lowered in `scopes`.
pub open spec fn lowered_declaration(s: ast::Statement, scopes: Seq<Scope>, d: ir::Declaration) -> bool {
    &&& s matches ast::Statement::Declaration { meta, xtype, name, dimensions, .. }
    &&& ir::lowered_meta(meta, d.meta)
    &&& d.name@ == name@
    &&& d.xtype == xtype
    &&& lowered_expressions(dimensions@, scopes, d.dimensions@)
}

impl ast::Statement {
    /// Lowers a plain statement in the scopes that are open in `env`.
    pub fn try_into_ir(&self, env: &IREnvironment) -> (r: Result<ir::Statement, CFGError>)
        requires
            env.well_formed(),
            is_plain(*self),
        ensures
            match r {
                Ok(x) => resolves_statement(*self, env.scopes()) && lowered_statement(
                    *self,
                    env.scopes(),
                    x,
                ),
                Err(error) => error == CFGError::UnknownSymbol && !resolves_statement(
                    *self,
                    env.scopes(),
                ),
            },
    {
        match self {
            ast::Statement::Return { meta, value } => {
                let value = value.try_into_ir(env)?;
                Ok(ir::Statement::Return { meta: ir::Meta::from_ast(meta), value })
            },
            ast::Statement::Assert { meta, arg } => {
                let arg = arg.try_into_ir(env)?;
                Ok(ir::Statement::Assert { meta: ir::Meta::from_ast(meta), arg })
            },
            ast::Statement::LogCall { meta, args } => {
                let args = lower_expressions(args, env)?;
                Ok(ir::Statement::LogCall { meta: ir::Meta::from_ast(meta), args })
            },
            ast::Statement::Substitution { meta, var, access, op, rhe } => {
                let xtype = env.lookup(var)?.xtype;
                let access = lower_accesses(access, env)?;
                let rhe = rhe.try_into_ir(env)?;
                Ok(
                    ir::Statement::Substitution {
                        meta: ir::Meta::from_ast(meta),
                        var: var.duplicate(),
                        xtype,
                        access,
                        op: *op,
                        rhe,
                    },
                )
            },
            ast::Statement::MultiSubstitution { meta, lhe, op, rhe } => {
                let lhe = lhe.try_into_ir(env)?;
                let rhe = rhe.try_into_ir(env)?;
                Ok(
                    ir::Statement::MultiSubstitution {
                        meta: ir::Meta::from_ast(meta),
                        lhe,
                        op: *op,
                        rhe,
                    },
                )
            },
            ast::Statement::ConstraintEquality { meta, lhe, rhe } => {
                let lhe = lhe.try_into_ir(env)?;
                let rhe = rhe.try_into_ir(env)?;
                Ok(ir::Statement::ConstraintEquality { meta: ir::Meta::from_ast(meta), lhe, rhe })
            },
            _ => Err(CFGError::UnknownSymbol),
        }
    }

    /// Lowers a declaration to what the environment records of it.
    pub fn declaration_into_ir(&self, env: &IREnvironment) -> (r: Result<
        ir::Declaration,
        CFGError,
    >)
        requires
            env.well_formed(),
            self is Declaration,
        ensures
            match r {
                Ok(d) => resolves_expressions(self->dimensions@, env.scopes())
                    && lowered_declaration(*self, env.scopes(), d),
                Err(error) => error == CFGError::UnknownSymbol && !resolves_expressions(
                    self->dimensions@,
                    env.scopes(),
                ),
            },
    {
        match self {
            ast::Statement::Declaration { meta, xtype, name, dimensions, .. } => {
                let dimensions = lower_expressions(dimensions, env)?;
                Ok(
                    ir::Declaration {
                        meta: ir::Meta::from_ast(meta),
                        name: name.duplicate(),
                        xtype: *xtype,
                        dimensions,
                    },
                )
            },
            _ => Err(CFGError::UnknownSymbol),
        }
    }
}

/// A lowered expression mentions visible names only.
pub proof fn lemma_lowered_expression_names(
    e: ast::Expression,
    scopes: Seq<Scope>,
    r: ir::Expression,
    names: Set<NameView>,
)
    requires
        lowered_expression(e, scopes, r),
        forall|n: NameView| visible_kind(scopes, n) is Some ==> names.contains(n),
    ensures
        ir::expression_names_within(r, names),
    decreases e,
{
    match e {
        ast::Expression::Number { .. } => {},
        ast::Expression::Variable { access, .. } => {
            let a = r->Variable_access;
            assert forall|i: int| 0 <= i < a@.len() implies ir::access_names_within(
                #[trigger] a@[i],
                names,
            ) by {
                lemma_lowered_access_names(access@[i], scopes, a@[i], names);
            }
        },
        ast::Expression::InfixOp { lhe, rhe, .. } => {
            lemma_lowered_expression_names(*lhe, scopes, *r->InfixOp_lhe, names);
            lemma_lowered_expression_names(*rhe, scopes, *r->InfixOp_rhe, names);
        },
        ast::Expression::PrefixOp { rhe, .. } => {
            lemma_lowered_expression_names(*rhe, scopes, *r->PrefixOp_rhe, names);
        },
        ast::Expression::ParallelOp { rhe, .. } => {
            lemma_lowered_expression_names(*rhe, scopes, *r->ParallelOp_rhe, names);
        },
        ast::Expression::InlineSwitchOp { cond, if_true, if_false, .. } => {
            lemma_lowered_expression_names(*cond, scopes, *r->InlineSwitchOp_cond, names);
            lemma_lowered_expression_names(*if_true, scopes, *r->InlineSwitchOp_if_true, names);
            lemma_lowered_expression_names(*if_false, scopes, *r->InlineSwitchOp_if_false, names);
        },
        ast::Expression::Call { args, .. } => {
            lemma_lowered_expressions_names(args@, scopes, r->Call_args@, names);
        },
        ast::Expression::AnonymousComponent { args, .. } => {
            lemma_lowered_expressions_names(args@, scopes, r->AnonymousComponent_args@, names);
        },
        ast::Expression::ArrayInLine { values, .. } => {
            lemma_lowered_expressions_names(values@, scopes, r->ArrayInLine_values@, names);
        },
        ast::Expression::Tuple { values, .. } => {
            lemma_lowered_expressions_names(values@, scopes, r->Tuple_values@, names);
        },
        ast::Expression::UniformArray { value, dimension, .. } => {
            lemma_lowered_expression_names(*value, scopes, *r->UniformArray_value, names);
            lemma_lowered_expression_names(*dimension, scopes, *r->UniformArray_dimension, names);
        },
    }
}

/// A lowered access mentions visible names only.
pub proof fn lemma_lowered_access_names(
    a: ast::Access,
    scopes: Seq<Scope>,
    r: ir::Access,
    names: Set<NameView>,
)
    requires
        lowered_access(a, scopes, r),
        forall|n: NameView| visible_kind(scopes, n) is Some ==> names.contains(n),
    ensures
        ir::access_names_within(r, names),
    decreases a,
{
    match a {
        ast::Access::ComponentAccess { .. } => {},
        ast::Access::ArrayAccess { index } => {
            lemma_lowered_expression_names(index, scopes, r->index, names);
        },
    }
}

/// Lowered expressions mention visible names only.
pub proof fn lemma_lowered_expressions_names(
    es: Seq<ast::Expression>,
    scopes: Seq<Scope>,
    rs: Seq<ir::Expression>,
    names: Set<NameView>,
)
    requires
        lowered_expressions(es, scopes, rs),
        forall|n: NameView| visible_kind(scopes, n) is Some ==> names.contains(n),
    ensures
        ir::expressions_names_within(rs, names),
    decreases es,
{
    assert forall|i: int| 0 <= i < rs.len() implies ir::expression_names_within(
        #[trigger] rs[i],
        names,
    ) by {
        lemma_lowered_expression_names(es[i], scopes, rs[i], names);
    }
}

/// A lowered statement mentions visible names only.
pub proof fn lemma_lowered_statement_names(
    s: ast::Statement,
    scopes: Seq<Scope>,
    r: ir::Statement,
    names: Set<NameView>,
)
    requires
        lowered_statement(s, scopes, r),
        forall|n: NameView| visible_kind(scopes, n) is Some ==> names.contains(n),
    ensures
        ir::statement_names_within(r, names),
{
    match s {
        ast::Statement::Return { value, .. } => {
            lemma_lowered_expression_names(value, scopes, r->Return_value, names);
        },
        ast::Statement::Assert { arg, .. } => {
            lemma_lowered_expression_names(arg, scopes, r->Assert_arg, names);
        },
        ast::Statement::LogCall { args, .. } => {
            lemma_lowered_expressions_names(args@, scopes, r->LogCall_args@, names);
        },
        ast::Statement::Substitution { access, rhe, .. } => {
            let a = r->Substitution_access;
            assert forall|i: int| 0 <= i < a@.len() implies ir::access_names_within(
                #[trigger] a@[i],
                names,
            ) by {
                lemma_lowered_access_names(access@[i], scopes, a@[i], names);
            }
            lemma_lowered_expression_names(rhe, scopes, r->Substitution_rhe, names);
        },
        ast::Statement::MultiSubstitution { lhe, rhe, .. } => {
            lemma_lowered_expression_names(lhe, scopes, r->MultiSubstitution_lhe, names);
            lemma_lowered_expression_names(rhe, scopes, r->MultiSubstitution_rhe, names);
        },
        ast::Statement::ConstraintEquality { lhe, rhe, .. } => {
            lemma_lowered_expression_names(lhe, scopes, r->ConstraintEquality_lhe, names);
            lemma_lowered_expression_names(rhe, scopes, r->ConstraintEquality_rhe, names);
        },
        _ => {},
    }
}

} // verus!
