//! Propagation of known values through expressions of the intermediate
//! representation.
//!
//! A number reduces to itself, a variable to the value it is bound to, a
//! comparison or a boolean operation of two known operands to its result,
//! and a switch to the branch that its condition selects, or to what both
//! branches agree on. A slot that is set is never changed.

use crate::ast::{ExpressionInfixOpcode, ExpressionPrefixOpcode, NameView};
use crate::ir::{Access, Expression, Meta};
use crate::value_meta::{
    join_of, refines, value_of, ValueKnowledge, ValueMeta, ValueReduction, VarEnvironment,
};
use vstd::prelude::*;

verus! {

/// The slot after `found` was found of a node with the slot `old`: what was
/// known stays, and else `found` is known.
pub open spec fn settled(old: Option<ValueReduction>, found: Option<ValueReduction>) -> Option<
    ValueReduction,
> {
    if old is Some {
        old
    } else {
        found
    }
}

/// What is known of `l op h` where `l` and `h` are known of the operands:
/// the result of an equality test of two field elements, or of an equality
/// test, a conjunction or a disjunction of two booleans.
pub open spec fn compared(
    op: ExpressionInfixOpcode,
    l: Option<ValueReduction>,
    h: Option<ValueReduction>,
) -> Option<ValueReduction> {
    match (l, h) {
        (
            Some(ValueReduction::FieldElement { value: a }),
            Some(ValueReduction::FieldElement { value: b }),
        ) => match op {
            ExpressionInfixOpcode::Eq => Some(ValueReduction::Boolean { value: a == b }),
            ExpressionInfixOpcode::NotEq => Some(ValueReduction::Boolean { value: a != b }),
            _ => None,
        },
        (Some(ValueReduction::Boolean { value: a }), Some(ValueReduction::Boolean { value: b })) => {
            match op {
                ExpressionInfixOpcode::Eq => Some(ValueReduction::Boolean { value: a == b }),
                ExpressionInfixOpcode::NotEq => Some(ValueReduction::Boolean { value: a != b }),
                ExpressionInfixOpcode::BoolAnd => Some(ValueReduction::Boolean { value: a && b }),
                ExpressionInfixOpcode::BoolOr => Some(ValueReduction::Boolean { value: a || b }),
                _ => None,
            }
        },
        _ => None,
    }
}

/// What is known of `op h` where `h` is known of the operand: the negation
/// of a boolean.
pub open spec fn negated(op: ExpressionPrefixOpcode, h: Option<ValueReduction>) -> Option<
    ValueReduction,
> {
    match (op, h) {
        (ExpressionPrefixOpcode::BoolNot, Some(ValueReduction::Boolean { value })) => Some(
            ValueReduction::Boolean { value: !value },
        ),
        _ => None,
    }
}

/// What is known of a switch: the branch that a known condition selects,
/// and else what both branches agree on.
pub open spec fn switched(
    c: Option<ValueReduction>,
    t: Option<ValueReduction>,
    f: Option<ValueReduction>,
) -> Option<ValueReduction> {
    match c {
        Some(ValueReduction::Boolean { value }) => if value {
            t
        } else {
            f
        },
        _ => join_of(t, f),
    }
}

impl Expression {
    /// The metadata of the expression.
    pub open spec fn meta(self) -> Meta {
        match self {
            Expression::Number { meta, .. } => meta,
            Expression::Variable { meta, .. } => meta,
            Expression::InfixOp { meta, .. } => meta,
            Expression::PrefixOp { meta, .. } => meta,
            Expression::ParallelOp { meta, .. } => meta,
            Expression::InlineSwitchOp { meta, .. } => meta,
            Expression::Call { meta, .. } => meta,
            Expression::AnonymousComponent { meta, .. } => meta,
            Expression::ArrayInLine { meta, .. } => meta,
            Expression::Tuple { meta, .. } => meta,
            Expression::UniformArray { meta, .. } => meta,
        }
    }

    pub fn get_meta(&self) -> (r: &Meta)
        ensures
            *r == self.meta(),
    {
        match self {
            Expression::Number { meta, .. } => meta,
            Expression::Variable { meta, .. } => meta,
            Expression::InfixOp { meta, .. } => meta,
            Expression::PrefixOp { meta, .. } => meta,
            Expression::ParallelOp { meta, .. } => meta,
            Expression::InlineSwitchOp { meta, .. } => meta,
            Expression::Call { meta, .. } => meta,
            Expression::AnonymousComponent { meta, .. } => meta,
            Expression::ArrayInLine { meta, .. } => meta,
            Expression::Tuple { meta, .. } => meta,
            Expression::UniformArray { meta, .. } => meta,
        }
    }

    /// What is known of the value of the expression.
    pub open spec fn known(self) -> Option<ValueReduction> {
        self.meta().value_knowledge@
    }
}

/// `m` is `old` after `found` was found of its node.
pub open spec fn meta_with(old: Meta, found: Option<ValueReduction>, m: Meta) -> bool {
    &&& m.location == old.location
    &&& m.file_id == old.file_id
    &&& m.type_knowledge == old.type_knowledge
    &&& m.value_knowledge@ == settled(old.value_knowledge@, found)
}

/// `out` is `e` after the values that `env` binds were propagated through
/// it: the same expression, with the slot of each node settled with what was
/// found of it.
pub open spec fn propagated_expression(
    e: Expression,
    env: Seq<(NameView, ValueReduction)>,
    out: Expression,
) -> bool
    decreases e,
{
    match e {
        Expression::Number { meta, value } => {
            &&& out matches Expression::Number { meta: m, value: v }
            &&& v == value
            &&& meta_with(meta, Some(ValueReduction::FieldElement { value }), m)
        },
        Expression::Variable { meta, name, xtype, access } => {
            &&& out matches Expression::Variable { meta: m, name: n, xtype: x, access: a }
            &&& n@ == name@
            &&& x == xtype
            &&& propagated_accesses(access@, env, a@)
            &&& meta_with(meta, value_of(env, name@), m)
        },
        Expression::InfixOp { meta, lhe, infix_op, rhe } => {
            &&& out matches Expression::InfixOp { meta: m, lhe: l, infix_op: op, rhe: h }
            &&& op == infix_op
            &&& propagated_expression(*lhe, env, *l)
            &&& propagated_expression(*rhe, env, *h)
            &&& meta_with(meta, compared(infix_op, l.known(), h.known()), m)
        },
        Expression::PrefixOp { meta, prefix_op, rhe } => {
            &&& out matches Expression::PrefixOp { meta: m, prefix_op: op, rhe: h }
            &&& op == prefix_op
            &&& propagated_expression(*rhe, env, *h)
            &&& meta_with(meta, negated(prefix_op, h.known()), m)
        },
        Expression::ParallelOp { meta, rhe } => {
            &&& out matches Expression::ParallelOp { meta: m, rhe: h }
            &&& propagated_expression(*rhe, env, *h)
            &&& meta_with(meta, h.known(), m)
        },
        Expression::InlineSwitchOp { meta, cond, if_true, if_false } => {
            &&& out matches Expression::InlineSwitchOp { meta: m, cond: c, if_true: t, if_false: f }
            &&& propagated_expression(*cond, env, *c)
            &&& propagated_expression(*if_true, env, *t)
            &&& propagated_expression(*if_false, env, *f)
            &&& meta_with(meta, switched(c.known(), t.known(), f.known()), m)
        },
        Expression::Call { meta, id, args } => {
            &&& out matches Expression::Call { meta: m, id: d, args: a }
            &&& d@ == id@
            &&& propagated_expressions(args@, env, a@)
            &&& meta_with(meta, None, m)
        },
        Expression::AnonymousComponent { meta, id, args } => {
            &&& out matches Expression::AnonymousComponent { meta: m, id: d, args: a }
            &&& d@ == id@
            &&& propagated_expressions(args@, env, a@)
            &&& meta_with(meta, None, m)
        },
        Expression::ArrayInLine { meta, values } => {
            &&& out matches Expression::ArrayInLine { meta: m, values: a }
            &&& propagated_expressions(values@, env, a@)
            &&& meta_with(meta, None, m)
        },
        Expression::Tuple { meta, values } => {
            &&& out matches Expression::Tuple { meta: m, values: a }
            &&& propagated_expressions(values@, env, a@)
            &&& meta_with(meta, None, m)
        },
        Expression::UniformArray { meta, value, dimension } => {
            &&& out matches Expression::UniformArray { meta: m, value: v, dimension: d }
            &&& propagated_expression(*value, env, *v)
            &&& propagated_expression(*dimension, env, *d)
            &&& meta_with(meta, None, m)
        },
    }
}

/// `out` is the access `a` after propagation.
pub open spec fn propagated_access(a: Access, env: Seq<(NameView, ValueReduction)>, out: Access) -> bool
    decreases a,
{
    match a {
        Access::ComponentAccess { name } => {
            &&& out matches Access::ComponentAccess { name: n }
            &&& n@ == name@
        },
        Access::ArrayAccess { index } => {
            &&& out matches Access::ArrayAccess { index: i }
            &&& propagated_expression(index, env, i)
        },
    }
}

/// `outs` are `es` after propagation, one for one.
pub open spec fn propagated_expressions(
    es: Seq<Expression>,
    env: Seq<(NameView, ValueReduction)>,
    outs: Seq<Expression>,
) -> bool
    decreases es,
{
    &&& outs.len() == es.len()
    &&& forall|i: int|
        0 <= i < es.len() ==> propagated_expression(#[trigger] es[i], env, outs[i])
}

/// `outs` are the accesses after propagation, one for one.
pub open spec fn propagated_accesses(
    accesses: Seq<Access>,
    env: Seq<(NameView, ValueReduction)>,
    outs: Seq<Access>,
) -> bool
    decreases accesses,
{
    &&& outs.len() == accesses.len()
    &&& forall|i: int|
        0 <= i < accesses.len() ==> propagated_access(#[trigger] accesses[i], env, outs[i])
}

/// The slot of a node with the slot `old` of which `found` was found.
fn settle(old: &ValueKnowledge, found: Option<ValueReduction>) -> (r: ValueKnowledge)
    ensures
        r@ == settled(old@, found),
{
    if old.is_constant() {
        old.duplicate()
    } else {
        let mut r = ValueKnowledge::new();
        match found {
            Some(value) => {
                r.set_reduces_to(value);
            },
            None => {},
        }
        r
    }
}

/// The metadata `old` after `found` was found of its node.
fn settle_meta(old: &Meta, found: Option<ValueReduction>) -> (m: Meta)
    ensures
        meta_with(*old, found, m),
{
    Meta {
        location: old.location,
        file_id: old.file_id,
        type_knowledge: old.type_knowledge,
        value_knowledge: settle(&old.value_knowledge, found),
    }
}

/// A copy of what is known, if anything is.
fn copy_of(value: Option<&ValueReduction>) -> (r: Option<ValueReduction>)
    ensures
        match value {
            Some(v) => r == Some(*v),
            None => r is None,
        },
{
    match value {
        Some(v) => Some(v.duplicate()),
        None => None,
    }
}

/// What is known of `l op h`.
fn compare(op: ExpressionInfixOpcode, l: &ValueKnowledge, h: &ValueKnowledge) -> (r: Option<
    ValueReduction,
>)
    ensures
        r == compared(op, l@, h@),
{
    match (l.get_reduces_to(), h.get_reduces_to()) {
        (Some(a), Some(b)) => match (a, b) {
            (ValueReduction::FieldElement { .. }, ValueReduction::FieldElement { .. }) => match op {
                ExpressionInfixOpcode::Eq => Some(ValueReduction::Boolean { value: a.same_as(b) }),
                ExpressionInfixOpcode::NotEq => Some(
                    ValueReduction::Boolean { value: !a.same_as(b) },
                ),
                _ => None,
            },
            (ValueReduction::Boolean { value: x }, ValueReduction::Boolean { value: y }) => {
                match op {
                    ExpressionInfixOpcode::Eq => Some(ValueReduction::Boolean { value: *x == *y }),
                    ExpressionInfixOpcode::NotEq => Some(
                        ValueReduction::Boolean { value: *x != *y },
                    ),
                    ExpressionInfixOpcode::BoolAnd => Some(
                        ValueReduction::Boolean { value: *x && *y },
                    ),
                    ExpressionInfixOpcode::BoolOr => Some(
                        ValueReduction::Boolean { value: *x || *y },
                    ),
                    _ => None,
                }
            },
            _ => None,
        },
        _ => None,
    }
}

/// What is known of `op h`.
fn negate(op: ExpressionPrefixOpcode, h: &ValueKnowledge) -> (r: Option<ValueReduction>)
    ensures
        r == negated(op, h@),
{
    match op {
        ExpressionPrefixOpcode::BoolNot => match h.get_reduces_to() {
            Some(ValueReduction::Boolean { value }) => Some(
                ValueReduction::Boolean { value: !*value },
            ),
            _ => None,
        },
        _ => None,
    }
}

/// What is known of a switch.
fn switch(c: &ValueKnowledge, t: &ValueKnowledge, f: &ValueKnowledge) -> (r: Option<
    ValueReduction,
>)
    ensures
        r == switched(c@, t@, f@),
{
    match c.get_reduces_to() {
        Some(ValueReduction::Boolean { value }) => {
            if *value {
                copy_of(t.get_reduces_to())
            } else {
                copy_of(f.get_reduces_to())
            }
        },
        _ => {
            let joined = t.join(f);
            copy_of(joined.get_reduces_to())
        },
    }
}

impl Access {
    /// The access after propagation.
    pub fn propagated(&self, env: &VarEnvironment) -> (out: Access)
        ensures
            propagated_access(*self, env.bindings(), out),
        decreases self,
    {
        match self {
            Access::ComponentAccess { name } => Access::ComponentAccess { name: name.clone() },
            Access::ArrayAccess { index } => Access::ArrayAccess { index: index.propagated(env) },
        }
    }
}

/// Each of `es` after propagation.
fn propagate_expressions(es: &Vec<Expression>, env: &VarEnvironment) -> (outs: Vec<Expression>)
    ensures
        propagated_expressions(es@, env.bindings(), outs@),
    decreases es,
{
    let mut outs: Vec<Expression> = Vec::new();
    let mut i: usize = 0;
    while i < es.len()
        invariant
            i <= es@.len(),
            outs@.len() == i,
            forall|k: int|
                0 <= k < i ==> propagated_expression(#[trigger] es@[k], env.bindings(), outs@[k]),
        decreases es@.len() - i,
    {
        let out = es[i].propagated(env);
        outs.push(out);
        i += 1;
    }
    outs
}

/// Each of the accesses after propagation.
fn propagate_accesses(accesses: &Vec<Access>, env: &VarEnvironment) -> (outs: Vec<Access>)
    ensures
        propagated_accesses(accesses@, env.bindings(), outs@),
    decreases accesses,
{
    let mut outs: Vec<Access> = Vec::new();
    let mut i: usize = 0;
    while i < accesses.len()
        invariant
            i <= accesses@.len(),
            outs@.len() == i,
            forall|k: int|
                0 <= k < i ==> propagated_access(
                    #[trigger] accesses@[k],
                    env.bindings(),
                    outs@[k],
                ),
        decreases accesses@.len() - i,
    {
        let out = accesses[i].propagated(env);
        outs.push(out);
        i += 1;
    }
    outs
}

impl Expression {
    /// The expression after the values that `env` binds were propagated
    /// through it.
    pub fn propagated(&self, env: &VarEnvironment) -> (out: Expression)
        ensures
            propagated_expression(*self, env.bindings(), out),
        decreases self,
    {
        match self {
            Expression::Number { meta, value } => {
                let found = Some(ValueReduction::FieldElement { value: value.clone() });
                Expression::Number {
                    meta: settle_meta(meta, found),
                    value: value.clone(),
                }
            },
            Expression::Variable { meta, name, xtype, access } => {
                let found = copy_of(env.get_variable(name));
                Expression::Variable {
                    meta: settle_meta(meta, found),
                    name: name.duplicate(),
                    xtype: *xtype,
                    access: propagate_accesses(access, env),
                }
            },
            Expression::InfixOp { meta, lhe, infix_op, rhe } => {
                let l = lhe.propagated(env);
                let h = rhe.propagated(env);
                let found = compare(
                    *infix_op,
                    &l.get_meta().value_knowledge,
                    &h.get_meta().value_knowledge,
                );
                Expression::InfixOp {
                    meta: settle_meta(meta, found),
                    lhe: Box::new(l),
                    infix_op: *infix_op,
                    rhe: Box::new(h),
                }
            },
            Expression::PrefixOp { meta, prefix_op, rhe } => {
                let h = rhe.propagated(env);
                let found = negate(*prefix_op, &h.get_meta().value_knowledge);
                Expression::PrefixOp {
                    meta: settle_meta(meta, found),
                    prefix_op: *prefix_op,
                    rhe: Box::new(h),
                }
            },
            Expression::ParallelOp { meta, rhe } => {
                let h = rhe.propagated(env);
                let found = copy_of(h.get_meta().value_knowledge.get_reduces_to());
                Expression::ParallelOp { meta: settle_meta(meta, found), rhe: Box::new(h) }
            },
            Expression::InlineSwitchOp { meta, cond, if_true, if_false } => {
                let c = cond.propagated(env);
                let t = if_true.propagated(env);
                let f = if_false.propagated(env);
                let found = switch(
                    &c.get_meta().value_knowledge,
                    &t.get_meta().value_knowledge,
                    &f.get_meta().value_knowledge,
                );
                Expression::InlineSwitchOp {
                    meta: settle_meta(meta, found),
                    cond: Box::new(c),
                    if_true: Box::new(t),
                    if_false: Box::new(f),
                }
            },
            Expression::Call { meta, id, args } => Expression::Call {
                meta: settle_meta(meta, None),
                id: id.clone(),
                args: propagate_expressions(args, env),
            },
            Expression::AnonymousComponent { meta, id, args } => Expression::AnonymousComponent {
                meta: settle_meta(meta, None),
                id: id.clone(),
                args: propagate_expressions(args, env),
            },
            Expression::ArrayInLine { meta, values } => Expression::ArrayInLine {
                meta: settle_meta(meta, None),
                values: propagate_expressions(values, env),
            },
            Expression::Tuple { meta, values } => Expression::Tuple {
                meta: settle_meta(meta, None),
                values: propagate_expressions(values, env),
            },
            Expression::UniformArray { meta, value, dimension } => Expression::UniformArray {
                meta: settle_meta(meta, None),
                value: Box::new(value.propagated(env)),
                dimension: Box::new(dimension.propagated(env)),
            },
        }
    }
}

impl ValueMeta for Expression {
    open spec fn knowledge(&self) -> Option<ValueReduction> {
        self.known()
    }

    fn propagate_values(&mut self, env: &VarEnvironment)
        ensures
            propagated_expression(*old(self), env.bindings(), *final(self)),
    {
        let out = self.propagated(env);
        proof {
            lemma_propagation_keeps_knowledge(*self, env.bindings(), out);
        }
        *self = out;
    }

    fn is_constant(&self) -> (r: bool) {
        self.get_meta().value_knowledge.is_constant()
    }

    fn is_boolean(&self) -> (r: bool) {
        self.get_meta().value_knowledge.is_boolean()
    }

    fn is_field_element(&self) -> (r: bool) {
        self.get_meta().value_knowledge.is_field_element()
    }

    fn get_reduces_to(&self) -> (r: Option<&ValueReduction>) {
        self.get_meta().value_knowledge.get_reduces_to()
    }
}

/// Every node of `out` knows what the node of `e` in its place knew.
pub open spec fn knowledge_kept(e: Expression, out: Expression) -> bool
    decreases e,
{
    &&& refines(e.known(), out.known())
    &&& match e {
        Expression::Number { .. } => out is Number,
        Expression::Variable { access, .. } => {
            &&& out matches Expression::Variable { access: a, .. }
            &&& accesses_knowledge_kept(access@, a@)
        },
        Expression::InfixOp { lhe, rhe, .. } => {
            &&& out matches Expression::InfixOp { lhe: l, rhe: h, .. }
            &&& knowledge_kept(*lhe, *l)
            &&& knowledge_kept(*rhe, *h)
        },
        Expression::PrefixOp { rhe, .. } => {
            &&& out matches Expression::PrefixOp { rhe: h, .. }
            &&& knowledge_kept(*rhe, *h)
        },
        Expression::ParallelOp { rhe, .. } => {
            &&& out matches Expression::ParallelOp { rhe: h, .. }
            &&& knowledge_kept(*rhe, *h)
        },
        Expression::InlineSwitchOp { cond, if_true, if_false, .. } => {
            &&& out matches Expression::InlineSwitchOp { cond: c, if_true: t, if_false: f, .. }
            &&& knowledge_kept(*cond, *c)
            &&& knowledge_kept(*if_true, *t)
            &&& knowledge_kept(*if_false, *f)
        },
        Expression::Call { args, .. } => {
            &&& out matches Expression::Call { args: a, .. }
            &&& expressions_knowledge_kept(args@, a@)
        },
        Expression::AnonymousComponent { args, .. } => {
            &&& out matches Expression::AnonymousComponent { args: a, .. }
            &&& expressions_knowledge_kept(args@, a@)
        },
        Expression::ArrayInLine { values, .. } => {
            &&& out matches Expression::ArrayInLine { values: a, .. }
            &&& expressions_knowledge_kept(values@, a@)
        },
        Expression::Tuple { values, .. } => {
            &&& out matches Expression::Tuple { values: a, .. }
            &&& expressions_knowledge_kept(values@, a@)
        },
        Expression::UniformArray { value, dimension, .. } => {
            &&& out matches Expression::UniformArray { value: v, dimension: d, .. }
            &&& knowledge_kept(*value, *v)
            &&& knowledge_kept(*dimension, *d)
        },
    }
}

/// Every node of the access `out` knows what the node of `a` in its place
/// knew.
pub open spec fn access_knowledge_kept(a: Access, out: Access) -> bool
    decreases a,
{
    match a {
        Access::ComponentAccess { .. } => out is ComponentAccess,
        Access::ArrayAccess { index } => {
            &&& out matches Access::ArrayAccess { index: i }
            &&& knowledge_kept(index, i)
        },
    }
}

/// Every node of `outs` knows what the node of `es` in its place knew.
pub open spec fn expressions_knowledge_kept(es: Seq<Expression>, outs: Seq<Expression>) -> bool
    decreases es,
{
    &&& outs.len() == es.len()
    &&& forall|i: int| 0 <= i < es.len() ==> knowledge_kept(#[trigger] es[i], outs[i])
}

/// Every node of the accesses `outs` knows what the node of `accesses` in
/// its place knew.
pub open spec fn accesses_knowledge_kept(accesses: Seq<Access>, outs: Seq<Access>) -> bool
    decreases accesses,
{
    &&& outs.len() == accesses.len()
    &&& forall|i: int|
        0 <= i < accesses.len() ==> access_knowledge_kept(#[trigger] accesses[i], outs[i])
}

/// Propagation is monotone: whatever a node knew before, it knows after.
pub proof fn lemma_propagation_keeps_knowledge(
    e: Expression,
    env: Seq<(NameView, ValueReduction)>,
    out: Expression,
)
    requires
        propagated_expression(e, env, out),
    ensures
        knowledge_kept(e, out),
    decreases e,
{
    match e {
        Expression::Number { .. } => {},
        Expression::Variable { access, .. } => {
            lemma_access_propagations_keep_knowledge(access@, env, out->Variable_access@);
        },
        Expression::InfixOp { lhe, rhe, .. } => {
            lemma_propagation_keeps_knowledge(*lhe, env, *out->InfixOp_lhe);
            lemma_propagation_keeps_knowledge(*rhe, env, *out->InfixOp_rhe);
        },
        Expression::PrefixOp { rhe, .. } => {
            lemma_propagation_keeps_knowledge(*rhe, env, *out->PrefixOp_rhe);
        },
        Expression::ParallelOp { rhe, .. } => {
            lemma_propagation_keeps_knowledge(*rhe, env, *out->ParallelOp_rhe);
        },
        Expression::InlineSwitchOp { cond, if_true, if_false, .. } => {
            lemma_propagation_keeps_knowledge(*cond, env, *out->InlineSwitchOp_cond);
            lemma_propagation_keeps_knowledge(*if_true, env, *out->InlineSwitchOp_if_true);
            lemma_propagation_keeps_knowledge(*if_false, env, *out->InlineSwitchOp_if_false);
        },
        Expression::Call { args, .. } => {
            lemma_propagations_keep_knowledge(args@, env, out->Call_args@);
        },
        Expression::AnonymousComponent { args, .. } => {
            lemma_propagations_keep_knowledge(args@, env, out->AnonymousComponent_args@);
        },
        Expression::ArrayInLine { values, .. } => {
            lemma_propagations_keep_knowledge(values@, env, out->ArrayInLine_values@);
        },
        Expression::Tuple { values, .. } => {
            lemma_propagations_keep_knowledge(values@, env, out->Tuple_values@);
        },
        Expression::UniformArray { value, dimension, .. } => {
            lemma_propagation_keeps_knowledge(*value, env, *out->UniformArray_value);
            lemma_propagation_keeps_knowledge(*dimension, env, *out->UniformArray_dimension);
        },
    }
}

/// Propagation through an access is monotone.
pub proof fn lemma_access_propagation_keeps_knowledge(
    a: Access,
    env: Seq<(NameView, ValueReduction)>,
    out: Access,
)
    requires
        propagated_access(a, env, out),
    ensures
        access_knowledge_kept(a, out),
    decreases a,
{
    match a {
        Access::ComponentAccess { .. } => {},
        Access::ArrayAccess { index } => {
            lemma_propagation_keeps_knowledge(index, env, out->index);
        },
    }
}

/// Propagation through expressions is monotone.
pub proof fn lemma_propagations_keep_knowledge(
    es: Seq<Expression>,
    env: Seq<(NameView, ValueReduction)>,
    outs: Seq<Expression>,
)
    requires
        propagated_expressions(es, env, outs),
    ensures
        expressions_knowledge_kept(es, outs),
    decreases es,
{
    assert forall|i: int| 0 <= i < es.len() implies knowledge_kept(#[trigger] es[i], outs[i]) by {
        lemma_propagation_keeps_knowledge(es[i], env, outs[i]);
    }
}

/// Propagation through accesses is monotone.
pub proof fn lemma_access_propagations_keep_knowledge(
    accesses: Seq<Access>,
    env: Seq<(NameView, ValueReduction)>,
    outs: Seq<Access>,
)
    requires
        propagated_accesses(accesses, env, outs),
    ensures
        accesses_knowledge_kept(accesses, outs),
    decreases accesses,
{
    assert forall|i: int| 0 <= i < accesses.len() implies access_knowledge_kept(
        #[trigger] accesses[i],
        outs[i],
    ) by {
        lemma_access_propagation_keeps_knowledge(accesses[i], env, outs[i]);
    }
}

/// Knowledge that accesses kept twice in a row was kept.
pub proof fn lemma_accesses_knowledge_kept_twice(
    accesses: Seq<Access>,
    middle: Seq<Access>,
    outs: Seq<Access>,
)
    requires
        accesses_knowledge_kept(accesses, middle),
        accesses_knowledge_kept(middle, outs),
    ensures
        accesses_knowledge_kept(accesses, outs),
    decreases accesses,
{
    assert forall|i: int| 0 <= i < accesses.len() implies access_knowledge_kept(
        #[trigger] accesses[i],
        outs[i],
    ) by {
        lemma_access_knowledge_kept_twice(accesses[i], middle[i], outs[i]);
    }
}

/// However often values are propagated, and whatever the environments bind,
/// a node knows in the end what it knew at first: knowledge that was kept
/// twice in a row was kept.
pub proof fn lemma_knowledge_kept_twice(e: Expression, middle: Expression, out: Expression)
    requires
        knowledge_kept(e, middle),
        knowledge_kept(middle, out),
    ensures
        knowledge_kept(e, out),
    decreases e,
{
    match e {
        Expression::Number { .. } => {},
        Expression::Variable { access, .. } => {
            lemma_accesses_knowledge_kept_twice(
                access@,
                middle->Variable_access@,
                out->Variable_access@,
            );
        },
        Expression::InfixOp { lhe, rhe, .. } => {
            lemma_knowledge_kept_twice(*lhe, *middle->InfixOp_lhe, *out->InfixOp_lhe);
            lemma_knowledge_kept_twice(*rhe, *middle->InfixOp_rhe, *out->InfixOp_rhe);
        },
        Expression::PrefixOp { rhe, .. } => {
            lemma_knowledge_kept_twice(*rhe, *middle->PrefixOp_rhe, *out->PrefixOp_rhe);
        },
        Expression::ParallelOp { rhe, .. } => {
            lemma_knowledge_kept_twice(*rhe, *middle->ParallelOp_rhe, *out->ParallelOp_rhe);
        },
        Expression::InlineSwitchOp { cond, if_true, if_false, .. } => {
            lemma_knowledge_kept_twice(
                *cond,
                *middle->InlineSwitchOp_cond,
                *out->InlineSwitchOp_cond,
            );
            lemma_knowledge_kept_twice(
                *if_true,
                *middle->InlineSwitchOp_if_true,
                *out->InlineSwitchOp_if_true,
            );
            lemma_knowledge_kept_twice(
                *if_false,
                *middle->InlineSwitchOp_if_false,
                *out->InlineSwitchOp_if_false,
            );
        },
        Expression::Call { args, .. } => {
            lemma_expressions_knowledge_kept_twice(args@, middle->Call_args@, out->Call_args@);
        },
        Expression::AnonymousComponent { args, .. } => {
            lemma_expressions_knowledge_kept_twice(
                args@,
                middle->AnonymousComponent_args@,
                out->AnonymousComponent_args@,
            );
        },
        Expression::ArrayInLine { values, .. } => {
            lemma_expressions_knowledge_kept_twice(
                values@,
                middle->ArrayInLine_values@,
                out->ArrayInLine_values@,
            );
        },
        Expression::Tuple { values, .. } => {
            lemma_expressions_knowledge_kept_twice(
                values@,
                middle->Tuple_values@,
                out->Tuple_values@,
            );
        },
        Expression::UniformArray { value, dimension, .. } => {
            lemma_knowledge_kept_twice(
                *value,
                *middle->UniformArray_value,
                *out->UniformArray_value,
            );
            lemma_knowledge_kept_twice(
                *dimension,
                *middle->UniformArray_dimension,
                *out->UniformArray_dimension,
            );
        },
    }
}

/// Knowledge that an access kept twice in a row was kept.
pub proof fn lemma_access_knowledge_kept_twice(a: Access, middle: Access, out: Access)
    requires
        access_knowledge_kept(a, middle),
        access_knowledge_kept(middle, out),
    ensures
        access_knowledge_kept(a, out),
    decreases a,
{
    match a {
        Access::ComponentAccess { .. } => {},
        Access::ArrayAccess { index } => {
            lemma_knowledge_kept_twice(index, middle->index, out->index);
        },
    }
}

/// Knowledge that expressions kept twice in a row was kept.
pub proof fn lemma_expressions_knowledge_kept_twice(
    es: Seq<Expression>,
    middle: Seq<Expression>,
    outs: Seq<Expression>,
)
    requires
        expressions_knowledge_kept(es, middle),
        expressions_knowledge_kept(middle, outs),
    ensures
        expressions_knowledge_kept(es, outs),
    decreases es,
{
    assert forall|i: int| 0 <= i < es.len() implies knowledge_kept(#[trigger] es[i], outs[i]) by {
        lemma_knowledge_kept_twice(es[i], middle[i], outs[i]);
    }
}

} // verus!
