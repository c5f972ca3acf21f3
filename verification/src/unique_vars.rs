//! The pass that makes the local variables of a definition unique.
//!
//! A declaration of a variable whose name is taken gets the first version
//! of that name that is free. Taken are the names of the parameters, of the
//! signals, components and buses wherever in the definition they are
//! declared, and of the variables declared earlier. Every use of a name is
//! renamed to what the declaration in scope was renamed to. Signals,
//! components and buses keep their names, and so does a variable with the
//! name of a signal, which is an error.
//!
//! A block is a scope. An initialization block is none: what it declares
//! belongs to the block around it, as it does where names are resolved for
//! lowering.

use crate::ast::{Access, Expression, Meta, NameView, Statement, VariableName, VariableType};
use crate::cfg_model::{declarations_in, declarations_in_first};
use crate::parameter_data::{ParameterData, source_names};
use crate::report::{MessageCategory, Report, ReportCollection};
use vstd::prelude::*;

verus! {

/// What the pass found at a declaration.
#[derive(Clone, Copy, Debug, PartialEq, Eq, Structural)]
pub struct Finding {
    /// `Warning` where a variable has the name of a parameter, `Error` where
    /// it has the name of a signal.
    pub category: MessageCategory,
    /// The metadata of the declaration.
    pub meta: Meta,
}

/// What one scope renames: pairs of a name as declared and the name it got,
/// oldest first.
pub type Renames = Seq<(NameView, NameView)>;

/// The state of the pass.
pub struct RenameModel {
    /// The parameters of the definition.
    pub params: Seq<NameView>,
    /// The signals of the definition.
    pub signals: Seq<NameView>,
    /// Every name that is taken: the parameters, and what the variables
    /// declared so far were renamed to.
    pub declared: Seq<NameView>,
    /// The open scopes, outermost first.
    pub scopes: Seq<Renames>,
    /// What was found so far.
    pub findings: Seq<Finding>,
}

/// What `scope` renames `name` to, if it does.
pub open spec fn renamed_in(scope: Renames, name: NameView) -> Option<NameView>
    decreases scope.len(),
{
    if scope.len() == 0 {
        None
    } else if scope.last().0 == name {
        Some(scope.last().1)
    } else {
        renamed_in(scope.drop_last(), name)
    }
}

/// What a use of `name` refers to where `scopes` are open: what the
/// innermost scope that renames it says, and `name` itself if none does.
pub open spec fn resolved(scopes: Seq<Renames>, name: NameView) -> NameView
    decreases scopes.len(),
{
    if scopes.len() == 0 {
        name
    } else {
        match renamed_in(scopes.last(), name) {
            Some(unique) => unique,
            None => resolved(scopes.drop_last(), name),
        }
    }
}

/// The first version from `k` on under which `name` is not in `declared`.
pub open spec fn first_free(declared: Seq<NameView>, name: Seq<char>, k: nat) -> nat
    decreases declared.len() - k,
{
    if k >= declared.len() || !declared.contains((name, k as usize)) {
        k
    } else {
        first_free(declared, name, k + 1)
    }
}

/// The name that a declaration of the variable `name` gets: `name` itself if
/// it is free, else `name` under its first free version.
pub open spec fn unique_name(declared: Seq<NameView>, name: NameView) -> NameView {
    if !declared.contains(name) {
        name
    } else {
        (name.0, first_free(declared, name.0, 0) as usize)
    }
}

/// Whether a declaration of `name` with kind `xtype` is one that the pass
/// renames: a variable that does not have the name of a signal.
pub open spec fn is_local(st: RenameModel, xtype: VariableType, name: NameView) -> bool {
    xtype is Var && !st.signals.contains(name)
}

/// The state after a declaration of `name` with kind `xtype`.
///
/// A signal, a component or a bus keeps its name, and from now on its scope
/// lets the name stand for it. A variable with the name of a signal is an
/// error, and stays as it is. Any other variable takes its unique name, which
/// its scope from now on renames it to; where it has the name of a
/// parameter, that is worth a warning.
pub open spec fn state_after_declaration(
    st: RenameModel,
    meta: Meta,
    xtype: VariableType,
    name: NameView,
) -> RenameModel {
    if !(xtype is Var) {
        RenameModel {
            scopes: st.scopes.drop_last().push(st.scopes.last().push((name, name))),
            ..st
        }
    } else if st.signals.contains(name) {
        RenameModel {
            findings: st.findings.push(Finding { category: MessageCategory::Error, meta }),
            ..st
        }
    } else {
        let unique = unique_name(st.declared, name);
        RenameModel {
            declared: st.declared.push(unique),
            scopes: st.scopes.drop_last().push(st.scopes.last().push((name, unique))),
            findings: if st.params.contains(name) {
                st.findings.push(Finding { category: MessageCategory::Warning, meta })
            } else {
                st.findings
            },
            ..st
        }
    }
}

/// The state of the pass after `stmt`.
pub open spec fn state_after(stmt: Statement, st: RenameModel) -> RenameModel
    decreases stmt, 0nat,
{
    match stmt {
        Statement::Block { stmts, .. } => {
            let inner = state_after_statements(
                stmts@,
                stmts@.len(),
                RenameModel { scopes: st.scopes.push(Seq::empty()), ..st },
            );
            RenameModel { scopes: inner.scopes.drop_last(), ..inner }
        },
        Statement::InitializationBlock { initializations, .. } => state_after_statements(
            initializations@,
            initializations@.len(),
            st,
        ),
        Statement::IfThenElse { if_case, else_case, .. } => {
            let after_if = state_after(*if_case, st);
            match else_case {
                Some(else_case) => state_after(*else_case, after_if),
                None => after_if,
            }
        },
        Statement::While { stmt: body, .. } => state_after(*body, st),
        Statement::Declaration { meta, xtype, name, .. } => state_after_declaration(
            st,
            meta,
            xtype,
            name@,
        ),
        _ => st,
    }
}

/// The state of the pass after the first `n` of `stmts`.
pub open spec fn state_after_statements(stmts: Seq<Statement>, n: nat, st: RenameModel) -> RenameModel
    decreases stmts, n,
{
    if n == 0 || n > stmts.len() {
        st
    } else {
        state_after(stmts[n - 1], state_after_statements(stmts, (n - 1) as nat, st))
    }
}

/// `out` is `e` with every variable renamed to what it refers to where
/// `scopes` are open, and nothing else changed.
pub open spec fn renamed_expression(e: Expression, scopes: Seq<Renames>, out: Expression) -> bool
    decreases e,
{
    match e {
        Expression::Number { meta, value } => {
            &&& out matches Expression::Number { meta: m, value: v }
            &&& m == meta
            &&& v == value
        },
        Expression::Variable { meta, name, access } => {
            &&& out matches Expression::Variable { meta: m, name: n, access: a }
            &&& m == meta
            &&& n@ == resolved(scopes, name@)
            &&& a@.len() == access@.len()
            &&& forall|i: int|
                0 <= i < access@.len() ==> renamed_access(#[trigger] access@[i], scopes, a@[i])
        },
        Expression::InfixOp { meta, lhe, infix_op, rhe } => {
            &&& out matches Expression::InfixOp { meta: m, lhe: l, infix_op: op, rhe: h }
            &&& m == meta
            &&& op == infix_op
            &&& renamed_expression(*lhe, scopes, *l)
            &&& renamed_expression(*rhe, scopes, *h)
        },
        Expression::PrefixOp { meta, prefix_op, rhe } => {
            &&& out matches Expression::PrefixOp { meta: m, prefix_op: op, rhe: h }
            &&& m == meta
            &&& op == prefix_op
            &&& renamed_expression(*rhe, scopes, *h)
        },
        Expression::ParallelOp { meta, rhe } => {
            &&& out matches Expression::ParallelOp { meta: m, rhe: h }
            &&& m == meta
            &&& renamed_expression(*rhe, scopes, *h)
        },
        Expression::InlineSwitchOp { meta, cond, if_true, if_false } => {
            &&& out matches Expression::InlineSwitchOp { meta: m, cond: c, if_true: t, if_false: f }
            &&& m == meta
            &&& renamed_expression(*cond, scopes, *c)
            &&& renamed_expression(*if_true, scopes, *t)
            &&& renamed_expression(*if_false, scopes, *f)
        },
        Expression::Call { meta, id, args } => {
            &&& out matches Expression::Call { meta: m, id: d, args: a }
            &&& m == meta
            &&& d@ == id@
            &&& renamed_expressions(args@, scopes, a@)
        },
        Expression::AnonymousComponent { meta, id, args } => {
            &&& out matches Expression::AnonymousComponent { meta: m, id: d, args: a }
            &&& m == meta
            &&& d@ == id@
            &&& renamed_expressions(args@, scopes, a@)
        },
        Expression::ArrayInLine { meta, values } => {
            &&& out matches Expression::ArrayInLine { meta: m, values: a }
            &&& m == meta
            &&& renamed_expressions(values@, scopes, a@)
        },
        Expression::Tuple { meta, values } => {
            &&& out matches Expression::Tuple { meta: m, values: a }
            &&& m == meta
            &&& renamed_expressions(values@, scopes, a@)
        },
        Expression::UniformArray { meta, value, dimension } => {
            &&& out matches Expression::UniformArray { meta: m, value: v, dimension: d }
            &&& m == meta
            &&& renamed_expression(*value, scopes, *v)
            &&& renamed_expression(*dimension, scopes, *d)
        },
    }
}

/// `out` is the access `a` with every variable renamed.
pub open spec fn renamed_access(a: Access, scopes: Seq<Renames>, out: Access) -> bool
    decreases a,
{
    match a {
        Access::ComponentAccess { name } => {
            &&& out matches Access::ComponentAccess { name: n }
            &&& n@ == name@
        },
        Access::ArrayAccess { index } => {
            &&& out matches Access::ArrayAccess { index: i }
            &&& renamed_expression(index, scopes, i)
        },
    }
}

/// `outs` are `es` with every variable renamed, one for one.
pub open spec fn renamed_expressions(
    es: Seq<Expression>,
    scopes: Seq<Renames>,
    outs: Seq<Expression>,
) -> bool
    decreases es,
{
    &&& outs.len() == es.len()
    &&& forall|i: int| 0 <= i < es.len() ==> renamed_expression(#[trigger] es[i], scopes, outs[i])
}

/// `outs` are the accesses with every variable renamed, one for one.
pub open spec fn renamed_accesses(accesses: Seq<Access>, scopes: Seq<Renames>, outs: Seq<Access>) -> bool {
    &&& outs.len() == accesses.len()
    &&& forall|i: int|
        0 <= i < accesses.len() ==> renamed_access(#[trigger] accesses[i], scopes, outs[i])
}

/// `out` is what the pass, in state `st`, makes of `stmt`.
///
/// Every statement keeps its shape, its metadata and its operators. A
/// declaration that the pass renames has its unique name. Every use of a
/// variable has the name that the scopes open at that point rename it to.
pub open spec fn renamed_statement(stmt: Statement, st: RenameModel, out: Statement) -> bool
    decreases stmt,
{
    match stmt {
        Statement::Block { meta, stmts } => {
            &&& out matches Statement::Block { meta: m, stmts: o }
            &&& m == meta
            &&& o@.len() == stmts@.len()
            &&& forall|i: int|
                0 <= i < stmts@.len() ==> renamed_statement(
                    #[trigger] stmts@[i],
                    state_after_statements(
                        stmts@,
                        i as nat,
                        RenameModel { scopes: st.scopes.push(Seq::empty()), ..st },
                    ),
                    o@[i],
                )
        },
        Statement::InitializationBlock { meta, xtype, initializations } => {
            &&& out matches Statement::InitializationBlock { meta: m, xtype: x, initializations: o }
            &&& m == meta
            &&& x == xtype
            &&& o@.len() == initializations@.len()
            &&& forall|i: int|
                0 <= i < initializations@.len() ==> renamed_statement(
                    #[trigger] initializations@[i],
                    state_after_statements(initializations@, i as nat, st),
                    o@[i],
                )
        },
        Statement::IfThenElse { meta, cond, if_case, else_case } => {
            &&& out matches Statement::IfThenElse { meta: m, cond: c, if_case: i, else_case: e }
            &&& m == meta
            &&& renamed_expression(cond, st.scopes, c)
            &&& renamed_statement(*if_case, st, *i)
            &&& match else_case {
                Some(else_case) => e matches Some(x) && renamed_statement(
                    *else_case,
                    state_after(*if_case, st),
                    *x,
                ),
                None => e is None,
            }
        },
        Statement::While { meta, cond, stmt: body } => {
            &&& out matches Statement::While { meta: m, cond: c, stmt: b }
            &&& m == meta
            &&& renamed_expression(cond, st.scopes, c)
            &&& renamed_statement(*body, st, *b)
        },
        Statement::Return { meta, value } => {
            &&& out matches Statement::Return { meta: m, value: v }
            &&& m == meta
            &&& renamed_expression(value, st.scopes, v)
        },
        Statement::Assert { meta, arg } => {
            &&& out matches Statement::Assert { meta: m, arg: a }
            &&& m == meta
            &&& renamed_expression(arg, st.scopes, a)
        },
        Statement::LogCall { meta, args } => {
            &&& out matches Statement::LogCall { meta: m, args: a }
            &&& m == meta
            &&& renamed_expressions(args@, st.scopes, a@)
        },
        Statement::Declaration { meta, xtype, name, dimensions, is_constant } => {
            &&& out matches Statement::Declaration {
                meta: m,
                xtype: x,
                name: n,
                dimensions: d,
                is_constant: c,
            }
            &&& m == meta
            &&& x == xtype
            &&& c == is_constant
            &&& renamed_expressions(dimensions@, st.scopes, d@)
            &&& n@ == if is_local(st, xtype, name@) {
                unique_name(st.declared, name@)
            } else {
                name@
            }
        },
        Statement::Substitution { meta, var, access, op, rhe } => {
            &&& out matches Statement::Substitution { meta: m, var: v, access: a, op: o, rhe: h }
            &&& m == meta
            &&& v@ == resolved(st.scopes, var@)
            &&& renamed_accesses(access@, st.scopes, a@)
            &&& o == op
            &&& renamed_expression(rhe, st.scopes, h)
        },
        Statement::MultiSubstitution { meta, lhe, op, rhe } => {
            &&& out matches Statement::MultiSubstitution { meta: m, lhe: l, op: o, rhe: h }
            &&& m == meta
            &&& renamed_expression(lhe, st.scopes, l)
            &&& o == op
            &&& renamed_expression(rhe, st.scopes, h)
        },
        Statement::ConstraintEquality { meta, lhe, rhe } => {
            &&& out matches Statement::ConstraintEquality { meta: m, lhe: l, rhe: h }
            &&& m == meta
            &&& renamed_expression(lhe, st.scopes, l)
            &&& renamed_expression(rhe, st.scopes, h)
        },
    }
}

/// The names of the variables that `stmt` declares and that are no signals,
/// in source order.
pub open spec fn local_declarations(stmt: Statement, signals: Seq<NameView>) -> Seq<NameView>
    decreases stmt, 0nat,
{
    match stmt {
        Statement::Block { stmts, .. } => local_declarations_in(stmts@, stmts@.len(), signals),
        Statement::InitializationBlock { initializations, .. } => local_declarations_in(
            initializations@,
            initializations@.len(),
            signals,
        ),
        Statement::IfThenElse { if_case, else_case, .. } => {
            local_declarations(*if_case, signals) + match else_case {
                Some(else_case) => local_declarations(*else_case, signals),
                None => Seq::empty(),
            }
        },
        Statement::While { stmt: body, .. } => local_declarations(*body, signals),
        Statement::Declaration { xtype, name, .. } => {
            if xtype is Var && !signals.contains(name@) {
                seq![name@]
            } else {
                Seq::empty()
            }
        },
        _ => Seq::empty(),
    }
}

/// The names of the variables that the first `n` of `stmts` declare and that
/// are no signals, in source order.
pub open spec fn local_declarations_in(stmts: Seq<Statement>, n: nat, signals: Seq<NameView>) -> Seq<
    NameView,
>
    decreases stmts, n,
{
    if n == 0 || n > stmts.len() {
        Seq::empty()
    } else {
        local_declarations_in(stmts, (n - 1) as nat, signals) + local_declarations(
            stmts[n - 1],
            signals,
        )
    }
}

/// What the first `n` statements declare depends on those statements alone.
pub proof fn lemma_local_declarations_in_prefix(
    a: Seq<Statement>,
    b: Seq<Statement>,
    n: nat,
    signals: Seq<NameView>,
)
    requires
        n <= a.len(),
        n <= b.len(),
        forall|i: int| 0 <= i < n ==> a[i] == b[i],
    ensures
        local_declarations_in(a, n, signals) == local_declarations_in(b, n, signals),
    decreases n,
{
    if n > 0 {
        lemma_local_declarations_in_prefix(a, b, (n - 1) as nat, signals);
    }
}

/// `names` without repetitions: each name where it comes first.
pub open spec fn distinct_names(names: Seq<NameView>) -> Seq<NameView>
    decreases names.len(),
{
    if names.len() == 0 {
        names
    } else if distinct_names(names.drop_last()).contains(names.last()) {
        distinct_names(names.drop_last())
    } else {
        distinct_names(names.drop_last()).push(names.last())
    }
}

/// The state in which the pass begins: the parameters, the signals and
/// `others`, the names of the components and buses, are taken, one scope is
/// open, nothing is renamed.
pub open spec fn initial_state(
    params: Seq<NameView>,
    signals: Seq<NameView>,
    others: Seq<NameView>,
) -> RenameModel {
    RenameModel {
        params,
        signals,
        declared: distinct_names(params + signals + others),
        scopes: seq![Seq::empty()],
        findings: Seq::empty(),
    }
}

/// The state in which the pass begins on the body `body` of a definition
/// with `param_data`. Taken are the parameters, the signals that the
/// definition declares to the outside or in its body, and its components and
/// buses, wherever in the body they are declared.
pub open spec fn first_state(param_data: ParameterData, body: Statement) -> RenameModel {
    initial_state(
        param_data.params(),
        param_data.signals() + signal_declarations(body),
        source_names(param_data.components@) + kept_declarations(body),
    )
}

/// In the state in which the pass begins, no name is taken twice, and the
/// parameters and the signals are taken.
pub proof fn lemma_initial_state(
    params: Seq<NameView>,
    signals: Seq<NameView>,
    others: Seq<NameView>,
)
    ensures
        initial_state(params, signals, others).declared.no_duplicates(),
        signals_taken(initial_state(params, signals, others)),
        forall|n: NameView|
            params.contains(n) ==> initial_state(params, signals, others).declared.contains(n),
        forall|n: NameView|
            others.contains(n) ==> initial_state(params, signals, others).declared.contains(n),
{
    let all = params + signals + others;
    lemma_distinct_names(all);
    assert forall|n: NameView| params.contains(n) implies all.contains(n) by {
        let k = choose|k: int| 0 <= k < params.len() && params[k] == n;
        assert(all[k] == n);
    }
    assert forall|n: NameView| signals.contains(n) implies all.contains(n) by {
        let k = choose|k: int| 0 <= k < signals.len() && signals[k] == n;
        assert(all[params.len() + k] == n);
    }
    assert forall|n: NameView| others.contains(n) implies all.contains(n) by {
        let k = choose|k: int| 0 <= k < others.len() && others[k] == n;
        assert(all[params.len() + signals.len() + k] == n);
    }
}

/// Names without repetitions hold what the names hold, and nothing twice.
pub proof fn lemma_distinct_names(names: Seq<NameView>)
    ensures
        distinct_names(names).no_duplicates(),
        distinct_names(names).len() <= names.len(),
        forall|n: NameView| #[trigger] distinct_names(names).contains(n) <==> names.contains(n),
    decreases names.len(),
{
    if names.len() > 0 {
        let rest = names.drop_last();
        let d = distinct_names(rest);
        lemma_distinct_names(rest);
        let r = distinct_names(names);
        assert forall|n: NameView| #[trigger] r.contains(n) <==> names.contains(n) by {
            if r.contains(n) {
                let k = choose|k: int| 0 <= k < r.len() && r[k] == n;
                if k < d.len() {
                    assert(d.contains(n));
                    let q = choose|q: int| 0 <= q < rest.len() && rest[q] == n;
                    assert(names[q] == n);
                } else {
                    assert(names[names.len() - 1] == n);
                }
            }
            if names.contains(n) {
                let k = choose|k: int| 0 <= k < names.len() && names[k] == n;
                if k < rest.len() {
                    assert(rest[k] == n);
                    assert(d.contains(n));
                    let q = choose|q: int| 0 <= q < d.len() && d[q] == n;
                    assert(r[q] == n);
                } else if !d.contains(n) {
                    assert(r[d.len() as int] == n);
                }
            }
        }
    }
}

/// The names that `stmt` declares and that the pass leaves as they are, in
/// source order: those of the signals, if `signals` is set, or else those
/// of the components and buses.
pub open spec fn declarations_of_kind(stmt: Statement, signals: bool) -> Seq<NameView>
    decreases stmt, 0nat,
{
    match stmt {
        Statement::Block { stmts, .. } => declarations_of_kind_in(stmts@, stmts@.len(), signals),
        Statement::InitializationBlock { initializations, .. } => declarations_of_kind_in(
            initializations@,
            initializations@.len(),
            signals,
        ),
        Statement::IfThenElse { if_case, else_case, .. } => {
            declarations_of_kind(*if_case, signals) + match else_case {
                Some(else_case) => declarations_of_kind(*else_case, signals),
                None => Seq::empty(),
            }
        },
        Statement::While { stmt: body, .. } => declarations_of_kind(*body, signals),
        Statement::Declaration { xtype, name, .. } => {
            if !(xtype is Var) && (xtype is Signal) == signals {
                seq![name@]
            } else {
                Seq::empty()
            }
        },
        _ => Seq::empty(),
    }
}

/// The names that the first `n` of `stmts` declare and that the pass leaves
/// as they are, in source order.
pub open spec fn declarations_of_kind_in(stmts: Seq<Statement>, n: nat, signals: bool) -> Seq<
    NameView,
>
    decreases stmts, n,
{
    if n == 0 || n > stmts.len() {
        Seq::empty()
    } else {
        declarations_of_kind_in(stmts, (n - 1) as nat, signals) + declarations_of_kind(
            stmts[n - 1],
            signals,
        )
    }
}

/// The names of the signals that `stmt` declares, in source order.
pub open spec fn signal_declarations(stmt: Statement) -> Seq<NameView> {
    declarations_of_kind(stmt, true)
}

/// The names of the components and buses that `stmt` declares, in source
/// order.
pub open spec fn kept_declarations(stmt: Statement) -> Seq<NameView> {
    declarations_of_kind(stmt, false)
}

/// If a list holds `name` under each of the versions `0` to `n`, it has more
/// than `n` entries.
pub proof fn lemma_versions_take_room(list: Seq<NameView>, name: Seq<char>, n: usize)
    requires
        forall|j: usize| j <= n ==> #[trigger] list.contains((name, j)),
    ensures
        list.len() > n,
    decreases n,
{
    assert(list.contains((name, n)));
    let i = choose|i: int| 0 <= i < list.len() && list[i] == (name, n);
    if n > 0 {
        let rest = list.remove(i);
        assert forall|j: usize| j <= n - 1 implies #[trigger] rest.contains((name, j)) by {
            assert(list.contains((name, j)));
            let k = choose|k: int| 0 <= k < list.len() && list[k] == (name, j);
            if k < i {
                assert(rest[k] == list[k]);
            } else {
                assert(rest[k - 1] == list[k]);
            }
        }
        lemma_versions_take_room(rest, name, (n - 1) as usize);
    }
}

/// The first free version is free, and no larger than the number of names
/// that are taken.
pub proof fn lemma_first_free(declared: Seq<NameView>, name: Seq<char>, k: nat)
    requires
        declared.len() <= usize::MAX,
        k <= declared.len(),
        forall|j: usize| j < k ==> #[trigger] declared.contains((name, j)),
    ensures
        k <= first_free(declared, name, k) <= declared.len(),
        !declared.contains((name, first_free(declared, name, k) as usize)),
    decreases declared.len() - k,
{
    if k >= declared.len() {
        if declared.contains((name, k as usize)) {
            lemma_versions_take_room(declared, name, k as usize);
        }
    } else if declared.contains((name, k as usize)) {
        assert forall|j: usize| j < k + 1 implies #[trigger] declared.contains((name, j)) by {
            assert(j < k || j == k);
        }
        lemma_first_free(declared, name, k + 1);
    }
}

/// A unique name is not taken.
pub proof fn lemma_unique_name_is_free(declared: Seq<NameView>, name: NameView)
    requires
        declared.len() <= usize::MAX,
    ensures
        !declared.contains(unique_name(declared, name)),
        declared.no_duplicates() ==> declared.push(unique_name(declared, name)).no_duplicates(),
{
    lemma_first_free(declared, name.0, 0);
    let u = unique_name(declared, name);
    let r = declared.push(u);
    if declared.no_duplicates() {
        assert forall|i: int, j: int| 0 <= i < r.len() && 0 <= j < r.len() && i != j implies r[i]
            != r[j] by {
            if i >= declared.len() {
                assert(declared[j] == r[j]);
            } else if j >= declared.len() {
                assert(declared[i] == r[i]);
            }
        }
    }
}

/// What the names in `list` stand for.
pub open spec fn names_of(list: Seq<VariableName>) -> Seq<NameView> {
    Seq::new(list.len(), |i: int| list[i]@)
}

/// Whether `list` holds `name`.
fn contains_name(list: &Vec<VariableName>, name: &VariableName) -> (r: bool)
    ensures
        r == names_of(list@).contains(name@),
{
    let mut i: usize = 0;
    while i < list.len()
        invariant
            i <= list@.len(),
            forall|k: int| 0 <= k < i ==> names_of(list@)[k] != name@,
        decreases list@.len() - i,
    {
        if list[i].equals(name) {
            assert(names_of(list@)[i as int] == name@);
            return true;
        }
        i += 1;
    }
    false
}

/// Whether `list` holds the name `name` under `version`.
fn contains_version(list: &Vec<VariableName>, name: &String, version: usize) -> (r: bool)
    ensures
        r == names_of(list@).contains((name@, version)),
{
    let mut i: usize = 0;
    while i < list.len()
        invariant
            i <= list@.len(),
            forall|k: int| 0 <= k < i ==> names_of(list@)[k] != (name@, version),
        decreases list@.len() - i,
    {
        if list[i].version == version && list[i].name == *name {
            assert(names_of(list@)[i as int] == (name@, version));
            return true;
        }
        i += 1;
    }
    false
}

/// The state of the pass.
struct Renamer {
    params: Vec<VariableName>,
    signals: Vec<VariableName>,
    declared: Vec<VariableName>,
    scopes: Vec<Vec<(VariableName, VariableName)>>,
    findings: Vec<Finding>,
}

impl Renamer {
    spec fn model(&self) -> RenameModel {
        RenameModel {
            params: names_of(self.params@),
            signals: names_of(self.signals@),
            declared: names_of(self.declared@),
            scopes: Seq::new(
                self.scopes@.len(),
                |i: int|
                    Seq::new(
                        self.scopes@[i]@.len(),
                        |j: int| (self.scopes@[i]@[j].0@, self.scopes@[i]@[j].1@),
                    ),
            ),
            findings: self.findings@,
        }
    }

    /// What a use of `name` refers to in the scopes that are open.
    fn resolve(&self, name: &VariableName) -> (r: VariableName)
        ensures
            r@ == resolved(self.model().scopes, name@),
    {
        let ghost scopes = self.model().scopes;
        let mut i: usize = self.scopes.len();
        assert(scopes.take(i as int) =~= scopes);
        while i > 0
            invariant
                scopes == self.model().scopes,
                i <= self.scopes@.len(),
                resolved(scopes, name@) == resolved(scopes.take(i as int), name@),
            decreases i,
        {
            i -= 1;
            let scope = &self.scopes[i];
            let ghost renames = scopes[i as int];
            let mut j: usize = scope.len();
            assert(renames.take(j as int) =~= renames);
            while j > 0
                invariant
                    scopes == self.model().scopes,
                    i < self.scopes@.len(),
                    scope == &self.scopes@[i as int],
                    renames == scopes[i as int],
                    j <= scope@.len(),
                    renamed_in(renames, name@) == renamed_in(renames.take(j as int), name@),
                    resolved(scopes, name@) == resolved(scopes.take(i + 1), name@),
                    scopes.take(i + 1).last() == renames,
                    scopes.take(i + 1).drop_last() == scopes.take(i as int),
                decreases j,
            {
                j -= 1;
                assert(renames.take(j + 1).drop_last() =~= renames.take(j as int));
                if scope[j].0.equals(name) {
                    return scope[j].1.duplicate();
                }
            }
        }
        name.duplicate()
    }

    /// The unique name for a declaration of the variable `name`.
    fn unique(&self, name: &VariableName) -> (r: VariableName)
        ensures
            r@ == unique_name(self.model().declared, name@),
    {
        if !contains_name(&self.declared, name) {
            name.duplicate()
        } else {
            let ghost declared = self.model().declared;
            let mut k: usize = 0;
            while k < self.declared.len() && contains_version(&self.declared, &name.name, k)
                invariant
                    declared == self.model().declared,
                    k <= declared.len(),
                    first_free(declared, name.name@, 0) == first_free(declared, name.name@, k as nat),
                decreases declared.len() - k,
            {
                k += 1;
            }
            name.with_version(k)
        }
    }

    /// Opens a scope.
    fn enter_scope(&mut self)
        ensures
            final(self).model() == (RenameModel {
                scopes: old(self).model().scopes.push(Seq::empty()),
                ..old(self).model()
            }),
    {
        self.scopes.push(Vec::new());
        let ghost before = old(self).model().scopes;
        assert(self.model().scopes =~= before.push(Seq::empty())) by {
            let n = before.len() as int;
            assert forall|i: int| 0 <= i < n implies self.model().scopes[i] =~= before[i] by {}
            assert(self.model().scopes[n] =~= Seq::<(NameView, NameView)>::empty());
        }
    }

    /// Closes the innermost scope.
    fn leave_scope(&mut self)
        requires
            old(self).model().scopes.len() > 0,
        ensures
            final(self).model() == (RenameModel {
                scopes: old(self).model().scopes.drop_last(),
                ..old(self).model()
            }),
    {
        self.scopes.pop();
        let ghost before = old(self).model().scopes;
        assert(self.model().scopes =~= before.drop_last()) by {
            assert forall|i: int| 0 <= i < self.scopes@.len() implies self.model().scopes[i]
                =~= before[i] by {}
        }
    }

    /// Takes a declaration of `name` with kind `xtype` into account, and
    /// hands back the name that the declaration has from now on.
    fn declare(&mut self, meta: &Meta, xtype: &VariableType, name: &VariableName) -> (r:
        VariableName)
        requires
            old(self).model().scopes.len() > 0,
        ensures
            final(self).model() == state_after_declaration(old(self).model(), *meta, *xtype, name@),
            r@ == if is_local(old(self).model(), *xtype, name@) {
                unique_name(old(self).model().declared, name@)
            } else {
                name@
            },
    {
        let is_var = match xtype {
            VariableType::Var => true,
            _ => false,
        };
        if !is_var {
            let ghost before = old(self).model();
            let mut scope = self.scopes.pop().unwrap();
            scope.push((name.duplicate(), name.duplicate()));
            self.scopes.push(scope);
            proof {
                let top = (before.scopes.len() - 1) as int;
                assert(self.model().scopes =~= before.scopes.drop_last().push(
                    before.scopes.last().push((name@, name@)),
                )) by {
                    assert forall|i: int| 0 <= i < top implies self.model().scopes[i]
                        =~= before.scopes[i] by {}
                    assert(self.model().scopes[top] =~= before.scopes.last().push(
                        (name@, name@),
                    ));
                }
            }
            name.duplicate()
        } else if contains_name(&self.signals, name) {
            self.findings.push(Finding { category: MessageCategory::Error, meta: *meta });
            assert(self.model().scopes =~= old(self).model().scopes) by {
                assert forall|i: int| 0 <= i < self.scopes@.len() implies self.model().scopes[i]
                    =~= old(self).model().scopes[i] by {}
            }
            name.duplicate()
        } else {
            let unique = self.unique(name);
            let ghost before = old(self).model();
            if contains_name(&self.params, name) {
                self.findings.push(Finding { category: MessageCategory::Warning, meta: *meta });
            }
            self.declared.push(unique.duplicate());
            let mut scope = self.scopes.pop().unwrap();
            scope.push((name.duplicate(), unique.duplicate()));
            self.scopes.push(scope);
            proof {
                let top = (before.scopes.len() - 1) as int;
                assert(self.model().declared =~= before.declared.push(unique@));
                assert(self.model().scopes =~= before.scopes.drop_last().push(
                    before.scopes.last().push((name@, unique@)),
                )) by {
                    assert forall|i: int| 0 <= i < top implies self.model().scopes[i]
                        =~= before.scopes[i] by {}
                    assert(self.model().scopes[top] =~= before.scopes.last().push(
                        (name@, unique@),
                    ));
                }
            }
            unique
        }
    }
}

impl Expression {
    /// The expression with every variable renamed to what it refers to.
    fn renamed(&self, st: &Renamer) -> (out: Expression)
        ensures
            renamed_expression(*self, st.model().scopes, out),
        decreases self,
    {
        match self {
            Expression::Number { meta, value } => Expression::Number {
                meta: *meta,
                value: value.clone(),
            },
            Expression::Variable { meta, name, access } => Expression::Variable {
                meta: *meta,
                name: st.resolve(name),
                access: rename_accesses(access, st),
            },
            Expression::InfixOp { meta, lhe, infix_op, rhe } => Expression::InfixOp {
                meta: *meta,
                lhe: Box::new(lhe.renamed(st)),
                infix_op: *infix_op,
                rhe: Box::new(rhe.renamed(st)),
            },
            Expression::PrefixOp { meta, prefix_op, rhe } => Expression::PrefixOp {
                meta: *meta,
                prefix_op: *prefix_op,
                rhe: Box::new(rhe.renamed(st)),
            },
            Expression::ParallelOp { meta, rhe } => Expression::ParallelOp {
                meta: *meta,
                rhe: Box::new(rhe.renamed(st)),
            },
            Expression::InlineSwitchOp { meta, cond, if_true, if_false } => {
                Expression::InlineSwitchOp {
                    meta: *meta,
                    cond: Box::new(cond.renamed(st)),
                    if_true: Box::new(if_true.renamed(st)),
                    if_false: Box::new(if_false.renamed(st)),
                }
            },
            Expression::Call { meta, id, args } => Expression::Call {
                meta: *meta,
                id: id.clone(),
                args: rename_expressions(args, st),
            },
            Expression::AnonymousComponent { meta, id, args } => Expression::AnonymousComponent {
                meta: *meta,
                id: id.clone(),
                args: rename_expressions(args, st),
            },
            Expression::ArrayInLine { meta, values } => Expression::ArrayInLine {
                meta: *meta,
                values: rename_expressions(values, st),
            },
            Expression::Tuple { meta, values } => Expression::Tuple {
                meta: *meta,
                values: rename_expressions(values, st),
            },
            Expression::UniformArray { meta, value, dimension } => Expression::UniformArray {
                meta: *meta,
                value: Box::new(value.renamed(st)),
                dimension: Box::new(dimension.renamed(st)),
            },
        }
    }
}

impl Access {
    /// The access with every variable renamed to what it refers to.
    fn renamed(&self, st: &Renamer) -> (out: Access)
        ensures
            renamed_access(*self, st.model().scopes, out),
        decreases self,
    {
        match self {
            Access::ComponentAccess { name } => Access::ComponentAccess { name: name.clone() },
            Access::ArrayAccess { index } => Access::ArrayAccess { index: index.renamed(st) },
        }
    }
}

/// Each of `es` with every variable renamed.
fn rename_expressions(es: &Vec<Expression>, st: &Renamer) -> (outs: Vec<Expression>)
    ensures
        renamed_expressions(es@, st.model().scopes, outs@),
    decreases es,
{
    let mut outs: Vec<Expression> = Vec::new();
    let mut i: usize = 0;
    while i < es.len()
        invariant
            i <= es@.len(),
            outs@.len() == i,
            forall|k: int|
                0 <= k < i ==> renamed_expression(#[trigger] es@[k], st.model().scopes, outs@[k]),
        decreases es@.len() - i,
    {
        let out = es[i].renamed(st);
        outs.push(out);
        i += 1;
    }
    outs
}

/// Each of the accesses with every variable renamed.
fn rename_accesses(accesses: &Vec<Access>, st: &Renamer) -> (outs: Vec<Access>)
    ensures
        renamed_accesses(accesses@, st.model().scopes, outs@),
    decreases accesses,
{
    let mut outs: Vec<Access> = Vec::new();
    let mut i: usize = 0;
    while i < accesses.len()
        invariant
            i <= accesses@.len(),
            outs@.len() == i,
            forall|k: int|
                0 <= k < i ==> renamed_access(
                    #[trigger] accesses@[k],
                    st.model().scopes,
                    outs@[k],
                ),
        decreases accesses@.len() - i,
    {
        let out = accesses[i].renamed(st);
        outs.push(out);
        i += 1;
    }
    outs
}

/// What two lists of names stand for, one behind the other.
proof fn lemma_names_of_push(list: Seq<VariableName>, name: VariableName)
    ensures
        names_of(list.push(name)) == names_of(list).push(name@),
{
    assert(names_of(list.push(name)) =~= names_of(list).push(name@));
}

/// Adds to `names` the names of the signals that `stmt` declares, if
/// `signals` is set, or else those of its components and buses.
fn collect_declarations(stmt: &Statement, signals: bool, names: &mut Vec<VariableName>)
    ensures
        names_of(final(names)@) == names_of(old(names)@) + declarations_of_kind(*stmt, signals),
    decreases stmt, 1nat,
{
    match stmt {
        Statement::Block { stmts, .. } => collect_declarations_in(stmts, signals, names),
        Statement::InitializationBlock { initializations, .. } => collect_declarations_in(
            initializations,
            signals,
            names,
        ),
        Statement::IfThenElse { if_case, else_case, .. } => {
            collect_declarations(if_case, signals, names);
            match else_case {
                Some(else_case) => {
                    collect_declarations(else_case, signals, names);
                },
                None => {},
            }
            assert(names_of(names@) =~= names_of(old(names)@) + declarations_of_kind(
                *stmt,
                signals,
            ));
        },
        Statement::While { stmt: body, .. } => collect_declarations(body, signals, names),
        Statement::Declaration { xtype, name, .. } => {
            let is_wanted = match xtype {
                VariableType::Var => false,
                VariableType::Signal(_) => signals,
                _ => !signals,
            };
            if is_wanted {
                let copy = name.duplicate();
                proof {
                    lemma_names_of_push(names@, copy);
                }
                names.push(copy);
                assert(names_of(names@) =~= names_of(old(names)@) + seq![name@]);
            } else {
                assert(names_of(names@) =~= names_of(old(names)@) + Seq::empty());
            }
        },
        _ => {
            assert(names_of(names@) =~= names_of(old(names)@) + Seq::empty());
        },
    }
}

/// Adds to `names` the names that `stmts` declare and that the pass leaves
/// as they are.
#[verifier::loop_isolation(false)]
fn collect_declarations_in(stmts: &Vec<Statement>, signals: bool, names: &mut Vec<VariableName>)
    ensures
        names_of(final(names)@) == names_of(old(names)@) + declarations_of_kind_in(
            stmts@,
            stmts@.len(),
            signals,
        ),
    decreases stmts, 0nat,
{
    let mut i: usize = 0;
    assert(names_of(names@) =~= names_of(old(names)@) + declarations_of_kind_in(
        stmts@,
        0,
        signals,
    ));
    while i < stmts.len()
        invariant
            i <= stmts@.len(),
            names_of(names@) == names_of(old(names)@) + declarations_of_kind_in(
                stmts@,
                i as nat,
                signals,
            ),
        decreases stmts@.len() - i,
    {
        collect_declarations(&stmts[i], signals, names);
        assert(names_of(names@) =~= names_of(old(names)@) + declarations_of_kind_in(
            stmts@,
            (i + 1) as nat,
            signals,
        ));
        i += 1;
    }
}

/// Every signal is among the names that are taken.
pub open spec fn signals_taken(st: RenameModel) -> bool {
    forall|n: NameView| st.signals.contains(n) ==> st.declared.contains(n)
}

/// Signals that are taken stay taken when more names are taken.
pub proof fn lemma_signals_stay_taken(before: RenameModel, after: RenameModel, more: Seq<NameView>)
    requires
        signals_taken(before),
        after.signals == before.signals,
        after.declared == before.declared + more,
    ensures
        signals_taken(after),
{
    assert forall|n: NameView| after.signals.contains(n) implies after.declared.contains(n) by {
        let k = choose|k: int| 0 <= k < before.declared.len() && before.declared[k] == n;
        assert(after.declared[k] == n);
    }
}

/// What the pass owes for one statement or a run of statements that it
/// began in the state `before` and ended in the state `after`, with
/// `declared` the names that the output declares.
pub open spec fn pass_kept(before: RenameModel, after: RenameModel, declared: Seq<NameView>) -> bool {
    &&& after.scopes.len() == before.scopes.len()
    &&& after.params == before.params
    &&& after.signals == before.signals
    &&& after.declared == before.declared + declared
    &&& before.declared.no_duplicates() ==> after.declared.no_duplicates()
    &&& signals_taken(after)
}

impl Statement {
    /// What the pass makes of the statement.
    fn renamed(&self, st: &mut Renamer) -> (out: Statement)
        requires
            old(st).model().scopes.len() > 0,
            signals_taken(old(st).model()),
        ensures
            renamed_statement(*self, old(st).model(), out),
            final(st).model() == state_after(*self, old(st).model()),
            pass_kept(
                old(st).model(),
                final(st).model(),
                local_declarations(out, old(st).model().signals),
            ),
        decreases self, 1nat,
    {
        let ghost before = st.model();
        assert(st.declared.len() <= usize::MAX);
        match self {
            Statement::Block { meta, stmts } => {
                st.enter_scope();
                let ghost entered = st.model();
                let outs = rename_statements(stmts, st);
                let ghost inner = st.model();
                st.leave_scope();
                let out = Statement::Block { meta: *meta, stmts: outs };
                proof {
                    assert(entered.signals == before.signals);
                    assert(entered.declared == before.declared);
                    assert(pass_kept(
                        entered,
                        inner,
                        local_declarations_in(outs@, outs@.len(), entered.signals),
                    ));
                    assert(st.model().declared == inner.declared);
                    assert(inner.scopes.len() == entered.scopes.len());
                    lemma_signals_stay_taken(
                        before,
                        st.model(),
                        local_declarations(out, before.signals),
                    );
                }
                out
            },
            Statement::InitializationBlock { meta, xtype, initializations } => {
                let outs = rename_statements(initializations, st);
                let out = Statement::InitializationBlock {
                    meta: *meta,
                    xtype: *xtype,
                    initializations: outs,
                };
                out
            },
            Statement::IfThenElse { meta, cond, if_case, else_case } => {
                let c = cond.renamed(st);
                let i = if_case.renamed(st);
                let e = match else_case {
                    Some(else_case) => Some(Box::new(else_case.renamed(st))),
                    None => None,
                };
                let out = Statement::IfThenElse {
                    meta: *meta,
                    cond: c,
                    if_case: Box::new(i),
                    else_case: e,
                };
                proof {
                    let signals = before.signals;
                    match else_case {
                        Some(else_case) => {
                            assert(st.model().declared =~= before.declared + local_declarations(
                                out,
                                signals,
                            ));
                        },
                        None => {
                            assert(st.model().declared =~= before.declared + local_declarations(
                                out,
                                signals,
                            ));
                        },
                    }
                }
                out
            },
            Statement::While { meta, cond, stmt } => {
                let c = cond.renamed(st);
                let b = stmt.renamed(st);
                let out = Statement::While { meta: *meta, cond: c, stmt: Box::new(b) };
                out
            },
            Statement::Return { meta, value } => {
                Statement::Return { meta: *meta, value: value.renamed(st) }
            },
            Statement::Assert { meta, arg } => {
                Statement::Assert { meta: *meta, arg: arg.renamed(st) }
            },
            Statement::LogCall { meta, args } => {
                Statement::LogCall { meta: *meta, args: rename_expressions(args, st) }
            },
            Statement::Declaration { meta, xtype, name, dimensions, is_constant } => {
                let d = rename_expressions(dimensions, st);
                let n = st.declare(meta, xtype, name);
                proof {
                    lemma_unique_name_is_free(before.declared, name@);
                    if is_local(before, *xtype, name@) {
                        assert(st.model().declared =~= before.declared + seq![n@]);
                        lemma_signals_stay_taken(before, st.model(), seq![n@]);
                    } else {
                        lemma_signals_stay_taken(before, st.model(), Seq::empty());
                    }
                }
                Statement::Declaration {
                    meta: *meta,
                    xtype: *xtype,
                    name: n,
                    dimensions: d,
                    is_constant: *is_constant,
                }
            },
            Statement::Substitution { meta, var, access, op, rhe } => {
                Statement::Substitution {
                    meta: *meta,
                    var: st.resolve(var),
                    access: rename_accesses(access, st),
                    op: *op,
                    rhe: rhe.renamed(st),
                }
            },
            Statement::MultiSubstitution { meta, lhe, op, rhe } => {
                Statement::MultiSubstitution {
                    meta: *meta,
                    lhe: lhe.renamed(st),
                    op: *op,
                    rhe: rhe.renamed(st),
                }
            },
            Statement::ConstraintEquality { meta, lhe, rhe } => {
                Statement::ConstraintEquality {
                    meta: *meta,
                    lhe: lhe.renamed(st),
                    rhe: rhe.renamed(st),
                }
            },
        }
    }
}

/// What the pass makes of each of `stmts`, in order.
#[verifier::loop_isolation(false)]
fn rename_statements(stmts: &Vec<Statement>, st: &mut Renamer) -> (outs: Vec<Statement>)
    requires
        old(st).model().scopes.len() > 0,
        signals_taken(old(st).model()),
    ensures
        outs@.len() == stmts@.len(),
        forall|i: int|
            0 <= i < stmts@.len() ==> renamed_statement(
                #[trigger] stmts@[i],
                state_after_statements(stmts@, i as nat, old(st).model()),
                outs@[i],
            ),
        final(st).model() == state_after_statements(stmts@, stmts@.len(), old(st).model()),
        pass_kept(
            old(st).model(),
            final(st).model(),
            local_declarations_in(outs@, outs@.len(), old(st).model().signals),
        ),
    decreases stmts, 0nat,
{
    let ghost before = st.model();
    let mut outs: Vec<Statement> = Vec::new();
    let mut i: usize = 0;
    while i < stmts.len()
        invariant
            i <= stmts@.len(),
            outs@.len() == i,
            forall|k: int|
                0 <= k < i ==> renamed_statement(
                    #[trigger] stmts@[k],
                    state_after_statements(stmts@, k as nat, before),
                    outs@[k],
                ),
            st.model() == state_after_statements(stmts@, i as nat, before),
            pass_kept(
                before,
                st.model(),
                local_declarations_in(outs@, outs@.len(), before.signals),
            ),
        decreases stmts@.len() - i,
    {
        let ghost done = outs@;
        let out = stmts[i].renamed(st);
        outs.push(out);
        proof {
            lemma_local_declarations_in_prefix(done, outs@, i as nat, before.signals);
            assert(st.model().declared =~= before.declared + local_declarations_in(
                outs@,
                outs@.len(),
                before.signals,
            ));
        }
        i += 1;
    }
    outs
}

/// `report` is the report on `finding`.
pub open spec fn report_of(finding: Finding, report: Report) -> bool {
    &&& report.spec_category() == finding.category
    &&& report.spec_id() == if finding.category == MessageCategory::Error {
        "shadowing-signal"@
    } else {
        "shadowing-declaration"@
    }
    &&& report.spec_message() == if finding.category == MessageCategory::Error {
        "A local variable has the name of a signal."@
    } else {
        "A local variable has the name of a parameter and is renamed."@
    }
    &&& report.secondary().len() == 0
    &&& match finding.meta.file_id {
        Some(file_id) => {
            &&& report.primary().len() == 1
            &&& report.primary()[0].file_id == file_id
            &&& report.primary()[0].location == finding.meta.location
            &&& report.primary()[0].message@ == "declared here"@
        },
        None => report.primary().len() == 0,
    }
}

impl Finding {
    /// The report on this finding: an error `shadowing-signal` or a warning
    /// `shadowing-declaration`, with the declaration as its primary range
    /// where its file is known.
    pub fn to_report(&self) -> (report: Report)
        ensures
            report_of(*self, report),
    {
        let is_error = match self.category {
            MessageCategory::Error => true,
            _ => false,
        };
        let mut report = if is_error {
            Report::new(
                "shadowing-signal".to_owned(),
                self.category,
                "A local variable has the name of a signal.".to_owned(),
            )
        } else {
            Report::new(
                "shadowing-declaration".to_owned(),
                self.category,
                "A local variable has the name of a parameter and is renamed.".to_owned(),
            )
        };
        match self.meta.file_id {
            Some(file_id) => {
                report.add_primary(self.meta.location, file_id, "declared here".to_owned());
            },
            None => {},
        }
        report
    }
}

/// `names` as names of version 0.
fn names_from(names: &Vec<String>) -> (r: Vec<VariableName>)
    ensures
        names_of(r@) == source_names(names@),
{
    let mut r: Vec<VariableName> = Vec::new();
    let mut i: usize = 0;
    while i < names.len()
        invariant
            i <= names@.len(),
            r@.len() == i,
            forall|k: int| 0 <= k < i ==> r@[k]@ == (names@[k]@, 0usize),
        decreases names@.len() - i,
    {
        r.push(VariableName::from_name(names[i].clone()));
        i += 1;
    }
    r
}

/// Adds copies of `names` at the end of `list`.
fn extend_names(list: &mut Vec<VariableName>, names: &Vec<VariableName>)
    ensures
        names_of(final(list)@) == names_of(old(list)@) + names_of(names@),
{
    let mut i: usize = 0;
    while i < names.len()
        invariant
            i <= names@.len(),
            names_of(list@) == names_of(old(list)@) + names_of(names@).take(i as int),
        decreases names@.len() - i,
    {
        let copy = names[i].duplicate();
        proof {
            lemma_names_of_push(list@, copy);
        }
        list.push(copy);
        i += 1;
    }
}

/// `names` without repetitions.
fn distinct(names: &Vec<VariableName>) -> (r: Vec<VariableName>)
    ensures
        names_of(r@) == distinct_names(names_of(names@)),
{
    let mut r: Vec<VariableName> = Vec::new();
    let mut i: usize = 0;
    let ghost all = names_of(names@);
    while i < names.len()
        invariant
            i <= names@.len(),
            all == names_of(names@),
            names_of(r@) == distinct_names(all.take(i as int)),
        decreases names@.len() - i,
    {
        assert(all.take(i + 1).drop_last() =~= all.take(i as int));
        if !contains_name(&r, &names[i]) {
            let copy = names[i].duplicate();
            proof {
                lemma_names_of_push(r@, copy);
            }
            r.push(copy);
        }
        i += 1;
    }
    assert(all.take(i as int) =~= all);
    r
}

/// What the pass owes for the body `body` of a definition with the
/// parameters and signals of `param_data`: `out` is the body with its
/// variables renamed, `reports` are the reports on what was found, and the
/// parameters, the signals and the variables that `out` declares have
/// names of which no two are the same.
pub open spec fn unique_variables_ensured(
    body: Statement,
    param_data: ParameterData,
    out: Statement,
    reports: Seq<Report>,
) -> bool {
    let start = first_state(param_data, body);
    let end = state_after(body, start);
    &&& renamed_statement(body, start, out)
    &&& reports.len() == end.findings.len()
    &&& forall|i: int| 0 <= i < reports.len() ==> report_of(end.findings[i], #[trigger] reports[i])
    &&& end.declared == start.declared + local_declarations(out, start.signals)
    &&& end.declared.no_duplicates()
    &&& end.declared.len() <= usize::MAX
}

/// Rewrites the body of a definition so that the name of every local
/// variable is unique within the definition, and every use of a variable
/// has the name of the declaration that is in scope. The body itself is
/// left as it is; the rewritten body is handed back with the reports.
///
/// A variable with the name of a parameter is renamed and reported with a
/// warning. A variable with the name of a signal is reported as an error and
/// keeps its name.
pub fn ensure_unique_variables(body: &Statement, param_data: &ParameterData) -> (r: (
    Statement,
    ReportCollection,
))
    ensures
        unique_variables_ensured(*body, *param_data, r.0, r.1@),
{
    let params = names_from(&param_data.param_names);
    let mut signals = names_from(&param_data.input_signals);
    let outputs = names_from(&param_data.output_signals);
    extend_names(&mut signals, &outputs);
    collect_declarations(body, true, &mut signals);
    let mut others = names_from(&param_data.components);
    collect_declarations(body, false, &mut others);
    let mut taken = names_from(&param_data.param_names);
    extend_names(&mut taken, &signals);
    extend_names(&mut taken, &others);
    let declared = distinct(&taken);
    let mut scopes: Vec<Vec<(VariableName, VariableName)>> = Vec::new();
    scopes.push(Vec::new());
    let mut st = Renamer { params, signals, declared, scopes, findings: Vec::new() };
    let ghost start = first_state(*param_data, *body);
    proof {
        assert(st.model().scopes =~= seq![Seq::<(NameView, NameView)>::empty()]) by {
            assert(st.model().scopes[0] =~= Seq::<(NameView, NameView)>::empty());
        }
        assert(st.model().findings =~= Seq::<Finding>::empty());
        assert(st.model() == start);
        lemma_initial_state(
            start.params,
            start.signals,
            source_names(param_data.components@) + kept_declarations(*body),
        );
    }
    let out = body.renamed(&mut st);
    assert(st.model().declared.len() == st.declared.len());
    let mut reports: Vec<Report> = Vec::new();
    let mut i: usize = 0;
    while i < st.findings.len()
        invariant
            i <= st.findings@.len(),
            reports@.len() == i,
            forall|k: int| 0 <= k < i ==> report_of(st.findings@[k], #[trigger] reports@[k]),
        decreases st.findings@.len() - i,
    {
        let report = st.findings[i].to_report();
        reports.push(report);
        i += 1;
    }
    (out, reports)
}

/// No open scope renames a name to another one.
pub open spec fn renames_nothing(scopes: Seq<Renames>) -> bool {
    forall|i: int, j: int|
        0 <= i < scopes.len() && 0 <= j < scopes[i].len() ==> (#[trigger] scopes[i][j]).0
            == scopes[i][j].1
}

/// Where no scope renames a name to another one, every name refers to
/// itself.
pub proof fn lemma_renames_nothing(scopes: Seq<Renames>, name: NameView)
    requires
        renames_nothing(scopes),
    ensures
        resolved(scopes, name) == name,
    decreases scopes.len(),
{
    if scopes.len() > 0 {
        lemma_renamed_in_nothing(scopes.last(), name);
        assert forall|i: int, j: int|
            0 <= i < scopes.drop_last().len() && 0 <= j < scopes.drop_last()[i].len() implies (
        #[trigger] scopes.drop_last()[i][j]).0 == scopes.drop_last()[i][j].1 by {
            assert(scopes[i][j].0 == scopes[i][j].1);
        }
        lemma_renames_nothing(scopes.drop_last(), name);
    }
}

/// A scope of which every entry renames a name to itself renames `name`, if
/// at all, to itself.
proof fn lemma_renamed_in_nothing(scope: Renames, name: NameView)
    requires
        forall|j: int| 0 <= j < scope.len() ==> (#[trigger] scope[j]).0 == scope[j].1,
    ensures
        renamed_in(scope, name) is Some ==> renamed_in(scope, name) == Some(name),
    decreases scope.len(),
{
    if scope.len() > 0 {
        lemma_renamed_in_nothing(scope.drop_last(), name);
    }
}

/// Where no scope renames a name to another one, an expression is its own
/// renaming.
pub proof fn lemma_expression_is_kept(e: Expression, scopes: Seq<Renames>)
    requires
        renames_nothing(scopes),
    ensures
        renamed_expression(e, scopes, e),
    decreases e,
{
    match e {
        Expression::Number { .. } => {},
        Expression::Variable { name, access, .. } => {
            lemma_renames_nothing(scopes, name@);
            assert forall|i: int| 0 <= i < access@.len() implies renamed_access(
                #[trigger] access@[i],
                scopes,
                access@[i],
            ) by {
                lemma_access_is_kept(access@[i], scopes);
            }
        },
        Expression::InfixOp { lhe, rhe, .. } => {
            lemma_expression_is_kept(*lhe, scopes);
            lemma_expression_is_kept(*rhe, scopes);
        },
        Expression::PrefixOp { rhe, .. } => {
            lemma_expression_is_kept(*rhe, scopes);
        },
        Expression::ParallelOp { rhe, .. } => {
            lemma_expression_is_kept(*rhe, scopes);
        },
        Expression::InlineSwitchOp { cond, if_true, if_false, .. } => {
            lemma_expression_is_kept(*cond, scopes);
            lemma_expression_is_kept(*if_true, scopes);
            lemma_expression_is_kept(*if_false, scopes);
        },
        Expression::Call { args, .. } => {
            lemma_expressions_are_kept(args@, scopes);
        },
        Expression::AnonymousComponent { args, .. } => {
            lemma_expressions_are_kept(args@, scopes);
        },
        Expression::ArrayInLine { values, .. } => {
            lemma_expressions_are_kept(values@, scopes);
        },
        Expression::Tuple { values, .. } => {
            lemma_expressions_are_kept(values@, scopes);
        },
        Expression::UniformArray { value, dimension, .. } => {
            lemma_expression_is_kept(*value, scopes);
            lemma_expression_is_kept(*dimension, scopes);
        },
    }
}

/// Where no scope renames a name to another one, an access is its own
/// renaming.
pub proof fn lemma_access_is_kept(a: Access, scopes: Seq<Renames>)
    requires
        renames_nothing(scopes),
    ensures
        renamed_access(a, scopes, a),
    decreases a,
{
    match a {
        Access::ComponentAccess { .. } => {},
        Access::ArrayAccess { index } => {
            lemma_expression_is_kept(index, scopes);
        },
    }
}

/// Where no scope renames a name to another one, expressions are their own
/// renaming.
pub proof fn lemma_expressions_are_kept(es: Seq<Expression>, scopes: Seq<Renames>)
    requires
        renames_nothing(scopes),
    ensures
        renamed_expressions(es, scopes, es),
    decreases es,
{
    assert forall|i: int| 0 <= i < es.len() implies renamed_expression(
        #[trigger] es[i],
        scopes,
        es[i],
    ) by {
        lemma_expression_is_kept(es[i], scopes);
    }
}

/// The state in which a statement whose variables are unique already is
/// left as it is: nothing is renamed so far, the parameters and signals are
/// taken, and `more`, the variables that the statement declares, are neither
/// taken nor declared twice.
pub open spec fn keeps(st: RenameModel, more: Seq<NameView>) -> bool {
    &&& st.scopes.len() > 0
    &&& renames_nothing(st.scopes)
    &&& signals_taken(st)
    &&& forall|n: NameView| st.params.contains(n) ==> st.declared.contains(n)
    &&& (st.declared + more).no_duplicates()
}

/// What the variables of the first statements are is the beginning of what
/// the variables of all of them are.
pub proof fn lemma_local_declarations_in_grow(
    stmts: Seq<Statement>,
    i: nat,
    n: nat,
    signals: Seq<NameView>,
)
    requires
        i <= n <= stmts.len(),
    ensures
        local_declarations_in(stmts, i, signals).is_prefix_of(
            local_declarations_in(stmts, n, signals),
        ),
    decreases n,
{
    if i < n {
        lemma_local_declarations_in_grow(stmts, i, (n - 1) as nat, signals);
    }
}

/// A statement whose variables are unique already is its own renaming, and
/// nothing is found in it.
pub proof fn lemma_statement_is_kept(stmt: Statement, st: RenameModel)
    requires
        keeps(st, local_declarations(stmt, Seq::empty())),
    ensures
        renamed_statement(stmt, st, stmt),
        state_after(stmt, st).findings == st.findings,
        state_after(stmt, st).declared == st.declared + local_declarations(stmt, Seq::empty()),
        state_after(stmt, st).params == st.params,
        state_after(stmt, st).signals == st.signals,
        state_after(stmt, st).scopes.len() == st.scopes.len(),
        renames_nothing(state_after(stmt, st).scopes),
        signals_taken(state_after(stmt, st)),
        forall|n: NameView|
            st.params.contains(n) ==> state_after(stmt, st).declared.contains(n),
    decreases stmt, 0nat,
{
    let none = Seq::<NameView>::empty();
    let more = local_declarations(stmt, none);
    match stmt {
        Statement::Block { stmts, .. } => {
            let entered = RenameModel { scopes: st.scopes.push(Seq::empty()), ..st };
            assert(renames_nothing(entered.scopes)) by {
                assert forall|i: int, j: int|
                    0 <= i < entered.scopes.len() && 0 <= j < entered.scopes[i].len() implies (
                #[trigger] entered.scopes[i][j]).0 == entered.scopes[i][j].1 by {
                    if i < st.scopes.len() {
                        assert(st.scopes[i][j].0 == st.scopes[i][j].1);
                    }
                }
            }
            lemma_statements_are_kept(stmts@, stmts@.len(), entered);
            let inner = state_after_statements(stmts@, stmts@.len(), entered);
            assert(renames_nothing(inner.scopes.drop_last())) by {
                assert forall|i: int, j: int|
                    0 <= i < inner.scopes.drop_last().len() && 0 <= j
                        < inner.scopes.drop_last()[i].len() implies (
                #[trigger] inner.scopes.drop_last()[i][j]).0
                    == inner.scopes.drop_last()[i][j].1 by {
                    assert(inner.scopes[i][j].0 == inner.scopes[i][j].1);
                }
            }
        },
        Statement::InitializationBlock { initializations, .. } => {
            lemma_statements_are_kept(initializations@, initializations@.len(), st);
        },
        Statement::IfThenElse { cond, if_case, else_case, .. } => {
            lemma_expression_is_kept(cond, st.scopes);
            let first = local_declarations(*if_case, none);
            assert((st.declared + first).no_duplicates()) by {
                lemma_prefix_no_duplicates(st.declared + first, st.declared + more);
            }
            lemma_statement_is_kept(*if_case, st);
            match else_case {
                Some(else_case) => {
                    let middle = state_after(*if_case, st);
                    let second = local_declarations(*else_case, none);
                    assert(middle.declared + second =~= st.declared + more);
                    lemma_statement_is_kept(*else_case, middle);
                },
                None => {
                    assert(first + none =~= first);
                },
            }
        },
        Statement::While { cond, stmt: body, .. } => {
            lemma_expression_is_kept(cond, st.scopes);
            lemma_statement_is_kept(*body, st);
        },
        Statement::Return { value, .. } => {
            lemma_expression_is_kept(value, st.scopes);
        },
        Statement::Assert { arg, .. } => {
            lemma_expression_is_kept(arg, st.scopes);
        },
        Statement::LogCall { args, .. } => {
            lemma_expressions_are_kept(args@, st.scopes);
        },
        Statement::Declaration { meta, xtype, name, dimensions, .. } => {
            lemma_expressions_are_kept(dimensions@, st.scopes);
            if xtype is Var {
                let all = st.declared + more;
                assert(all[st.declared.len() as int] == name@);
                assert(!st.declared.contains(name@)) by {
                    if st.declared.contains(name@) {
                        let k = choose|k: int| 0 <= k < st.declared.len() && st.declared[k] == name@;
                        assert(all[k] == name@);
                    }
                }
                let after = state_after(stmt, st);
                assert(after.declared =~= st.declared + more);
                lemma_signals_stay_taken(st, after, more);
                assert(renames_nothing(after.scopes)) by {
                    assert forall|i: int, j: int|
                        0 <= i < after.scopes.len() && 0 <= j < after.scopes[i].len() implies (
                    #[trigger] after.scopes[i][j]).0 == after.scopes[i][j].1 by {
                        if i < st.scopes.len() - 1 {
                            assert(st.scopes[i][j].0 == st.scopes[i][j].1);
                        } else if j < st.scopes.last().len() {
                            assert(st.scopes[i][j].0 == st.scopes[i][j].1);
                        }
                    }
                }
                assert forall|n: NameView| st.params.contains(n) implies after.declared.contains(
                    n,
                ) by {
                    let k = choose|k: int| 0 <= k < st.declared.len() && st.declared[k] == n;
                    assert(after.declared[k] == n);
                }
            } else {
                assert(st.declared + more =~= st.declared);
            }
        },
        Statement::Substitution { var, access, rhe, .. } => {
            lemma_renames_nothing(st.scopes, var@);
            assert forall|i: int| 0 <= i < access@.len() implies renamed_access(
                #[trigger] access@[i],
                st.scopes,
                access@[i],
            ) by {
                lemma_access_is_kept(access@[i], st.scopes);
            }
            lemma_expression_is_kept(rhe, st.scopes);
        },
        Statement::MultiSubstitution { lhe, rhe, .. } => {
            lemma_expression_is_kept(lhe, st.scopes);
            lemma_expression_is_kept(rhe, st.scopes);
        },
        Statement::ConstraintEquality { lhe, rhe, .. } => {
            lemma_expression_is_kept(lhe, st.scopes);
            lemma_expression_is_kept(rhe, st.scopes);
        },
    }
}

/// The beginning of a list without repetitions has no repetitions.
pub proof fn lemma_prefix_no_duplicates(a: Seq<NameView>, b: Seq<NameView>)
    requires
        a.is_prefix_of(b),
        b.no_duplicates(),
    ensures
        a.no_duplicates(),
{
    assert forall|i: int, j: int| 0 <= i < a.len() && 0 <= j < a.len() && i != j implies a[i]
        != a[j] by {
        assert(a[i] == b[i] && a[j] == b[j]);
    }
}

/// The first `n` of statements whose variables are unique already are their
/// own renaming, and nothing is found in them.
pub proof fn lemma_statements_are_kept(stmts: Seq<Statement>, n: nat, st: RenameModel)
    requires
        n <= stmts.len(),
        keeps(st, local_declarations_in(stmts, stmts.len(), Seq::empty())),
    ensures
        forall|i: int|
            0 <= i < n ==> renamed_statement(
                #[trigger] stmts[i],
                state_after_statements(stmts, i as nat, st),
                stmts[i],
            ),
        state_after_statements(stmts, n, st).findings == st.findings,
        state_after_statements(stmts, n, st).declared == st.declared + local_declarations_in(
            stmts,
            n,
            Seq::empty(),
        ),
        state_after_statements(stmts, n, st).params == st.params,
        state_after_statements(stmts, n, st).signals == st.signals,
        state_after_statements(stmts, n, st).scopes.len() == st.scopes.len(),
        renames_nothing(state_after_statements(stmts, n, st).scopes),
        signals_taken(state_after_statements(stmts, n, st)),
        forall|name: NameView|
            st.params.contains(name) ==> state_after_statements(stmts, n, st).declared.contains(
                name,
            ),
    decreases stmts, n,
{
    let none = Seq::<NameView>::empty();
    if n == 0 {
        assert(st.declared + local_declarations_in(stmts, 0, none) =~= st.declared);
    } else {
        let k = (n - 1) as nat;
        lemma_statements_are_kept(stmts, k, st);
        let middle = state_after_statements(stmts, k, st);
        let all = st.declared + local_declarations_in(stmts, stmts.len(), none);
        let so_far = middle.declared + local_declarations(stmts[k as int], none);
        lemma_local_declarations_in_grow(stmts, n, stmts.len(), none);
        assert(so_far =~= st.declared + local_declarations_in(stmts, n, none));
        lemma_prefix_no_duplicates(so_far, all);
        lemma_statement_is_kept(stmts[k as int], middle);
    }
}

/// A body whose variables are unique already is left as it is.
///
/// Where the names that are taken at the start (those of the parameters,
/// the signals, and `others`, the components and buses) and the variables
/// that `body` declares have names of which no two are the same, the body
/// itself is what the pass hands back, up to how its strings are stored,
/// and the pass reports nothing.
pub proof fn lemma_unique_body_is_kept(
    body: Statement,
    params: Seq<NameView>,
    signals: Seq<NameView>,
    others: Seq<NameView>,
)
    requires
        (distinct_names(params + signals + others) + local_declarations(
            body,
            Seq::empty(),
        )).no_duplicates(),
    ensures
        renamed_statement(body, initial_state(params, signals, others), body),
        state_after(body, initial_state(params, signals, others)).findings == Seq::<
            Finding,
        >::empty(),
{
    let start = initial_state(params, signals, others);
    lemma_initial_state(params, signals, others);
    assert(start.scopes[0].len() == 0);
    lemma_statement_is_kept(body, start);
}

/// `out` is `e` itself, up to how its strings are stored: it is `e` with
/// every variable under its own name.
pub open spec fn same_expression(e: Expression, out: Expression) -> bool {
    renamed_expression(e, Seq::empty(), out)
}

/// `outs` are `es` themselves, one for one.
pub open spec fn same_expressions(es: Seq<Expression>, outs: Seq<Expression>) -> bool {
    renamed_expressions(es, Seq::empty(), outs)
}

/// `outs` are the accesses themselves, one for one.
pub open spec fn same_accesses(accesses: Seq<Access>, outs: Seq<Access>) -> bool {
    renamed_accesses(accesses, Seq::empty(), outs)
}

/// `out` is `stmt` itself, up to how its strings are stored: the same
/// statement, with the same metadata, operators, names and expressions.
pub open spec fn same_statement(stmt: Statement, out: Statement) -> bool
    decreases stmt,
{
    match stmt {
        Statement::Block { meta, stmts } => {
            &&& out matches Statement::Block { meta: m, stmts: o }
            &&& m == meta
            &&& o@.len() == stmts@.len()
            &&& forall|i: int|
                0 <= i < stmts@.len() ==> same_statement(#[trigger] stmts@[i], o@[i])
        },
        Statement::InitializationBlock { meta, xtype, initializations } => {
            &&& out matches Statement::InitializationBlock { meta: m, xtype: x, initializations: o }
            &&& m == meta
            &&& x == xtype
            &&& o@.len() == initializations@.len()
            &&& forall|i: int|
                0 <= i < initializations@.len() ==> same_statement(
                    #[trigger] initializations@[i],
                    o@[i],
                )
        },
        Statement::IfThenElse { meta, cond, if_case, else_case } => {
            &&& out matches Statement::IfThenElse { meta: m, cond: c, if_case: i, else_case: e }
            &&& m == meta
            &&& same_expression(cond, c)
            &&& same_statement(*if_case, *i)
            &&& match else_case {
                Some(else_case) => e matches Some(x) && same_statement(*else_case, *x),
                None => e is None,
            }
        },
        Statement::While { meta, cond, stmt: body } => {
            &&& out matches Statement::While { meta: m, cond: c, stmt: b }
            &&& m == meta
            &&& same_expression(cond, c)
            &&& same_statement(*body, *b)
        },
        Statement::Return { meta, value } => {
            &&& out matches Statement::Return { meta: m, value: v }
            &&& m == meta
            &&& same_expression(value, v)
        },
        Statement::Assert { meta, arg } => {
            &&& out matches Statement::Assert { meta: m, arg: a }
            &&& m == meta
            &&& same_expression(arg, a)
        },
        Statement::LogCall { meta, args } => {
            &&& out matches Statement::LogCall { meta: m, args: a }
            &&& m == meta
            &&& same_expressions(args@, a@)
        },
        Statement::Declaration { meta, xtype, name, dimensions, is_constant } => {
            &&& out matches Statement::Declaration {
                meta: m,
                xtype: x,
                name: n,
                dimensions: d,
                is_constant: c,
            }
            &&& m == meta
            &&& x == xtype
            &&& c == is_constant
            &&& n@ == name@
            &&& same_expressions(dimensions@, d@)
        },
        Statement::Substitution { meta, var, access, op, rhe } => {
            &&& out matches Statement::Substitution { meta: m, var: v, access: a, op: o, rhe: h }
            &&& m == meta
            &&& v@ == var@
            &&& same_accesses(access@, a@)
            &&& o == op
            &&& same_expression(rhe, h)
        },
        Statement::MultiSubstitution { meta, lhe, op, rhe } => {
            &&& out matches Statement::MultiSubstitution { meta: m, lhe: l, op: o, rhe: h }
            &&& m == meta
            &&& same_expression(lhe, l)
            &&& o == op
            &&& same_expression(rhe, h)
        },
        Statement::ConstraintEquality { meta, lhe, rhe } => {
            &&& out matches Statement::ConstraintEquality { meta: m, lhe: l, rhe: h }
            &&& m == meta
            &&& same_expression(lhe, l)
            &&& same_expression(rhe, h)
        },
    }
}

/// Where no scope renames a name to another one, a renamed expression is
/// the expression itself.
pub proof fn lemma_renamed_expression_is_same(e: Expression, scopes: Seq<Renames>, out: Expression)
    requires
        renames_nothing(scopes),
        renamed_expression(e, scopes, out),
    ensures
        same_expression(e, out),
    decreases e,
{
    match e {
        Expression::Number { .. } => {},
        Expression::Variable { name, access, .. } => {
            lemma_renames_nothing(scopes, name@);
            let a = out->Variable_access;
            assert forall|i: int| 0 <= i < access@.len() implies renamed_access(
                #[trigger] access@[i],
                Seq::empty(),
                a@[i],
            ) by {
                lemma_renamed_access_is_same(access@[i], scopes, a@[i]);
            }
        },
        Expression::InfixOp { lhe, rhe, .. } => {
            lemma_renamed_expression_is_same(*lhe, scopes, *out->InfixOp_lhe);
            lemma_renamed_expression_is_same(*rhe, scopes, *out->InfixOp_rhe);
        },
        Expression::PrefixOp { rhe, .. } => {
            lemma_renamed_expression_is_same(*rhe, scopes, *out->PrefixOp_rhe);
        },
        Expression::ParallelOp { rhe, .. } => {
            lemma_renamed_expression_is_same(*rhe, scopes, *out->ParallelOp_rhe);
        },
        Expression::InlineSwitchOp { cond, if_true, if_false, .. } => {
            lemma_renamed_expression_is_same(*cond, scopes, *out->InlineSwitchOp_cond);
            lemma_renamed_expression_is_same(*if_true, scopes, *out->InlineSwitchOp_if_true);
            lemma_renamed_expression_is_same(*if_false, scopes, *out->InlineSwitchOp_if_false);
        },
        Expression::Call { args, .. } => {
            lemma_renamed_expressions_are_same(args@, scopes, out->Call_args@);
        },
        Expression::AnonymousComponent { args, .. } => {
            lemma_renamed_expressions_are_same(args@, scopes, out->AnonymousComponent_args@);
        },
        Expression::ArrayInLine { values, .. } => {
            lemma_renamed_expressions_are_same(values@, scopes, out->ArrayInLine_values@);
        },
        Expression::Tuple { values, .. } => {
            lemma_renamed_expressions_are_same(values@, scopes, out->Tuple_values@);
        },
        Expression::UniformArray { value, dimension, .. } => {
            lemma_renamed_expression_is_same(*value, scopes, *out->UniformArray_value);
            lemma_renamed_expression_is_same(*dimension, scopes, *out->UniformArray_dimension);
        },
    }
}

/// Where no scope renames a name to another one, a renamed access is the
/// access itself.
pub proof fn lemma_renamed_access_is_same(a: Access, scopes: Seq<Renames>, out: Access)
    requires
        renames_nothing(scopes),
        renamed_access(a, scopes, out),
    ensures
        renamed_access(a, Seq::empty(), out),
    decreases a,
{
    match a {
        Access::ComponentAccess { .. } => {},
        Access::ArrayAccess { index } => {
            lemma_renamed_expression_is_same(index, scopes, out->index);
        },
    }
}

/// Where no scope renames a name to another one, renamed expressions are
/// the expressions themselves.
pub proof fn lemma_renamed_expressions_are_same(
    es: Seq<Expression>,
    scopes: Seq<Renames>,
    outs: Seq<Expression>,
)
    requires
        renames_nothing(scopes),
        renamed_expressions(es, scopes, outs),
    ensures
        same_expressions(es, outs),
    decreases es,
{
    assert forall|i: int| 0 <= i < es.len() implies renamed_expression(
        #[trigger] es[i],
        Seq::empty(),
        outs[i],
    ) by {
        lemma_renamed_expression_is_same(es[i], scopes, outs[i]);
    }
}

/// Where no scope renames a name to another one, renamed accesses are the
/// accesses themselves.
pub proof fn lemma_renamed_accesses_are_same(
    accesses: Seq<Access>,
    scopes: Seq<Renames>,
    outs: Seq<Access>,
)
    requires
        renames_nothing(scopes),
        renamed_accesses(accesses, scopes, outs),
    ensures
        same_accesses(accesses, outs),
{
    assert forall|i: int| 0 <= i < accesses.len() implies renamed_access(
        #[trigger] accesses[i],
        Seq::empty(),
        outs[i],
    ) by {
        lemma_renamed_access_is_same(accesses[i], scopes, outs[i]);
    }
}

/// Before each of statements whose variables are unique already, the pass is
/// in a state in which that statement is left as it is.
pub proof fn lemma_keeps_before_each(stmts: Seq<Statement>, i: nat, st: RenameModel)
    requires
        i < stmts.len(),
        keeps(st, local_declarations_in(stmts, stmts.len(), Seq::empty())),
    ensures
        keeps(
            state_after_statements(stmts, i, st),
            local_declarations(stmts[i as int], Seq::empty()),
        ),
{
    let none = Seq::<NameView>::empty();
    lemma_statements_are_kept(stmts, i, st);
    let middle = state_after_statements(stmts, i, st);
    let all = st.declared + local_declarations_in(stmts, stmts.len(), none);
    let so_far = middle.declared + local_declarations(stmts[i as int], none);
    lemma_local_declarations_in_grow(stmts, i + 1, stmts.len(), none);
    assert(so_far =~= st.declared + local_declarations_in(stmts, i + 1, none));
    assert(so_far.is_prefix_of(all));
    lemma_prefix_no_duplicates(so_far, all);
}

/// What the pass makes of a statement whose variables are unique already is
/// the statement itself.
pub proof fn lemma_renamed_statement_is_same(stmt: Statement, st: RenameModel, out: Statement)
    requires
        keeps(st, local_declarations(stmt, Seq::empty())),
        renamed_statement(stmt, st, out),
    ensures
        same_statement(stmt, out),
    decreases stmt,
{
    let none = Seq::<NameView>::empty();
    let more = local_declarations(stmt, none);
    match stmt {
        Statement::Block { stmts, .. } => {
            let entered = RenameModel { scopes: st.scopes.push(Seq::empty()), ..st };
            assert(renames_nothing(entered.scopes)) by {
                assert forall|i: int, j: int|
                    0 <= i < entered.scopes.len() && 0 <= j < entered.scopes[i].len() implies (
                #[trigger] entered.scopes[i][j]).0 == entered.scopes[i][j].1 by {
                    if i < st.scopes.len() {
                        assert(st.scopes[i][j].0 == st.scopes[i][j].1);
                    }
                }
            }
            let o = out->Block_stmts;
            assert forall|i: int| 0 <= i < stmts@.len() implies same_statement(
                #[trigger] stmts@[i],
                o@[i],
            ) by {
                lemma_keeps_before_each(stmts@, i as nat, entered);
                lemma_renamed_statement_is_same(
                    stmts@[i],
                    state_after_statements(stmts@, i as nat, entered),
                    o@[i],
                );
            }
        },
        Statement::InitializationBlock { initializations, .. } => {
            let o = out->InitializationBlock_initializations;
            assert forall|i: int| 0 <= i < initializations@.len() implies same_statement(
                #[trigger] initializations@[i],
                o@[i],
            ) by {
                lemma_keeps_before_each(initializations@, i as nat, st);
                lemma_renamed_statement_is_same(
                    initializations@[i],
                    state_after_statements(initializations@, i as nat, st),
                    o@[i],
                );
            }
        },
        Statement::IfThenElse { cond, if_case, else_case, .. } => {
            lemma_renamed_expression_is_same(cond, st.scopes, out->IfThenElse_cond);
            let first = local_declarations(*if_case, none);
            assert((st.declared + first).is_prefix_of(st.declared + more));
            lemma_prefix_no_duplicates(st.declared + first, st.declared + more);
            lemma_renamed_statement_is_same(*if_case, st, *out->IfThenElse_if_case);
            match else_case {
                Some(else_case) => {
                    lemma_statement_is_kept(*if_case, st);
                    let middle = state_after(*if_case, st);
                    let second = local_declarations(*else_case, none);
                    assert(middle.declared + second =~= st.declared + more);
                    lemma_renamed_statement_is_same(
                        *else_case,
                        middle,
                        *out->IfThenElse_else_case->0,
                    );
                },
                None => {},
            }
        },
        Statement::While { cond, stmt: body, .. } => {
            lemma_renamed_expression_is_same(cond, st.scopes, out->While_cond);
            lemma_renamed_statement_is_same(*body, st, *out->While_stmt);
        },
        Statement::Return { value, .. } => {
            lemma_renamed_expression_is_same(value, st.scopes, out->Return_value);
        },
        Statement::Assert { arg, .. } => {
            lemma_renamed_expression_is_same(arg, st.scopes, out->Assert_arg);
        },
        Statement::LogCall { args, .. } => {
            lemma_renamed_expressions_are_same(args@, st.scopes, out->LogCall_args@);
        },
        Statement::Declaration { xtype, name, dimensions, .. } => {
            lemma_renamed_expressions_are_same(
                dimensions@,
                st.scopes,
                out->Declaration_dimensions@,
            );
            if xtype is Var {
                let all = st.declared + more;
                assert(more =~= seq![name@]);
                assert(all[st.declared.len() as int] == name@);
                if st.declared.contains(name@) {
                    let k = choose|k: int| 0 <= k < st.declared.len() && st.declared[k] == name@;
                    assert(all[k] == name@);
                }
            }
        },
        Statement::Substitution { var, access, rhe, .. } => {
            lemma_renames_nothing(st.scopes, var@);
            lemma_renamed_accesses_are_same(access@, st.scopes, out->Substitution_access@);
            lemma_renamed_expression_is_same(rhe, st.scopes, out->Substitution_rhe);
        },
        Statement::MultiSubstitution { lhe, rhe, .. } => {
            lemma_renamed_expression_is_same(lhe, st.scopes, out->MultiSubstitution_lhe);
            lemma_renamed_expression_is_same(rhe, st.scopes, out->MultiSubstitution_rhe);
        },
        Statement::ConstraintEquality { lhe, rhe, .. } => {
            lemma_renamed_expression_is_same(lhe, st.scopes, out->ConstraintEquality_lhe);
            lemma_renamed_expression_is_same(rhe, st.scopes, out->ConstraintEquality_rhe);
        },
    }
}

/// A body whose variables are unique already comes out of the pass as it
/// went in.
///
/// Where the names that are taken at the start (those of the parameters,
/// the signals, and `others`, the components and buses) and the variables
/// that `body` declares have names of which no two are the same, whatever
/// the pass makes of `body` is `body` itself, up to how its strings are
/// stored: no declaration and no use is renamed.
pub proof fn lemma_unique_body_comes_out_the_same(
    body: Statement,
    params: Seq<NameView>,
    signals: Seq<NameView>,
    others: Seq<NameView>,
    out: Statement,
)
    requires
        (distinct_names(params + signals + others) + local_declarations(
            body,
            Seq::empty(),
        )).no_duplicates(),
        renamed_statement(body, initial_state(params, signals, others), out),
    ensures
        same_statement(body, out),
{
    let start = initial_state(params, signals, others);
    lemma_initial_state(params, signals, others);
    assert(start.scopes[0].len() == 0);
    lemma_renamed_statement_is_same(body, start, out);
}

/// Some finding is an error.
pub open spec fn has_error(findings: Seq<Finding>) -> bool {
    exists|i: int|
        0 <= i < findings.len() && (#[trigger] findings[i]).category == MessageCategory::Error
}

/// What no statement changes: the parameters and the signals stay, and what
/// was taken and what was found stays, with more behind it.
pub proof fn lemma_state_after_frame(stmt: Statement, st: RenameModel)
    ensures
        state_after(stmt, st).params == st.params,
        state_after(stmt, st).signals == st.signals,
        st.declared.is_prefix_of(state_after(stmt, st).declared),
        st.findings.is_prefix_of(state_after(stmt, st).findings),
    decreases stmt, 0nat,
{
    match stmt {
        Statement::Block { stmts, .. } => {
            let entered = RenameModel { scopes: st.scopes.push(Seq::empty()), ..st };
            lemma_state_after_statements_frame(stmts@, 0, stmts@.len(), entered);
        },
        Statement::InitializationBlock { initializations, .. } => {
            lemma_state_after_statements_frame(initializations@, 0, initializations@.len(), st);
        },
        Statement::IfThenElse { if_case, else_case, .. } => {
            lemma_state_after_frame(*if_case, st);
            match else_case {
                Some(else_case) => {
                    lemma_state_after_frame(*else_case, state_after(*if_case, st));
                },
                None => {},
            }
        },
        Statement::While { stmt: body, .. } => {
            lemma_state_after_frame(*body, st);
        },
        _ => {},
    }
}

/// What no run of statements changes: between the first `i` and the first
/// `n` of them, the parameters and the signals stay, and what was taken and
/// what was found stays, with more behind it.
pub proof fn lemma_state_after_statements_frame(
    stmts: Seq<Statement>,
    i: nat,
    n: nat,
    st: RenameModel,
)
    requires
        i <= n <= stmts.len(),
    ensures
        state_after_statements(stmts, n, st).params == state_after_statements(stmts, i, st).params,
        state_after_statements(stmts, n, st).signals == state_after_statements(
            stmts,
            i,
            st,
        ).signals,
        state_after_statements(stmts, i, st).declared.is_prefix_of(
            state_after_statements(stmts, n, st).declared,
        ),
        state_after_statements(stmts, i, st).findings.is_prefix_of(
            state_after_statements(stmts, n, st).findings,
        ),
    decreases stmts, n,
{
    if i < n {
        lemma_state_after_statements_frame(stmts, i, (n - 1) as nat, st);
        lemma_state_after_frame(stmts[n - 1], state_after_statements(stmts, (n - 1) as nat, st));
    }
}

/// An error that was found stays found.
pub proof fn lemma_error_stays(before: Seq<Finding>, after: Seq<Finding>)
    requires
        before.is_prefix_of(after),
        has_error(before),
    ensures
        has_error(after),
{
    let i = choose|i: int|
        0 <= i < before.len() && (#[trigger] before[i]).category == MessageCategory::Error;
    assert(after[i].category == MessageCategory::Error);
}

/// Signals that are taken stay taken where what is taken stays.
pub proof fn lemma_signals_taken_later(before: RenameModel, after: RenameModel)
    requires
        signals_taken(before),
        after.signals == before.signals,
        before.declared.is_prefix_of(after.declared),
    ensures
        signals_taken(after),
{
    assert forall|n: NameView| after.signals.contains(n) implies after.declared.contains(n) by {
        let k = choose|k: int| 0 <= k < before.declared.len() && before.declared[k] == n;
        assert(after.declared[k] == n);
    }
}

/// What the pass leaves as it is: the signals, components and buses that
/// the output declares are those that the statement declares, under their
/// names. And where the pass finds no error, no variable of the output has
/// the name of a signal.
pub proof fn lemma_names_that_stay(stmt: Statement, st: RenameModel, out: Statement)
    requires
        renamed_statement(stmt, st, out),
        signals_taken(st),
        !has_error(state_after(stmt, st).findings),
        state_after(stmt, st).declared.len() <= usize::MAX,
    ensures
        declarations_of_kind(out, true) == declarations_of_kind(stmt, true),
        declarations_of_kind(out, false) == declarations_of_kind(stmt, false),
        local_declarations(out, st.signals) == local_declarations(out, Seq::empty()),
    decreases stmt, 0nat,
{
    let after = state_after(stmt, st);
    match stmt {
        Statement::Block { stmts, .. } => {
            let entered = RenameModel { scopes: st.scopes.push(Seq::empty()), ..st };
            lemma_names_that_stay_in(stmts@, out->Block_stmts@, stmts@.len(), entered);
        },
        Statement::InitializationBlock { initializations, .. } => {
            lemma_names_that_stay_in(
                initializations@,
                out->InitializationBlock_initializations@,
                initializations@.len(),
                st,
            );
        },
        Statement::IfThenElse { if_case, else_case, .. } => {
            let middle = state_after(*if_case, st);
            lemma_state_after_frame(*if_case, st);
            match else_case {
                Some(else_case) => {
                    lemma_state_after_frame(*else_case, middle);
                    if has_error(middle.findings) {
                        lemma_error_stays(middle.findings, after.findings);
                    }
                    lemma_signals_taken_later(st, middle);
                    lemma_names_that_stay(*if_case, st, *out->IfThenElse_if_case);
                    lemma_names_that_stay(*else_case, middle, *out->IfThenElse_else_case->0);
                },
                None => {
                    lemma_names_that_stay(*if_case, st, *out->IfThenElse_if_case);
                },
            }
        },
        Statement::While { stmt: body, .. } => {
            lemma_names_that_stay(*body, st, *out->While_stmt);
        },
        Statement::Declaration { meta, xtype, name, .. } => {
            let n = out->Declaration_name@;
            if xtype is Var {
                if st.signals.contains(name@) {
                    assert(after.findings[st.findings.len() as int].category
                        == MessageCategory::Error);
                } else {
                    lemma_unique_name_is_free(st.declared, name@);
                    assert(local_declarations(out, st.signals) =~= seq![n]);
                }
            }
        },
        _ => {},
    }
}

/// What the pass leaves as it is in the first `n` of a run of statements.
pub proof fn lemma_names_that_stay_in(
    stmts: Seq<Statement>,
    outs: Seq<Statement>,
    n: nat,
    st: RenameModel,
)
    requires
        n <= stmts.len() == outs.len(),
        forall|i: int|
            0 <= i < stmts.len() ==> renamed_statement(
                #[trigger] stmts[i],
                state_after_statements(stmts, i as nat, st),
                outs[i],
            ),
        signals_taken(st),
        !has_error(state_after_statements(stmts, stmts.len(), st).findings),
        state_after_statements(stmts, stmts.len(), st).declared.len() <= usize::MAX,
    ensures
        declarations_of_kind_in(outs, n, true) == declarations_of_kind_in(stmts, n, true),
        declarations_of_kind_in(outs, n, false) == declarations_of_kind_in(stmts, n, false),
        local_declarations_in(outs, n, st.signals) == local_declarations_in(outs, n, Seq::empty()),
    decreases stmts, n,
{
    if n > 0 {
        let k = (n - 1) as nat;
        lemma_names_that_stay_in(stmts, outs, k, st);
        let middle = state_after_statements(stmts, k, st);
        let next = state_after_statements(stmts, n, st);
        let last = state_after_statements(stmts, stmts.len(), st);
        lemma_state_after_statements_frame(stmts, 0, k, st);
        lemma_state_after_statements_frame(stmts, n, stmts.len(), st);
        lemma_signals_taken_later(st, middle);
        if has_error(next.findings) {
            lemma_error_stays(next.findings, last.findings);
        }
        lemma_names_that_stay(stmts[k as int], middle, outs[k as int]);
    }
}

/// The names of three lists, as a multiset.
pub open spec fn names_together(
    variables: Seq<NameView>,
    signals: Seq<NameView>,
    others: Seq<NameView>,
) -> vstd::multiset::Multiset<NameView> {
    variables.to_multiset().add(signals.to_multiset()).add(others.to_multiset())
}

/// Every declaration of a statement declares a variable, a signal, or a
/// component or bus: the names that the statement declares are those of its
/// variables, its signals and its components and buses together, each as
/// often.
pub proof fn lemma_declarations_split(stmt: Statement)
    ensures
        declarations_in(stmt).to_multiset() == names_together(
            local_declarations(stmt, Seq::empty()),
            declarations_of_kind(stmt, true),
            declarations_of_kind(stmt, false),
        ),
    decreases stmt, 0nat,
{
    broadcast use vstd::multiset::group_multiset_axioms;
    broadcast use vstd::seq_lib::group_to_multiset_ensures;

    let none = Seq::<NameView>::empty();
    let together = names_together(
        local_declarations(stmt, none),
        declarations_of_kind(stmt, true),
        declarations_of_kind(stmt, false),
    );
    match stmt {
        Statement::Block { stmts, .. } => {
            lemma_declarations_split_in(stmts@, stmts@.len());
        },
        Statement::InitializationBlock { initializations, .. } => {
            lemma_declarations_split_in(initializations@, initializations@.len());
        },
        Statement::IfThenElse { if_case, else_case, .. } => {
            lemma_declarations_split(*if_case);
            match else_case {
                Some(else_case) => {
                    lemma_declarations_split(*else_case);
                    vstd::seq_lib::lemma_multiset_commutative(
                        declarations_in(*if_case),
                        declarations_in(*else_case),
                    );
                    vstd::seq_lib::lemma_multiset_commutative(
                        local_declarations(*if_case, none),
                        local_declarations(*else_case, none),
                    );
                    vstd::seq_lib::lemma_multiset_commutative(
                        declarations_of_kind(*if_case, true),
                        declarations_of_kind(*else_case, true),
                    );
                    vstd::seq_lib::lemma_multiset_commutative(
                        declarations_of_kind(*if_case, false),
                        declarations_of_kind(*else_case, false),
                    );
                },
                None => {
                    assert(declarations_in(stmt) =~= declarations_in(*if_case));
                    assert(local_declarations(stmt, none) =~= local_declarations(*if_case, none));
                    assert(declarations_of_kind(stmt, true) =~= declarations_of_kind(
                        *if_case,
                        true,
                    ));
                    assert(declarations_of_kind(stmt, false) =~= declarations_of_kind(
                        *if_case,
                        false,
                    ));
                },
            }
            assert(declarations_in(stmt).to_multiset() =~= together);
        },
        Statement::While { stmt: body, .. } => {
            lemma_declarations_split(*body);
        },
        Statement::Declaration { name, .. } => {
            assert(seq![name@] =~= none.push(name@));
            assert(declarations_in(stmt).to_multiset() =~= together);
        },
        _ => {
            assert(declarations_in(stmt).to_multiset() =~= together);
        },
    }
}

/// The names that the first `n` of a run of statements declare are those of
/// their variables, signals, components and buses together.
pub proof fn lemma_declarations_split_in(stmts: Seq<Statement>, n: nat)
    requires
        n <= stmts.len(),
    ensures
        declarations_in_first(stmts, n).to_multiset() == names_together(
            local_declarations_in(stmts, n, Seq::empty()),
            declarations_of_kind_in(stmts, n, true),
            declarations_of_kind_in(stmts, n, false),
        ),
    decreases stmts, n,
{
    broadcast use vstd::multiset::group_multiset_axioms;
    broadcast use vstd::seq_lib::group_to_multiset_ensures;

    let none = Seq::<NameView>::empty();
    let together = names_together(
        local_declarations_in(stmts, n, none),
        declarations_of_kind_in(stmts, n, true),
        declarations_of_kind_in(stmts, n, false),
    );
    if n > 0 {
        let k = (n - 1) as nat;
        let last = stmts[k as int];
        lemma_declarations_split_in(stmts, k);
        lemma_declarations_split(last);
        vstd::seq_lib::lemma_multiset_commutative(declarations_in_first(stmts, k), declarations_in(last));
        vstd::seq_lib::lemma_multiset_commutative(
            local_declarations_in(stmts, k, none),
            local_declarations(last, none),
        );
        vstd::seq_lib::lemma_multiset_commutative(
            declarations_of_kind_in(stmts, k, true),
            declarations_of_kind(last, true),
        );
        vstd::seq_lib::lemma_multiset_commutative(
            declarations_of_kind_in(stmts, k, false),
            declarations_of_kind(last, false),
        );
    }
    assert(declarations_in_first(stmts, n).to_multiset() =~= together);
}

/// No two declarations of the rewritten body have the same name, where the
/// pass can see to it.
///
/// The pass gives every variable a name that no parameter, signal,
/// component, bus or other variable has. The names of the signals,
/// components and buses it leaves as they are. So where the pass finds no
/// error, and no parameter, signal, component or bus of `body` has the name
/// of another, the parameters and the declarations of `out` have names of
/// which no two are the same.
pub proof fn lemma_declared_names_differ(
    body: Statement,
    param_data: ParameterData,
    out: Statement,
    reports: Seq<Report>,
)
    requires
        unique_variables_ensured(body, param_data, out, reports),
        !has_error(state_after(body, first_state(param_data, body)).findings),
        (param_data.params() + signal_declarations(body) + kept_declarations(
            body,
        )).no_duplicates(),
    ensures
        (param_data.params() + declarations_in(out)).no_duplicates(),
{
    broadcast use vstd::multiset::group_multiset_axioms;
    broadcast use vstd::seq_lib::group_to_multiset_ensures;

    let start = first_state(param_data, body);
    let params = param_data.params();
    let signals = signal_declarations(body);
    let others = kept_declarations(body);
    let variables = local_declarations(out, Seq::empty());
    let fixed = params + signals + others;
    let names = params + declarations_in(out);
    lemma_initial_state(
        params,
        param_data.signals() + signals,
        source_names(param_data.components@) + others,
    );
    lemma_names_that_stay(body, start, out);
    lemma_declarations_split(out);
    vstd::seq_lib::lemma_multiset_commutative(params, declarations_in(out));
    vstd::seq_lib::lemma_multiset_commutative(params + signals, others);
    vstd::seq_lib::lemma_multiset_commutative(params, signals);
    vstd::seq_lib::lemma_multiset_commutative(start.declared, variables);
    fixed.lemma_multiset_has_no_duplicates();
    (start.declared + variables).lemma_multiset_has_no_duplicates();
    assert forall|x: NameView| names.to_multiset().contains(x) implies names.to_multiset().count(
        x,
    ) == 1 by {
        assert(names.to_multiset().count(x) == fixed.to_multiset().count(x)
            + variables.to_multiset().count(x));
        if variables.to_multiset().count(x) > 0 {
            assert((start.declared + variables).to_multiset().contains(x));
            assert(!start.declared.contains(x));
            let all_signals = param_data.signals() + signals;
            let all_others = source_names(param_data.components@) + others;
            if signals.contains(x) {
                let k = choose|k: int| 0 <= k < signals.len() && signals[k] == x;
                assert(all_signals[param_data.signals().len() + k] == x);
                assert(all_signals.contains(x));
            }
            if others.contains(x) {
                let k = choose|k: int| 0 <= k < others.len() && others[k] == x;
                assert(all_others[param_data.components@.len() + k] == x);
                assert(all_others.contains(x));
            }
            if fixed.contains(x) {
                let k = choose|k: int| 0 <= k < fixed.len() && fixed[k] == x;
                if k < params.len() {
                    assert(params[k] == x);
                    assert(params.contains(x));
                } else if k < params.len() + signals.len() {
                    assert(signals[k - params.len()] == x);
                    assert(signals.contains(x));
                } else {
                    assert(others[k - params.len() - signals.len()] == x);
                    assert(others.contains(x));
                }
            }
            assert(!fixed.contains(x));
        }
    }
    names.lemma_multiset_has_no_duplicates_conv();
}

} // verus!
