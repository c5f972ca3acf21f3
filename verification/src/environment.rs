//! The scoped symbol table that lowering resolves names against.

use crate::ast::{NameView, VariableName, VariableType};
use crate::errors::CFGError;
use crate::ir::Declaration;
use vstd::prelude::*;

verus! {

/// What one scope declares, oldest first.
pub type Scope = Seq<(NameView, VariableType)>;

/// The kind that `scope` declares `name` with, if it declares it.
pub open spec fn scope_kind(scope: Scope, name: NameView) -> Option<VariableType>
    decreases scope.len(),
{
    if scope.len() == 0 {
        None
    } else if scope.last().0 == name {
        Some(scope.last().1)
    } else {
        scope_kind(scope.drop_last(), name)
    }
}

/// The kind of `name` where `scopes` are open: that of the innermost scope
/// that declares it.
pub open spec fn visible_kind(scopes: Seq<Scope>, name: NameView) -> Option<VariableType>
    decreases scopes.len(),
{
    if scopes.len() == 0 {
        None
    } else {
        match scope_kind(scopes.last(), name) {
            Some(kind) => Some(kind),
            None => visible_kind(scopes.drop_last(), name),
        }
    }
}

/// The scopes after a declaration of `name` in the innermost one, or the
/// error if that scope declares `name` already.
pub open spec fn declared_in(scopes: Seq<Scope>, name: NameView, kind: VariableType) -> Result<
    Seq<Scope>,
    CFGError,
>
    recommends
        scopes.len() > 0,
{
    if scope_kind(scopes.last(), name) is Some {
        Err(CFGError::DuplicateDeclaration)
    } else {
        Ok(scopes.drop_last().push(scopes.last().push((name, kind))))
    }
}

/// The names that the declarations `all` hold.
pub open spec fn declared_names(all: Seq<Declaration>) -> Set<NameView> {
    Set::new(|name: NameView| exists|i: int| 0 <= i < all.len() && (#[trigger] all[i]).name@ == name)
}

/// A name with a kind is declared by the scope.
pub proof fn lemma_scope_kind_witness(scope: Scope, name: NameView) -> (i: int)
    requires
        scope_kind(scope, name) is Some,
    ensures
        0 <= i < scope.len(),
        scope[i] == (name, scope_kind(scope, name)->0),
    decreases scope.len(),
{
    if scope.last().0 == name {
        scope.len() - 1
    } else {
        lemma_scope_kind_witness(scope.drop_last(), name)
    }
}

/// A visible name is declared by one of the open scopes.
pub proof fn lemma_visible_kind_witness(scopes: Seq<Scope>, name: NameView) -> (at: (int, int))
    requires
        visible_kind(scopes, name) is Some,
    ensures
        0 <= at.0 < scopes.len(),
        0 <= at.1 < scopes[at.0].len(),
        scopes[at.0][at.1] == (name, visible_kind(scopes, name)->0),
    decreases scopes.len(),
{
    if scope_kind(scopes.last(), name) is Some {
        let j = lemma_scope_kind_witness(scopes.last(), name);
        (scopes.len() - 1, j)
    } else {
        lemma_visible_kind_witness(scopes.drop_last(), name)
    }
}

/// A stack of scopes, and every declaration that was ever recorded.
#[derive(Debug)]
pub struct IREnvironment {
    /// For each open scope, the positions in `declarations` of what it
    /// declares.
    scopes: Vec<Vec<usize>>,
    declarations: Vec<Declaration>,
}

impl IREnvironment {
    /// The open scopes, outermost first.
    pub closed spec fn scopes(&self) -> Seq<Scope> {
        Seq::new(
            self.scopes@.len(),
            |i: int|
                Seq::new(
                    self.scopes@[i]@.len(),
                    |j: int|
                        (
                            self.declarations@[self.scopes@[i]@[j] as int].name@,
                            self.declarations@[self.scopes@[i]@[j] as int].xtype,
                        ),
                ),
        )
    }

    /// Every declaration recorded so far, oldest first.
    pub closed spec fn declarations(&self) -> Seq<Declaration> {
        self.declarations@
    }

    /// There is an open scope, and each scope refers to recorded
    /// declarations.
    pub closed spec fn well_formed(&self) -> bool {
        &&& self.scopes@.len() > 0
        &&& forall|i: int, j: int|
            0 <= i < self.scopes@.len() && 0 <= j < self.scopes@[i]@.len()
                ==> #[trigger] self.scopes@[i]@[j] < self.declarations@.len()
    }

    /// A well-formed environment has an open scope.
    pub proof fn lemma_has_scope(&self)
        requires
            self.well_formed(),
        ensures
            self.scopes().len() > 0,
    {
    }

    /// Whatever an open scope declares is among the recorded declarations.
    pub proof fn lemma_visible_is_declared(&self, name: NameView)
        requires
            self.well_formed(),
            visible_kind(self.scopes(), name) is Some,
        ensures
            declared_names(self.declarations()).contains(name),
    {
        let at = lemma_visible_kind_witness(self.scopes(), name);
        let k = self.scopes@[at.0]@[at.1];
        assert(self.scopes()[at.0][at.1].0 == self.declarations@[k as int].name@);
    }

    /// Every name that is visible is among the recorded declarations.
    pub proof fn lemma_visible_names_are_declared(&self)
        requires
            self.well_formed(),
        ensures
            forall|name: NameView|
                visible_kind(self.scopes(), name) is Some ==> declared_names(
                    self.declarations(),
                ).contains(name),
    {
        assert forall|name: NameView| visible_kind(self.scopes(), name) is Some implies
            declared_names(self.declarations()).contains(name) by {
            self.lemma_visible_is_declared(name);
        }
    }

    /// An environment with one open scope and no declarations.
    pub fn new() -> (r: IREnvironment)
        ensures
            r.well_formed(),
            r.scopes() == seq![Seq::<(NameView, VariableType)>::empty()],
            r.declarations() == Seq::<Declaration>::empty(),
    {
        let mut scopes: Vec<Vec<usize>> = Vec::new();
        scopes.push(Vec::new());
        let r = IREnvironment { scopes, declarations: Vec::new() };
        assert(r.scopes() =~= seq![Seq::<(NameView, VariableType)>::empty()]) by {
            assert(r.scopes()[0] =~= Seq::<(NameView, VariableType)>::empty());
        }
        r
    }

    /// Opens a scope.
    pub fn add_variable_block(&mut self)
        requires
            old(self).well_formed(),
        ensures
            final(self).well_formed(),
            final(self).scopes() == old(self).scopes().push(Seq::empty()),
            final(self).declarations() == old(self).declarations(),
    {
        self.scopes.push(Vec::new());
        assert(self.scopes() =~= old(self).scopes().push(Seq::empty())) by {
            let n = old(self).scopes@.len() as int;
            assert forall|i: int| 0 <= i < n implies self.scopes()[i] =~= old(self).scopes()[i] by {}
            assert(self.scopes()[n] =~= Seq::<(NameView, VariableType)>::empty());
        }
    }

    /// Closes the innermost scope. What it declared stays recorded.
    pub fn remove_variable_block(&mut self)
        requires
            old(self).well_formed(),
            old(self).scopes().len() > 1,
        ensures
            final(self).well_formed(),
            final(self).scopes() == old(self).scopes().drop_last(),
            final(self).declarations() == old(self).declarations(),
    {
        self.scopes.pop();
        assert(self.scopes() =~= old(self).scopes().drop_last()) by {
            assert forall|i: int| 0 <= i < self.scopes@.len() implies self.scopes()[i]
                =~= old(self).scopes()[i] by {}
        }
    }

    /// The number of open scopes.
    pub fn depth(&self) -> (r: usize)
        ensures
            r == self.scopes().len(),
    {
        self.scopes.len()
    }

    /// The position in `declarations` of what the scope at `level` declares
    /// under `name`.
    fn find_in_scope(&self, level: usize, name: &VariableName) -> (r: Option<usize>)
        requires
            self.well_formed(),
            level < self.scopes().len(),
        ensures
            match r {
                Some(k) => k < self.declarations().len() && self.declarations()[k as int].name@
                    == name@ && scope_kind(self.scopes()[level as int], name@) == Some(
                    self.declarations()[k as int].xtype,
                ),
                None => scope_kind(self.scopes()[level as int], name@) is None,
            },
    {
        let scope = &self.scopes[level];
        let ghost model = self.scopes()[level as int];
        let mut j: usize = scope.len();
        assert(model.take(j as int) =~= model);
        while j > 0
            invariant
                self.well_formed(),
                level < self.scopes@.len(),
                scope == &self.scopes@[level as int],
                model == self.scopes()[level as int],
                j <= scope@.len(),
                scope_kind(model, name@) == scope_kind(model.take(j as int), name@),
            decreases j,
        {
            j -= 1;
            let k = scope[j];
            assert(model.take(j + 1).drop_last() =~= model.take(j as int));
            if self.declarations[k].name.equals(name) {
                return Some(k);
            }
        }
        None
    }

    /// The declaration that `name` refers to here: that of the innermost open
    /// scope that declares it.
    pub fn lookup(&self, name: &VariableName) -> (r: Result<&Declaration, CFGError>)
        requires
            self.well_formed(),
        ensures
            match r {
                Ok(declaration) => declaration.name@ == name@ && visible_kind(
                    self.scopes(),
                    name@,
                ) == Some(declaration.xtype) && self.declarations().contains(*declaration),
                Err(error) => error == CFGError::UnknownSymbol && visible_kind(
                    self.scopes(),
                    name@,
                ) is None,
            },
    {
        let ghost model = self.scopes();
        let mut i: usize = self.scopes.len();
        assert(model.take(i as int) =~= model);
        while i > 0
            invariant
                self.well_formed(),
                model == self.scopes(),
                i <= self.scopes@.len(),
                visible_kind(model, name@) == visible_kind(model.take(i as int), name@),
            decreases i,
        {
            i -= 1;
            assert(model.take(i + 1).drop_last() =~= model.take(i as int));
            match self.find_in_scope(i, name) {
                Some(k) => {
                    return Ok(&self.declarations[k]);
                },
                None => {},
            }
        }
        Err(CFGError::UnknownSymbol)
    }

    /// Records `declaration` in the innermost scope, unless that scope
    /// declares the name already.
    pub fn add_declaration(&mut self, declaration: Declaration) -> (r: Result<(), CFGError>)
        requires
            old(self).well_formed(),
        ensures
            final(self).well_formed(),
            match declared_in(old(self).scopes(), declaration.name@, declaration.xtype) {
                Ok(scopes) => {
                    &&& r is Ok
                    &&& final(self).scopes() == scopes
                    &&& final(self).declarations() == old(self).declarations().push(declaration)
                },
                Err(error) => {
                    &&& r == Err::<(), CFGError>(error)
                    &&& final(self).scopes() == old(self).scopes()
                    &&& final(self).declarations() == old(self).declarations()
                },
            },
    {
        let top = self.scopes.len() - 1;
        match self.find_in_scope(top, &declaration.name) {
            Some(_) => Err(CFGError::DuplicateDeclaration),
            None => {
                let k = self.declarations.len();
                let ghost before = old(self).scopes();
                self.declarations.push(declaration);
                let mut scope = self.scopes.pop().unwrap();
                scope.push(k);
                self.scopes.push(scope);
                assert(self.scopes() =~= before.drop_last().push(
                    before.last().push((declaration.name@, declaration.xtype)),
                )) by {
                    assert forall|i: int| 0 <= i < top implies self.scopes()[i] =~= before[i] by {}
                    assert(self.scopes()[top as int] =~= before.last().push(
                        (declaration.name@, declaration.xtype),
                    ));
                }
                Ok(())
            },
        }
    }

    /// Hands out every declaration that was recorded, oldest first.
    pub fn into_declarations(self) -> (r: Vec<Declaration>)
        ensures
            r@ == self.declarations(),
    {
        self.declarations
    }
}

} // verus!
