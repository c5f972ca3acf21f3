//! The table of the declarations of a definition.

use crate::ast::{NameView, VariableName};
use crate::environment::{declared_names, IREnvironment};
use crate::ir::Declaration;
use vstd::prelude::*;

verus! {

/// Of the declarations in `all`, each that is the first one of its name, in
/// order.
pub open spec fn first_declarations(all: Seq<Declaration>) -> Seq<Declaration>
    decreases all.len(),
{
    if all.len() == 0 {
        all
    } else if declared_names(first_declarations(all.drop_last())).contains(all.last().name@) {
        first_declarations(all.drop_last())
    } else {
        first_declarations(all.drop_last()).push(all.last())
    }
}

/// No two of `entries` have the same name.
pub open spec fn names_differ(entries: Seq<Declaration>) -> bool {
    forall|i: int, j: int|
        0 <= i < entries.len() && 0 <= j < entries.len() && i != j ==> (#[trigger] entries[i]).name@
            != (#[trigger] entries[j]).name@
}

/// The first declarations have names of which no two are the same, and
/// these are the names of all declarations.
pub proof fn lemma_first_declarations(all: Seq<Declaration>)
    ensures
        names_differ(first_declarations(all)),
        declared_names(first_declarations(all)) == declared_names(all),
        forall|i: int|
            0 <= i < first_declarations(all).len() ==> all.contains(
                #[trigger] first_declarations(all)[i],
            ),
    decreases all.len(),
{
    if all.len() > 0 {
        let rest = all.drop_last();
        let f = first_declarations(rest);
        let r = first_declarations(all);
        lemma_first_declarations(rest);
        assert forall|i: int, j: int| 0 <= i < r.len() && 0 <= j < r.len() && i != j implies (
        #[trigger] r[i]).name@ != (#[trigger] r[j]).name@ by {
            if i >= f.len() {
                assert(f[j].name@ == r[j].name@);
            } else if j >= f.len() {
                assert(f[i].name@ == r[i].name@);
            }
        }
        assert forall|n: NameView| declared_names(r).contains(n) <==> declared_names(all).contains(
            n,
        ) by {
            if declared_names(r).contains(n) {
                let i = choose|i: int| 0 <= i < r.len() && (#[trigger] r[i]).name@ == n;
                if i < f.len() {
                    let k = choose|k: int| 0 <= k < rest.len() && (#[trigger] rest[k]).name@ == n;
                    assert(all[k].name@ == n);
                } else {
                    assert(all[all.len() - 1].name@ == n);
                }
            }
            if declared_names(all).contains(n) {
                let k = choose|k: int| 0 <= k < all.len() && (#[trigger] all[k]).name@ == n;
                if k < rest.len() {
                    assert(rest[k].name@ == n);
                    assert(declared_names(f).contains(n));
                    let i = choose|i: int| 0 <= i < f.len() && (#[trigger] f[i]).name@ == n;
                    assert(r[i].name@ == n);
                } else if !declared_names(f).contains(n) {
                    assert(r[f.len() as int].name@ == n);
                }
            }
        }
        assert forall|i: int| 0 <= i < r.len() implies all.contains(#[trigger] r[i]) by {
            if i < f.len() {
                let k = choose|k: int| 0 <= k < rest.len() && rest[k] == f[i];
                assert(all[k] == r[i]);
            } else {
                assert(all[all.len() - 1] == r[i]);
            }
        }
    }
}

/// Where no two declarations have the same name, each is the first of its
/// name.
pub proof fn lemma_first_declarations_of_distinct(all: Seq<Declaration>)
    requires
        names_differ(all),
    ensures
        first_declarations(all) == all,
    decreases all.len(),
{
    if all.len() > 0 {
        let rest = all.drop_last();
        lemma_first_declarations_of_distinct(rest);
        if declared_names(rest).contains(all.last().name@) {
            let i = choose|i: int| 0 <= i < rest.len() && (#[trigger] rest[i]).name@
                == all.last().name@;
            assert(all[i].name@ == all[all.len() - 1].name@);
        }
        assert(rest.push(all.last()) =~= all);
    }
}

/// The declarations of a definition, each under its unique name.
#[derive(Debug)]
pub struct DeclarationMap {
    declarations: Vec<Declaration>,
}

impl DeclarationMap {
    /// The declarations of the map: no two have the same name.
    pub closed spec fn entries(&self) -> Seq<Declaration> {
        self.declarations@
    }

    /// The names that the map has a declaration for.
    pub open spec fn names(&self) -> Set<NameView> {
        declared_names(self.entries())
    }

    /// No two declarations of the map have the same name.
    pub closed spec fn well_formed(&self) -> bool {
        names_differ(self.declarations@)
    }

    /// In a well-formed map no name is declared twice.
    pub proof fn lemma_names_differ(&self)
        requires
            self.well_formed(),
        ensures
            names_differ(self.entries()),
    {
    }

    /// The map of what `env` recorded: for each name its first declaration.
    pub fn from_environment(env: IREnvironment) -> (r: DeclarationMap)
        ensures
            r.well_formed(),
            r.entries() == first_declarations(env.declarations()),
            r.names() == declared_names(env.declarations()),
    {
        let mut rest = env.into_declarations();
        let ghost all = rest@;
        let mut declarations: Vec<Declaration> = Vec::new();
        let ghost mut done: int = 0;
        while rest.len() > 0
            invariant
                0 <= done <= all.len(),
                rest@ == all.skip(done),
                declarations@ == first_declarations(all.take(done)),
            decreases rest@.len(),
        {
            let declaration = rest.remove(0);
            proof {
                assert(all.take(done + 1).drop_last() =~= all.take(done));
            }
            let known = holds_name(&declarations, &declaration.name);
            if !known {
                declarations.push(declaration);
            }
            proof {
                done = done + 1;
            }
        }
        proof {
            assert(all.take(done) =~= all);
            lemma_first_declarations(all);
        }
        DeclarationMap { declarations }
    }

    /// The number of declarations.
    pub fn len(&self) -> (r: usize)
        ensures
            r == self.entries().len(),
    {
        self.declarations.len()
    }

    /// The declaration of `name`, if the map has one.
    pub fn get_declaration(&self, name: &VariableName) -> (r: Option<&Declaration>)
        ensures
            match r {
                Some(declaration) => declaration.name@ == name@ && self.entries().contains(
                    *declaration,
                ),
                None => !self.names().contains(name@),
            },
    {
        let mut i: usize = 0;
        while i < self.declarations.len()
            invariant
                i <= self.declarations@.len(),
                forall|k: int| 0 <= k < i ==> (#[trigger] self.declarations@[k]).name@ != name@,
            decreases self.declarations@.len() - i,
        {
            if self.declarations[i].name.equals(name) {
                return Some(&self.declarations[i]);
            }
            i += 1;
        }
        None
    }

    /// The declarations, in the order in which they were recorded.
    pub fn get_declarations(&self) -> (r: &Vec<Declaration>)
        ensures
            r@ == self.entries(),
    {
        &self.declarations
    }
}

/// Whether one of `declarations` has the name `name`.
fn holds_name(declarations: &Vec<Declaration>, name: &VariableName) -> (r: bool)
    ensures
        r == declared_names(declarations@).contains(name@),
{
    let mut i: usize = 0;
    while i < declarations.len()
        invariant
            i <= declarations@.len(),
            forall|k: int| 0 <= k < i ==> (#[trigger] declarations@[k]).name@ != name@,
        decreases declarations@.len() - i,
    {
        if declarations[i].name.equals(name) {
            return true;
        }
        i += 1;
    }
    false
}

} // verus!
