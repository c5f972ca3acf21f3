//! What an analysis knows about the value of a node.

use crate::ast::{NameView, VariableName};
use crate::field_element::field_elements_equal;
use num_bigint::BigInt;
use vstd::prelude::*;

verus! {

/// A concrete value that a node reduces to.
#[derive(Clone, Debug)]
#[allow(inconsistent_fields)]
pub enum ValueReduction {
    Boolean { value: bool },
    FieldElement { value: BigInt },
}

impl ValueReduction {
    /// A copy of this value.
    pub fn duplicate(&self) -> (r: ValueReduction)
        ensures
            r == *self,
    {
        match self {
            ValueReduction::Boolean { value } => ValueReduction::Boolean { value: *value },
            ValueReduction::FieldElement { value } => ValueReduction::FieldElement {
                value: value.clone(),
            },
        }
    }

    /// Whether two values are the same boolean or the same field element.
    pub fn same_as(&self, other: &ValueReduction) -> (r: bool)
        ensures
            r == (*self == *other),
    {
        match self {
            ValueReduction::Boolean { value: a } => match other {
                ValueReduction::Boolean { value: b } => *a == *b,
                ValueReduction::FieldElement { .. } => false,
            },
            ValueReduction::FieldElement { value: a } => match other {
                ValueReduction::Boolean { .. } => false,
                ValueReduction::FieldElement { value: b } => field_elements_equal(a, b),
            },
        }
    }
}

/// The knowledge slot of a node: unset, or the value the node reduces to.
///
/// Knowledge only grows: a slot that is set keeps its value.
#[derive(Clone, Debug)]
pub struct ValueKnowledge {
    reduces_to: Option<ValueReduction>,
}

impl View for ValueKnowledge {
    type V = Option<ValueReduction>;

    closed spec fn view(&self) -> Option<ValueReduction> {
        self.reduces_to
    }
}

/// The order of the lattice: `a` is below `b` when `a` is unset or both hold
/// the same value.
pub open spec fn refines(a: Option<ValueReduction>, b: Option<ValueReduction>) -> bool {
    a is None || a == b
}

/// The join of two slots: their common value, if they agree on one.
pub open spec fn join_of(a: Option<ValueReduction>, b: Option<ValueReduction>) -> Option<
    ValueReduction,
> {
    if a is Some && a == b {
        a
    } else {
        None
    }
}

impl Default for ValueKnowledge {
    /// The slot of a node of which nothing is known.
    fn default() -> (r: ValueKnowledge)
        ensures
            r@ is None,
    {
        ValueKnowledge { reduces_to: None }
    }
}

impl ValueKnowledge {
    pub fn new() -> (r: ValueKnowledge)
        ensures
            r@ is None,
    {
        ValueKnowledge::default()
    }

    /// Records the value of the node. A slot that is set only accepts the
    /// value it already holds.
    pub fn set_reduces_to(&mut self, reduces_to: ValueReduction)
        requires
            refines(old(self)@, Some(reduces_to)),
        ensures
            final(self)@ == Some(reduces_to),
            refines(old(self)@, final(self)@),
    {
        self.reduces_to = Option::Some(reduces_to);
    }

    /// Records the value of the node unless the slot holds a different one.
    /// Returns whether the slot now holds `reduces_to`.
    pub fn refine(&mut self, reduces_to: ValueReduction) -> (accepted: bool)
        ensures
            accepted == refines(old(self)@, Some(reduces_to)),
            accepted ==> final(self)@ == Some(reduces_to),
            !accepted ==> final(self)@ == old(self)@,
            refines(old(self)@, final(self)@),
    {
        let accepted = match &self.reduces_to {
            None => true,
            Some(current) => current.same_as(&reduces_to),
        };
        if accepted {
            self.set_reduces_to(reduces_to);
        }
        accepted
    }

    /// The knowledge that holds on both of two paths: their common value if
    /// they agree, nothing otherwise.
    pub fn join(&self, other: &ValueKnowledge) -> (r: ValueKnowledge)
        ensures
            r@ == join_of(self@, other@),
    {
        match &self.reduces_to {
            None => ValueKnowledge::new(),
            Some(a) => match &other.reduces_to {
                None => ValueKnowledge::new(),
                Some(b) => if a.same_as(b) {
                    ValueKnowledge { reduces_to: Some(a.duplicate()) }
                } else {
                    ValueKnowledge::new()
                },
            },
        }
    }

    pub fn get_reduces_to(&self) -> (r: Option<&ValueReduction>)
        ensures
            match r {
                Some(v) => self@ == Some(*v),
                None => self@ is None,
            },
    {
        self.reduces_to.as_ref()
    }

    pub fn is_constant(&self) -> (r: bool)
        ensures
            r == (self@ is Some),
    {
        self.reduces_to.is_some()
    }

    pub fn is_boolean(&self) -> (r: bool)
        ensures
            r == (self@ matches Some(v) && v is Boolean),
    {
        matches!(self.reduces_to, Some(ValueReduction::Boolean { .. }))
    }

    pub fn is_field_element(&self) -> (r: bool)
        ensures
            r == (self@ matches Some(v) && v is FieldElement),
    {
        matches!(self.reduces_to, Some(ValueReduction::FieldElement { .. }))
    }

    /// A copy of this slot.
    pub fn duplicate(&self) -> (r: ValueKnowledge)
        ensures
            r@ == self@,
    {
        match &self.reduces_to {
            None => ValueKnowledge { reduces_to: None },
            Some(v) => ValueKnowledge { reduces_to: Some(v.duplicate()) },
        }
    }
}

/// Knowledge never shrinks: a slot that was refined twice in a row still
/// refines the slot it started from, and a value once set is still there.
pub proof fn lemma_refinement_is_monotone(
    a: Option<ValueReduction>,
    b: Option<ValueReduction>,
    c: Option<ValueReduction>,
)
    requires
        refines(a, b),
        refines(b, c),
    ensures
        refines(a, c),
        a is Some ==> c == a,
{
}

/// The join is below both of its arguments, and is the greatest such slot.
pub proof fn lemma_join_is_greatest_lower_bound(
    a: Option<ValueReduction>,
    b: Option<ValueReduction>,
    c: Option<ValueReduction>,
)
    ensures
        refines(join_of(a, b), a),
        refines(join_of(a, b), b),
        join_of(a, b) == join_of(b, a),
        refines(c, a) && refines(c, b) ==> refines(c, join_of(a, b)),
{
}

/// The value that `bindings` give `name`: that of the last binding of
/// `name`, if there is one.
pub open spec fn value_of(bindings: Seq<(NameView, ValueReduction)>, name: NameView) -> Option<
    ValueReduction,
>
    decreases bindings.len(),
{
    if bindings.len() == 0 {
        None
    } else if bindings.last().0 == name {
        Some(bindings.last().1)
    } else {
        value_of(bindings.drop_last(), name)
    }
}

/// The values that variables are known to have.
#[derive(Debug)]
pub struct VarEnvironment {
    bindings: Vec<(VariableName, ValueReduction)>,
}

impl VarEnvironment {
    /// The bindings, oldest first.
    pub closed spec fn bindings(&self) -> Seq<(NameView, ValueReduction)> {
        Seq::new(self.bindings@.len(), |i: int| (self.bindings@[i].0@, self.bindings@[i].1))
    }

    /// An environment in which no variable has a known value.
    pub fn new() -> (r: VarEnvironment)
        ensures
            r.bindings() == Seq::<(NameView, ValueReduction)>::empty(),
    {
        let r = VarEnvironment { bindings: Vec::new() };
        r
    }

    /// Binds `name` to `value`, in place of what it was bound to.
    pub fn add_variable(&mut self, name: VariableName, value: ValueReduction)
        ensures
            final(self).bindings() == old(self).bindings().push((name@, value)),
    {
        self.bindings.push((name, value));
    }

    /// The value of `name`, if it is known.
    pub fn get_variable(&self, name: &VariableName) -> (r: Option<&ValueReduction>)
        ensures
            match r {
                Some(value) => value_of(self.bindings(), name@) == Some(*value),
                None => value_of(self.bindings(), name@) is None,
            },
    {
        let ghost bindings = self.bindings();
        let mut i: usize = self.bindings.len();
        assert(bindings.take(i as int) =~= bindings);
        while i > 0
            invariant
                bindings == self.bindings(),
                i <= self.bindings@.len(),
                value_of(bindings, name@) == value_of(bindings.take(i as int), name@),
            decreases i,
        {
            i -= 1;
            assert(bindings.take(i + 1).drop_last() =~= bindings.take(i as int));
            if self.bindings[i].0.equals(name) {
                return Some(&self.bindings[i].1);
            }
        }
        None
    }
}

/// A node that carries a knowledge slot.
pub trait ValueMeta {
    /// What is known of the value of the node.
    spec fn knowledge(&self) -> Option<ValueReduction>;

    /// Propagates the values that `env` gives to variables to the node and
    /// the nodes below it. What was known of the node stays known.
    fn propagate_values(&mut self, env: &VarEnvironment)
        ensures
            refines(old(self).knowledge(), final(self).knowledge()),
    ;

    /// Whether the node reduces to a constant value.
    fn is_constant(&self) -> (r: bool)
        ensures
            r == (self.knowledge() is Some),
    ;

    /// Whether the node reduces to a boolean value.
    fn is_boolean(&self) -> (r: bool)
        ensures
            r == (self.knowledge() matches Some(v) && v is Boolean),
    ;

    /// Whether the node reduces to a field element.
    fn is_field_element(&self) -> (r: bool)
        ensures
            r == (self.knowledge() matches Some(v) && v is FieldElement),
    ;

    /// The value that the node reduces to, if it is known.
    fn get_reduces_to(&self) -> (r: Option<&ValueReduction>)
        ensures
            match r {
                Some(v) => self.knowledge() == Some(*v),
                None => self.knowledge() is None,
            },
    ;
}

} // verus!
