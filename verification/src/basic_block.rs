//! Basic blocks: straight-line runs of statements, joined by edges.

use crate::ir::{Index, Meta, Statement};
use vstd::prelude::*;

verus! {

/// `indices` with `index` added at the end, unless it is there already.
pub open spec fn with_index(indices: Seq<Index>, index: Index) -> Seq<Index> {
    if indices.contains(index) {
        indices
    } else {
        indices.push(index)
    }
}

/// Adding to a list without repetitions leaves it without repetitions, and
/// adds exactly that index to what the list holds.
pub proof fn lemma_with_index(indices: Seq<Index>, index: Index)
    ensures
        with_index(indices, index).contains(index),
        forall|i: Index| #[trigger]
            with_index(indices, index).contains(i) <==> (i == index || indices.contains(i)),
        indices.no_duplicates() ==> with_index(indices, index).no_duplicates(),
        indices.len() <= with_index(indices, index).len() <= indices.len() + 1,
{
    let r = with_index(indices, index);
    if !indices.contains(index) {
        assert(r[indices.len() as int] == index);
        assert forall|i: Index| #[trigger] r.contains(i) implies (i == index || indices.contains(
            i,
        )) by {
            let k = choose|k: int| 0 <= k < r.len() && r[k] == i;
            if k < indices.len() {
                assert(indices[k] == i);
            }
        }
        assert forall|i: Index| indices.contains(i) implies #[trigger] r.contains(i) by {
            let k = choose|k: int| 0 <= k < indices.len() && indices[k] == i;
            assert(r[k] == i);
        }
    }
}

/// Whether `indices` holds `index`.
pub fn contains_index(indices: &Vec<Index>, index: Index) -> (r: bool)
    ensures
        r == indices@.contains(index),
{
    let mut i: usize = 0;
    while i < indices.len()
        invariant
            i <= indices.len(),
            forall|k: int| 0 <= k < i ==> indices@[k] != index,
        decreases indices.len() - i,
    {
        if indices[i] == index {
            return true;
        }
        i += 1;
    }
    false
}

/// Adds `index` to `indices` unless it is there already.
pub fn insert_index(indices: &mut Vec<Index>, index: Index)
    ensures
        final(indices)@ == with_index(old(indices)@, index),
{
    if !contains_index(indices, index) {
        indices.push(index);
    }
}

/// A basic block of the control-flow graph.
///
/// Predecessors and successors are sets, kept in the order in which the edges
/// were added.
#[derive(Debug)]
pub struct BasicBlock {
    index: Index,
    meta: Meta,
    stmts: Vec<Statement>,
    predecessors: Vec<Index>,
    successors: Vec<Index>,
}

impl BasicBlock {
    /// The position of the block in the graph.
    pub closed spec fn index(&self) -> Index {
        self.index
    }

    /// The metadata of the block.
    pub closed spec fn meta(&self) -> Meta {
        self.meta
    }

    /// The statements of the block, in source order.
    pub closed spec fn statements(&self) -> Seq<Statement> {
        self.stmts@
    }

    /// The blocks with an edge into this one.
    pub closed spec fn predecessors(&self) -> Seq<Index> {
        self.predecessors@
    }

    /// The blocks that this one has an edge into.
    pub closed spec fn successors(&self) -> Seq<Index> {
        self.successors@
    }

    /// The last statement of the block, if it has one.
    pub open spec fn last_statement(&self) -> Option<Statement> {
        if self.statements().len() == 0 {
            None
        } else {
            Some(self.statements().last())
        }
    }

    /// No block is listed twice among the predecessors or the successors.
    pub open spec fn well_formed(&self) -> bool {
        &&& self.predecessors().no_duplicates()
        &&& self.successors().no_duplicates()
    }

    /// An empty block without edges.
    pub fn new(index: Index, meta: Meta) -> (r: BasicBlock)
        ensures
            r.index() == index,
            r.meta() == meta,
            r.statements() == Seq::<Statement>::empty(),
            r.predecessors() == Seq::<Index>::empty(),
            r.successors() == Seq::<Index>::empty(),
            r.well_formed(),
    {
        BasicBlock {
            index,
            meta,
            stmts: Vec::new(),
            predecessors: Vec::new(),
            successors: Vec::new(),
        }
    }

    pub fn get_index(&self) -> (r: Index)
        ensures
            r == self.index(),
    {
        self.index
    }

    pub fn get_meta(&self) -> (r: &Meta)
        ensures
            *r == self.meta(),
    {
        &self.meta
    }

    pub fn get_statements(&self) -> (r: &Vec<Statement>)
        ensures
            r@ == self.statements(),
    {
        &self.stmts
    }

    pub fn get_predecessors(&self) -> (r: &Vec<Index>)
        ensures
            r@ == self.predecessors(),
    {
        &self.predecessors
    }

    pub fn get_successors(&self) -> (r: &Vec<Index>)
        ensures
            r@ == self.successors(),
    {
        &self.successors
    }

    /// The number of statements in the block.
    pub fn len(&self) -> (r: usize)
        ensures
            r == self.statements().len(),
    {
        self.stmts.len()
    }

    pub fn is_empty(&self) -> (r: bool)
        ensures
            r == (self.statements().len() == 0),
    {
        self.stmts.len() == 0
    }

    /// Adds a statement at the end of the block.
    pub fn append_statement(&mut self, stmt: Statement)
        ensures
            final(self).statements() == old(self).statements().push(stmt),
            final(self).index() == old(self).index(),
            final(self).meta() == old(self).meta(),
            final(self).predecessors() == old(self).predecessors(),
            final(self).successors() == old(self).successors(),
            old(self).well_formed() ==> final(self).well_formed(),
    {
        self.stmts.push(stmt);
    }

    /// Records an edge from block `predecessor` into this one.
    pub fn add_predecessor(&mut self, predecessor: Index)
        ensures
            final(self).predecessors() == with_index(old(self).predecessors(), predecessor),
            final(self).index() == old(self).index(),
            final(self).meta() == old(self).meta(),
            final(self).statements() == old(self).statements(),
            final(self).successors() == old(self).successors(),
            old(self).well_formed() ==> final(self).well_formed(),
    {
        proof {
            lemma_with_index(self.predecessors@, predecessor);
        }
        insert_index(&mut self.predecessors, predecessor);
    }

    /// Records an edge from this block into block `successor`.
    pub fn add_successor(&mut self, successor: Index)
        ensures
            final(self).successors() == with_index(old(self).successors(), successor),
            final(self).index() == old(self).index(),
            final(self).meta() == old(self).meta(),
            final(self).statements() == old(self).statements(),
            final(self).predecessors() == old(self).predecessors(),
            old(self).well_formed() ==> final(self).well_formed(),
    {
        proof {
            lemma_with_index(self.successors@, successor);
        }
        insert_index(&mut self.successors, successor);
    }

    /// Whether the block ends in a return.
    pub fn ends_in_return(&self) -> (r: bool)
        ensures
            r == (self.last_statement() matches Some(s) && s is Return),
    {
        let n = self.stmts.len();
        if n == 0 {
            false
        } else {
            matches!(self.stmts[n - 1], Statement::Return { .. })
        }
    }

    /// If the block ends in a branch whose false target is still open, and
    /// `target` is not its true target, makes `target` the false target.
    pub fn close_branch(&mut self, target: Index)
        ensures
            final(self).index() == old(self).index(),
            final(self).meta() == old(self).meta(),
            final(self).predecessors() == old(self).predecessors(),
            final(self).successors() == old(self).successors(),
            final(self).statements() == closed_branch(old(self).statements(), target),
            old(self).well_formed() ==> final(self).well_formed(),
    {
        let n = self.stmts.len();
        if n > 0 {
            let last = self.stmts.pop().unwrap();
            let patched = match last {
                Statement::IfThenElse { meta, cond, if_true, if_false } => {
                    if target != if_true && if_false.is_none() {
                        Statement::IfThenElse { meta, cond, if_true, if_false: Some(target) }
                    } else {
                        Statement::IfThenElse { meta, cond, if_true, if_false }
                    }
                },
                other => other,
            };
            self.stmts.push(patched);
        }
    }
}

/// What holds of the edges of a graph: blocks are numbered by their
/// position, edges stay within the graph, no edge is listed twice, each edge
/// is known at both of its ends, the entry has no predecessor and every other
/// block has one.
pub open spec fn edges_well_formed(blocks: Seq<BasicBlock>) -> bool {
    &&& blocks.len() > 0
    &&& forall|i: int|
        0 <= i < blocks.len() ==> (#[trigger] blocks[i]).index() == i && blocks[i].well_formed()
    &&& forall|i: int, x: Index|
        0 <= i < blocks.len() && (#[trigger] blocks[i].predecessors().contains(x)) ==> x
            < blocks.len()
    &&& forall|i: int, x: Index|
        0 <= i < blocks.len() && (#[trigger] blocks[i].successors().contains(x)) ==> x
            < blocks.len()
    &&& forall|i: Index, j: Index|
        i < blocks.len() && j < blocks.len() ==> (#[trigger] blocks[i as int].successors().contains(
            j,
        ) <==> #[trigger] blocks[j as int].predecessors().contains(i))
    &&& blocks[0].predecessors().len() == 0
    &&& forall|i: int| 0 < i < blocks.len() ==> (#[trigger] blocks[i]).predecessors().len() > 0
}

/// What holds of the successors of block `i` and the branch it ends in.
///
/// The true target of a branch is the next block. Where the branch has a
/// false target, the successors are the true and the false target, in this
/// order. Where it has none, the successors are the true target and, for a
/// block at the end of a loop body, the loop header, which is an earlier
/// block. A block that does not end in a branch has at most one successor.
pub open spec fn branch_closed(blocks: Seq<BasicBlock>, i: int) -> bool {
    let b = blocks[i];
    match b.last_statement() {
        Some(Statement::IfThenElse { if_true, if_false: Some(if_false), .. }) => {
            &&& if_true == i + 1
            &&& if_true < if_false < blocks.len()
            &&& b.successors() == seq![if_true, if_false]
        },
        Some(Statement::IfThenElse { if_true, if_false: None, .. }) => {
            &&& if_true == i + 1
            &&& if_true < blocks.len()
            &&& {
                ||| b.successors() == seq![if_true]
                ||| b.successors().len() == 2 && b.successors()[0] == if_true && b.successors()[1]
                    < i
            }
        },
        _ => b.successors().len() <= 1,
    }
}

/// The invariant of the blocks of a control-flow graph.
pub open spec fn graph_well_formed(blocks: Seq<BasicBlock>) -> bool {
    &&& edges_well_formed(blocks)
    &&& forall|i: int| 0 <= i < blocks.len() ==> #[trigger] branch_closed(blocks, i)
}

/// `stmt`, with `target` as its false target if it is a branch whose false
/// target is open and whose true target is another block.
pub open spec fn closed_statement(stmt: Statement, target: Index) -> Statement {
    match stmt {
        Statement::IfThenElse { meta, cond, if_true, if_false } => {
            if target != if_true && if_false is None {
                Statement::IfThenElse { meta, cond, if_true, if_false: Some(target) }
            } else {
                stmt
            }
        },
        _ => stmt,
    }
}

/// `stmts`, with its last statement closed towards `target`.
pub open spec fn closed_branch(stmts: Seq<Statement>, target: Index) -> Seq<Statement> {
    if stmts.len() == 0 {
        stmts
    } else {
        stmts.drop_last().push(closed_statement(stmts.last(), target))
    }
}

} // verus!
