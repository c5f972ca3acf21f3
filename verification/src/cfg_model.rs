//! What the basic-block builder computes, as a mathematical model.
//!
//! The model of a block holds its edges and, in place of each lowered
//! statement, the syntax-tree node it comes from together with the scopes in
//! which it was lowered.

use crate::ast;
use crate::ast::NameView;
use crate::basic_block::{
    BasicBlock, branch_closed, closed_branch, graph_well_formed, lemma_with_index, with_index,
};
use crate::environment::{declared_in, IREnvironment, Scope};
use crate::errors::CFGError;
use crate::ir;
use crate::ir::Index;
use crate::lowering::{
    lowered_declaration, lowered_expression, lowered_statement, resolves_expression,
    resolves_expressions, resolves_statement,
};
use vstd::prelude::*;

verus! {

/// Where a statement of a block comes from.
pub enum Item {
    /// A plain statement, lowered in `scopes`.
    Plain { stmt: ast::Statement, scopes: Seq<Scope> },
    /// The branch of an `if` or a `while` on `cond`, lowered in `scopes`.
    Branch {
        meta: ast::Meta,
        cond: ast::Expression,
        scopes: Seq<Scope>,
        if_true: Index,
        if_false: Option<Index>,
    },
}

/// The model of a basic block.
pub struct BlockModel {
    pub meta: ast::Meta,
    pub items: Seq<Item>,
    pub predecessors: Seq<Index>,
    pub successors: Seq<Index>,
}

/// A declaration, and the scopes in which its dimensions were lowered.
pub struct Recorded {
    pub stmt: ast::Statement,
    pub scopes: Seq<Scope>,
}

/// The state of the builder: the open scopes, the declarations recorded so
/// far, and the blocks.
pub struct BuilderModel {
    pub scopes: Seq<Scope>,
    pub recorded: Seq<Recorded>,
    pub blocks: Seq<BlockModel>,
}

/// A block without statements or edges.
pub open spec fn fresh_block(meta: ast::Meta) -> BlockModel {
    BlockModel {
        meta,
        items: Seq::empty(),
        predecessors: Seq::empty(),
        successors: Seq::empty(),
    }
}

/// The targets of the branch that `b` ends in, if it ends in one.
pub open spec fn last_branch(b: BlockModel) -> Option<(Index, Option<Index>)> {
    if b.items.len() > 0 {
        match b.items.last() {
            Item::Branch { if_true, if_false, .. } => Some((if_true, if_false)),
            Item::Plain { .. } => None,
        }
    } else {
        None
    }
}

/// Whether `b` ends in a return.
pub open spec fn ends_in_return(b: BlockModel) -> bool {
    b.items.len() > 0 && (b.items.last() matches Item::Plain { stmt, .. } && stmt is Return)
}

/// `item`, with `target` as its false target if it is a branch whose false
/// target is open and whose true target is another block.
pub open spec fn closed_item(item: Item, target: Index) -> Item {
    match item {
        Item::Branch { meta, cond, scopes, if_true, if_false } => {
            if target != if_true && if_false is None {
                Item::Branch { meta, cond, scopes, if_true, if_false: Some(target) }
            } else {
                item
            }
        },
        Item::Plain { .. } => item,
    }
}

/// `items`, with the last one closed towards `target`.
pub open spec fn closed_items(items: Seq<Item>, target: Index) -> Seq<Item> {
    if items.len() == 0 {
        items
    } else {
        items.drop_last().push(closed_item(items.last(), target))
    }
}

/// `into`, with each of `indices` added in turn unless it is there already.
pub open spec fn merged(into: Seq<Index>, indices: Seq<Index>) -> Seq<Index>
    decreases indices.len(),
{
    if indices.len() == 0 {
        into
    } else {
        with_index(merged(into, indices.drop_last()), indices.last())
    }
}

/// The blocks after `item` was added at the end of the last block.
pub open spec fn appended(bs: Seq<BlockModel>, item: Item) -> Seq<BlockModel>
    recommends
        bs.len() > 0,
{
    bs.update(bs.len() - 1, BlockModel { items: bs.last().items.push(item), ..bs.last() })
}

/// The blocks after a new block with `meta` was added behind `preds`: each of
/// `preds` gets an edge into the new block, and an open branch at its end is
/// closed towards it.
pub open spec fn completed(bs: Seq<BlockModel>, preds: Seq<Index>, meta: ast::Meta) -> Seq<
    BlockModel,
> {
    let j = bs.len() as Index;
    Seq::new(
        bs.len() + 1,
        |k: int|
            if k == bs.len() {
                BlockModel { predecessors: preds, ..fresh_block(meta) }
            } else if preds.contains(k as Index) {
                BlockModel {
                    successors: with_index(bs[k].successors, j),
                    items: closed_items(bs[k].items, j),
                    ..bs[k]
                }
            } else {
                bs[k]
            },
    )
}

/// The blocks after each of `preds` got an edge back into the loop header
/// `header`. No branch is closed.
pub open spec fn looped(bs: Seq<BlockModel>, preds: Seq<Index>, header: Index) -> Seq<BlockModel> {
    Seq::new(
        bs.len(),
        |k: int|
            {
                let b = if preds.contains(k as Index) {
                    BlockModel { successors: with_index(bs[k].successors, header), ..bs[k] }
                } else {
                    bs[k]
                };
                if k == header {
                    BlockModel { predecessors: merged(b.predecessors, preds), ..b }
                } else {
                    b
                }
            },
    )
}

/// The blocks after the last block got a branch on `cond` into a new block
/// with `next_meta`, and that block behind it.
pub open spec fn branched(
    bs: Seq<BlockModel>,
    meta: ast::Meta,
    cond: ast::Expression,
    scopes: Seq<Scope>,
    next_meta: ast::Meta,
) -> Seq<BlockModel>
    recommends
        bs.len() > 0,
{
    completed(
        appended(
            bs,
            Item::Branch { meta, cond, scopes, if_true: bs.len() as Index, if_false: None },
        ),
        seq![(bs.len() - 1) as Index],
        next_meta,
    )
}

/// The blocks that a would-be successor of a visited body follows on: `preds`
/// if the body ended in control flow, else the last block.
pub open spec fn fallthrough(bs: Seq<BlockModel>, preds: Seq<Index>) -> Seq<Index>
    recommends
        bs.len() > 0,
{
    if preds.len() > 0 {
        preds
    } else {
        seq![(bs.len() - 1) as Index]
    }
}

/// The blocks that a would-be successor of the case of an `if` without
/// `else` follows on: as `fallthrough`, but none where the case ends in a
/// return, which leads nowhere.
pub open spec fn fallthrough_unless_returned(bs: Seq<BlockModel>, preds: Seq<Index>) -> Seq<Index>
    recommends
        bs.len() > 0,
{
    if preds.len() == 0 && ends_in_return(bs.last()) {
        Seq::empty()
    } else {
        fallthrough(bs, preds)
    }
}

/// What holds of the edges of block `i` and the branch it ends in.
///
/// A branch has the next block as its true target. Once its false target is
/// set, its successors are the two targets, in this order. While it is open,
/// the true target is its first successor; a second one is an edge back to a
/// loop header. The one exception is a branch that was added a moment ago:
/// its true target is the block that is added next.
/// A block that does not end in a branch has at most one successor.
pub open spec fn closure_holds(bs: Seq<BlockModel>, i: int) -> bool {
    let b = bs[i];
    match last_branch(b) {
        Some((t, Some(f))) => t == i + 1 && t < f < bs.len() && b.successors == seq![t, f],
        Some((t, None)) => {
            &&& t == i + 1
            &&& {
                ||| t < bs.len() && b.successors == seq![t]
                ||| t < bs.len() && b.successors.len() == 2 && b.successors[0] == t
                    && b.successors[1] < i
                ||| t == bs.len() && b.successors.len() == 0
            }
        },
        None => b.successors.len() <= 1,
    }
}

/// The last block ends in a branch whose true target does not exist yet.
pub open spec fn pending(bs: Seq<BlockModel>) -> bool {
    bs.len() > 0 && (last_branch(bs.last()) matches Some((t, _)) && t == bs.len())
}

/// What holds of the edges alone: they stay within the graph, no edge is
/// listed twice, each is known at both of its ends, and every block but the
/// entry has a predecessor.
pub open spec fn edges_consistent(bs: Seq<BlockModel>) -> bool {
    &&& 0 < bs.len() <= usize::MAX
    &&& forall|i: int|
        0 <= i < bs.len() ==> (#[trigger] bs[i]).predecessors.no_duplicates()
            && bs[i].successors.no_duplicates()
    &&& forall|i: int, x: Index|
        0 <= i < bs.len() && (#[trigger] bs[i].predecessors.contains(x)) ==> x < bs.len()
    &&& forall|i: int, x: Index|
        0 <= i < bs.len() && (#[trigger] bs[i].successors.contains(x)) ==> x < bs.len()
    &&& forall|i: Index, j: Index|
        i < bs.len() && j < bs.len() ==> (#[trigger] bs[i as int].successors.contains(j)
            <==> #[trigger] bs[j as int].predecessors.contains(i))
    &&& bs[0].predecessors.len() == 0
    &&& forall|i: int| 0 < i < bs.len() ==> (#[trigger] bs[i]).predecessors.len() > 0
}

/// The invariant of the graph under construction.
pub open spec fn consistent(bs: Seq<BlockModel>) -> bool {
    &&& edges_consistent(bs)
    &&& forall|i: int| 0 <= i < bs.len() ==> #[trigger] closure_holds(bs, i)
}

/// Block `x` can take a successor: it ends in a branch whose false target is
/// open, or it has no successor yet.
pub open spec fn open_at(bs: Seq<BlockModel>, x: Index) -> bool {
    &&& x < bs.len()
    &&& match last_branch(bs[x as int]) {
        Some((t, None)) => bs[x as int].successors == seq![t] || (bs[x as int].successors.len() == 0
            && t == bs.len()),
        Some((t, Some(f))) => false,
        None => bs[x as int].successors.len() == 0,
    }
}

/// The last block has no successor and does not end in a branch, so a
/// statement can be added to it.
pub open spec fn ready(bs: Seq<BlockModel>) -> bool {
    &&& consistent(bs)
    &&& bs.last().successors.len() == 0
    &&& last_branch(bs.last()) is None
}

/// The graph of one empty entry block is ready.
pub proof fn lemma_entry_is_ready(meta: ast::Meta)
    ensures
        ready(seq![fresh_block(meta)]),
        !pending(seq![fresh_block(meta)]),
{
    let bs = seq![fresh_block(meta)];
    assert forall|i: int| 0 <= i < bs.len() implies #[trigger] closure_holds(bs, i) by {}
}

/// Merging adds exactly the new indices, and keeps a list without
/// repetitions so.
pub proof fn lemma_merged(into: Seq<Index>, indices: Seq<Index>)
    ensures
        forall|i: Index| #[trigger]
            merged(into, indices).contains(i) <==> (into.contains(i) || indices.contains(i)),
        into.no_duplicates() ==> merged(into, indices).no_duplicates(),
        merged(into, indices).len() >= into.len(),
        merged(Seq::empty(), indices).len() > 0 <==> indices.len() > 0,
    decreases indices.len(),
{
    if indices.len() > 0 {
        let rest = indices.drop_last();
        lemma_merged(into, rest);
        lemma_merged(Seq::empty(), rest);
        lemma_with_index(merged(into, rest), indices.last());
        lemma_with_index(merged(Seq::empty(), rest), indices.last());
        assert forall|i: Index| indices.contains(i) <==> (rest.contains(i) || i
            == indices.last()) by {
            if indices.contains(i) {
                let k = choose|k: int| 0 <= k < indices.len() && indices[k] == i;
                if k < rest.len() {
                    assert(rest[k] == i);
                }
            }
            if rest.contains(i) {
                let k = choose|k: int| 0 <= k < rest.len() && rest[k] == i;
                assert(indices[k] == i);
            }
            if i == indices.last() {
                assert(indices[indices.len() - 1] == i);
            }
        }
    }
}

/// Adding an item to the last block changes no edge.
proof fn lemma_appended_edges(bs: Seq<BlockModel>, item: Item)
    requires
        consistent(bs),
    ensures
        appended(bs, item).len() == bs.len(),
        forall|i: int|
            0 <= i < bs.len() ==> (#[trigger] appended(bs, item)[i]).predecessors
                == bs[i].predecessors && appended(bs, item)[i].successors == bs[i].successors,
        forall|i: int| 0 <= i < bs.len() - 1 ==> appended(bs, item)[i] == bs[i],
        appended(bs, item).last().items == bs.last().items.push(item),
        edges_consistent(appended(bs, item)),
{
    let r = appended(bs, item);
    assert forall|i: int| 0 <= i < r.len() implies (#[trigger] r[i]).predecessors.no_duplicates()
        && r[i].successors.no_duplicates() by {
        assert(bs[i].predecessors.no_duplicates());
    }
    assert forall|i: int, x: Index|
        0 <= i < r.len() && (#[trigger] r[i].predecessors.contains(x)) implies x < r.len() by {
        assert(bs[i].predecessors.contains(x));
    }
    assert forall|i: int, x: Index|
        0 <= i < r.len() && (#[trigger] r[i].successors.contains(x)) implies x < r.len() by {
        assert(bs[i].successors.contains(x));
    }
    assert forall|a: Index, b: Index| a < r.len() && b < r.len() implies (
    #[trigger] r[a as int].successors.contains(b) <==> #[trigger] r[b as int].predecessors.contains(
        a,
    )) by {
        assert(bs[a as int].successors.contains(b) <==> bs[b as int].predecessors.contains(a));
    }
    assert forall|i: int| 0 < i < r.len() implies (#[trigger] r[i]).predecessors.len() > 0 by {
        assert(bs[i].predecessors.len() > 0);
    }
}

/// Adding a plain item to a ready graph leaves it ready.
pub proof fn lemma_appended_plain(bs: Seq<BlockModel>, item: Item)
    requires
        ready(bs),
        item is Plain,
    ensures
        ready(appended(bs, item)),
        !pending(appended(bs, item)),
        appended(bs, item).len() == bs.len(),
        forall|i: int| 0 <= i < bs.len() - 1 ==> appended(bs, item)[i] == bs[i],
{
    lemma_appended_edges(bs, item);
    let r = appended(bs, item);
    assert forall|i: int| 0 <= i < r.len() implies #[trigger] closure_holds(r, i) by {
        assert(closure_holds(bs, i));
    }
}

/// Adding a branch to the next block to a ready graph leaves it consistent,
/// with that branch pending.
pub proof fn lemma_appended_branch(bs: Seq<BlockModel>, item: Item)
    requires
        ready(bs),
        item matches Item::Branch { if_true, if_false, .. } && if_true == bs.len()
            && if_false is None,
    ensures
        consistent(appended(bs, item)),
        open_at(appended(bs, item), (bs.len() - 1) as Index),
        appended(bs, item).len() == bs.len(),
        forall|i: int| 0 <= i < bs.len() - 1 ==> appended(bs, item)[i] == bs[i],
{
    lemma_appended_edges(bs, item);
    let r = appended(bs, item);
    assert forall|i: int| 0 <= i < r.len() implies #[trigger] closure_holds(r, i) by {
        assert(closure_holds(bs, i));
    }
}

/// Completing a block behind open blocks keeps the graph consistent and
/// leaves it ready.
pub proof fn lemma_completed(bs: Seq<BlockModel>, preds: Seq<Index>, meta: ast::Meta)
    requires
        consistent(bs),
        bs.len() < usize::MAX,
        preds.len() > 0,
        preds.no_duplicates(),
        forall|x: Index| preds.contains(x) ==> open_at(bs, x),
        pending(bs) ==> preds.contains((bs.len() - 1) as Index),
    ensures
        ready(completed(bs, preds, meta)),
        !pending(completed(bs, preds, meta)),
        completed(bs, preds, meta).len() == bs.len() + 1,
        completed(bs, preds, meta).last() == (BlockModel { predecessors: preds, ..fresh_block(meta) }),
        forall|i: int|
            0 <= i < bs.len() && !preds.contains(i as Index) ==> completed(bs, preds, meta)[i]
                == bs[i],
        forall|x: Index|
            x < bs.len() && !preds.contains(x) && open_at(bs, x) ==> open_at(
                completed(bs, preds, meta),
                x,
            ),
{
    let r = completed(bs, preds, meta);
    let j = bs.len() as Index;
    assert forall|i: int| 0 <= i < r.len() implies (#[trigger] r[i]).predecessors.no_duplicates()
        && r[i].successors.no_duplicates() by {
        if i < bs.len() {
            lemma_with_index(bs[i].successors, j);
        }
    }
    assert forall|i: int, x: Index|
        0 <= i < r.len() && (#[trigger] r[i].predecessors.contains(x)) implies x < r.len() by {
        if i < bs.len() {
            assert(bs[i].predecessors.contains(x));
        } else {
            assert(open_at(bs, x));
        }
    }
    assert forall|i: int, x: Index|
        0 <= i < r.len() && (#[trigger] r[i].successors.contains(x)) implies x < r.len() by {
        if i < bs.len() {
            lemma_with_index(bs[i].successors, j);
            if x != j {
                assert(bs[i].successors.contains(x));
            }
        }
    }
    assert forall|a: Index, b: Index| a < r.len() && b < r.len() implies (
    #[trigger] r[a as int].successors.contains(b) <==> #[trigger] r[b as int].predecessors.contains(
        a,
    )) by {
        if a < bs.len() {
            lemma_with_index(bs[a as int].successors, j);
        }
        if a < bs.len() && b < bs.len() {
            assert(bs[a as int].successors.contains(b) <==> bs[b as int].predecessors.contains(a));
        } else if a < bs.len() {
            if bs[a as int].successors.contains(j) {
                assert(false);
            }
        } else if b < bs.len() {
            if bs[b as int].predecessors.contains(a) {
                assert(false);
            }
            if bs[b as int].successors.contains(j) {
                assert(false);
            }
        } else {
            assert(open_at(bs, a) ==> a < bs.len());
        }
    }
    assert forall|i: int| 0 < i < r.len() implies (#[trigger] r[i]).predecessors.len() > 0 by {
        if i < bs.len() {
            assert(bs[i].predecessors.len() > 0);
        }
    }
    assert forall|i: int| 0 <= i < r.len() implies #[trigger] closure_holds(r, i) by {
        if i < bs.len() {
            assert(closure_holds(bs, i));
            if preds.contains(i as Index) {
                let b = bs[i];
                if b.items.len() > 0 {
                    assert(r[i].items.last() == closed_item(b.items.last(), j));
                }
                match last_branch(b) {
                    Some((t, None)) => {
                        if b.successors.len() == 0 {
                            assert(with_index(b.successors, j) =~= seq![j]);
                        } else {
                            assert(!b.successors.contains(j)) by {
                                if b.successors.contains(j) {
                                    let k = choose|k: int|
                                        0 <= k < b.successors.len() && b.successors[k] == j;
                                    assert(b.successors[k] == j);
                                }
                            }
                            assert(with_index(b.successors, j) =~= seq![t, j]);
                        }
                    },
                    Some((t, Some(f))) => {},
                    None => {
                        assert(with_index(b.successors, j) =~= seq![j]);
                    },
                }
            } else {
                if pending(bs) && i == bs.len() - 1 {
                    assert(false);
                }
            }
        }
    }
    assert forall|x: Index| x < bs.len() && !preds.contains(x) && open_at(bs, x) implies open_at(
        r,
        x,
    ) by {
        assert(closure_holds(bs, x as int));
    }
}

/// A branch into a new block keeps the graph consistent and leaves it ready.
/// The block that got the branch is open, and its true target is the new
/// block.
pub proof fn lemma_branched(
    bs: Seq<BlockModel>,
    meta: ast::Meta,
    cond: ast::Expression,
    scopes: Seq<Scope>,
    next_meta: ast::Meta,
)
    requires
        ready(bs),
        bs.len() < usize::MAX,
    ensures
        ready(branched(bs, meta, cond, scopes, next_meta)),
        !pending(branched(bs, meta, cond, scopes, next_meta)),
        branched(bs, meta, cond, scopes, next_meta).len() == bs.len() + 1,
        forall|i: int| 0 <= i < bs.len() - 1 ==> branched(bs, meta, cond, scopes, next_meta)[i] == bs[i],
        open_at(branched(bs, meta, cond, scopes, next_meta), (bs.len() - 1) as Index),
        branched(bs, meta, cond, scopes, next_meta)[bs.len() - 1].predecessors == bs.last().predecessors,
{
    let item = Item::Branch { meta, cond, scopes, if_true: bs.len() as Index, if_false: None };
    let current = (bs.len() - 1) as Index;
    let preds = seq![current];
    let a = appended(bs, item);
    lemma_appended_branch(bs, item);
    assert(preds[0] == current);
    assert forall|x: Index| preds.contains(x) implies open_at(a, x) by {
        let k = choose|k: int| 0 <= k < preds.len() && preds[k] == x;
        assert(preds[k] == x);
    }
    lemma_completed(a, preds, next_meta);
    let r = completed(a, preds, next_meta);
    assert forall|i: int| 0 <= i < bs.len() - 1 implies r[i] == bs[i] by {
        if preds.contains(i as Index) {
            let k = choose|k: int| 0 <= k < preds.len() && preds[k] == i as Index;
            assert(preds[k] == i as Index);
        }
    }
    assert(closure_holds(r, current as int));
}

/// Edges from open blocks back to a loop header keep the graph consistent.
pub proof fn lemma_looped(bs: Seq<BlockModel>, preds: Seq<Index>, header: Index)
    requires
        consistent(bs),
        !pending(bs),
        header < bs.len(),
        bs[header as int].predecessors.len() > 0,
        preds.no_duplicates(),
        forall|x: Index| preds.contains(x) ==> header < x && open_at(bs, x),
    ensures
        consistent(looped(bs, preds, header)),
        !pending(looped(bs, preds, header)),
        looped(bs, preds, header).len() == bs.len(),
        forall|i: int|
            0 <= i < bs.len() ==> (#[trigger] looped(bs, preds, header)[i]).items == bs[i].items
                && looped(bs, preds, header)[i].meta == bs[i].meta,
        forall|i: int|
            0 <= i < bs.len() && !preds.contains(i as Index) ==> (#[trigger] looped(
                bs,
                preds,
                header,
            )[i]).successors == bs[i].successors,
        forall|i: int|
            0 <= i < bs.len() && i != header ==> (#[trigger] looped(
                bs,
                preds,
                header,
            )[i]).predecessors == bs[i].predecessors,
{
    let r = looped(bs, preds, header);
    lemma_merged(bs[header as int].predecessors, preds);
    assert forall|i: int| 0 <= i < r.len() implies (#[trigger] r[i]).predecessors.no_duplicates()
        && r[i].successors.no_duplicates() by {
        lemma_with_index(bs[i].successors, header);
    }
    assert forall|i: int, x: Index|
        0 <= i < r.len() && (#[trigger] r[i].predecessors.contains(x)) implies x < r.len() by {
        if i == header && !bs[i].predecessors.contains(x) {
            assert(preds.contains(x));
            assert(open_at(bs, x));
        } else {
            assert(bs[i].predecessors.contains(x));
        }
    }
    assert forall|i: int, x: Index|
        0 <= i < r.len() && (#[trigger] r[i].successors.contains(x)) implies x < r.len() by {
        lemma_with_index(bs[i].successors, header);
        if x != header {
            assert(bs[i].successors.contains(x));
        }
    }
    assert forall|a: Index, b: Index| a < r.len() && b < r.len() implies (
    #[trigger] r[a as int].successors.contains(b) <==> #[trigger] r[b as int].predecessors.contains(
        a,
    )) by {
        lemma_with_index(bs[a as int].successors, header);
    }
    assert forall|i: int| 0 < i < r.len() implies (#[trigger] r[i]).predecessors.len() > 0 by {
        assert(bs[i].predecessors.len() > 0);
    }
    assert forall|i: int| 0 <= i < r.len() implies #[trigger] closure_holds(r, i) by {
        assert(closure_holds(bs, i));
        if preds.contains(i as Index) {
            let b = bs[i];
            match last_branch(b) {
                Some((t, None)) => {
                    assert(!b.successors.contains(header)) by {
                        if b.successors.contains(header) {
                            let k = choose|k: int|
                                0 <= k < b.successors.len() && b.successors[k] == header;
                            assert(b.successors[k] == header);
                        }
                    }
                },
                Some((t, Some(f))) => {},
                None => {
                    assert(with_index(b.successors, header) =~= seq![header]);
                },
            }
        }
    }
}

/// What visiting `stmt` makes of the builder state `m`, and the blocks that
/// a block behind `stmt` follows on.
///
/// A plain statement is added to the last block. A declaration is recorded in
/// the innermost scope. A block opens a scope of its own; behind a statement
/// of it that ended in control flow a new block is begun. An `if` ends the
/// block with a branch, and each of its cases begins a block; what follows
/// the `if` follows on where its cases end and, without an `else`, on the
/// branch, but not on a case without `else` that ends in a return. A `while`
/// begins a block for its header, which branches into the block of its body
/// and is where the body leads back to from where it ends.
pub open spec fn visited(stmt: ast::Statement, m: BuilderModel) -> Result<
    (BuilderModel, Seq<Index>),
    CFGError,
>
    decreases stmt, 0nat,
{
    match stmt {
        ast::Statement::InitializationBlock { initializations, .. } => visited_initializations(
            initializations@,
            initializations@.len(),
            m,
        ),
        ast::Statement::Block { stmts, .. } => match visited_block(
            stmts@,
            stmts@.len(),
            BuilderModel { scopes: m.scopes.push(Seq::empty()), ..m },
        ) {
            Ok((m2, preds)) => Ok((BuilderModel { scopes: m2.scopes.drop_last(), ..m2 }, preds)),
            Err(error) => Err(error),
        },
        ast::Statement::While { meta, cond, stmt: body } => {
            if !resolves_expression(cond, m.scopes) {
                Err(CFGError::UnknownSymbol)
            } else {
                let header = m.blocks.len() as Index;
                let b1 = completed(m.blocks, seq![(m.blocks.len() - 1) as Index], meta);
                let b3 = branched(b1, meta, cond, m.scopes, body.meta());
                match visited(*body, BuilderModel { blocks: b3, ..m }) {
                    Err(error) => Err(error),
                    Ok((m4, preds)) => Ok(
                        (
                            BuilderModel {
                                blocks: looped(m4.blocks, fallthrough(m4.blocks, preds), header),
                                ..m4
                            },
                            seq![header],
                        ),
                    ),
                }
            }
        },
        ast::Statement::IfThenElse { meta, cond, if_case, else_case } => {
            if !resolves_expression(cond, m.scopes) {
                Err(CFGError::UnknownSymbol)
            } else {
                let current = (m.blocks.len() - 1) as Index;
                let b2 = branched(m.blocks, meta, cond, m.scopes, if_case.meta());
                match visited(*if_case, BuilderModel { blocks: b2, ..m }) {
                    Err(error) => Err(error),
                    Ok((m3, preds)) => {
                        let if_preds = if else_case is Some {
                            fallthrough(m3.blocks, preds)
                        } else {
                            fallthrough_unless_returned(m3.blocks, preds)
                        };
                        match else_case {
                            Some(else_case) => {
                                let b4 = completed(m3.blocks, seq![current], else_case.meta());
                                match visited(*else_case, BuilderModel { blocks: b4, ..m3 }) {
                                    Err(error) => Err(error),
                                    Ok((m5, else_preds)) => Ok(
                                        (m5, merged(if_preds, fallthrough(m5.blocks, else_preds))),
                                    ),
                                }
                            },
                            None => Ok((m3, with_index(if_preds, current))),
                        }
                    },
                }
            }
        },
        ast::Statement::Declaration { xtype, name, dimensions, .. } => {
            if !resolves_expressions(dimensions@, m.scopes) {
                Err(CFGError::UnknownSymbol)
            } else {
                match declared_in(m.scopes, name@, xtype) {
                    Err(error) => Err(error),
                    Ok(scopes) => Ok(
                        (
                            BuilderModel {
                                scopes,
                                recorded: m.recorded.push(Recorded { stmt, scopes: m.scopes }),
                                ..m
                            },
                            Seq::empty(),
                        ),
                    ),
                }
            }
        },
        _ => {
            if !resolves_statement(stmt, m.scopes) {
                Err(CFGError::UnknownSymbol)
            } else {
                Ok(
                    (
                        BuilderModel {
                            blocks: appended(m.blocks, Item::Plain { stmt, scopes: m.scopes }),
                            ..m
                        },
                        Seq::empty(),
                    ),
                )
            }
        },
    }
}

/// What visiting the first `n` statements of a block makes of `m`: behind a
/// statement that ended in control flow, the next one begins a new block.
pub open spec fn visited_block(stmts: Seq<ast::Statement>, n: nat, m: BuilderModel) -> Result<
    (BuilderModel, Seq<Index>),
    CFGError,
>
    decreases stmts, n,
{
    if n == 0 || n > stmts.len() {
        Ok((m, Seq::empty()))
    } else {
        match visited_block(stmts, (n - 1) as nat, m) {
            Err(error) => Err(error),
            Ok((m1, preds)) => {
                let begun = if preds.len() > 0 {
                    BuilderModel { blocks: completed(m1.blocks, preds, stmts[n - 1].meta()), ..m1 }
                } else {
                    m1
                };
                visited(stmts[n - 1], begun)
            },
        }
    }
}

/// What visiting the first `n` statements of an initialization block makes
/// of `m`. Each has to be a declaration or a substitution.
pub open spec fn visited_initializations(
    stmts: Seq<ast::Statement>,
    n: nat,
    m: BuilderModel,
) -> Result<(BuilderModel, Seq<Index>), CFGError>
    decreases stmts, n,
{
    if n == 0 || n > stmts.len() {
        Ok((m, Seq::empty()))
    } else {
        match visited_initializations(stmts, (n - 1) as nat, m) {
            Err(error) => Err(error),
            Ok((m1, _)) => {
                if !(stmts[n - 1] is Declaration || stmts[n - 1] is Substitution) {
                    Err(CFGError::MalformedInitBlock)
                } else {
                    visited(stmts[n - 1], m1)
                }
            },
        }
    }
}

/// The blocks that the body `body` of a definition is built into, where
/// `scopes` are open at its start.
pub open spec fn built(body: ast::Statement, scopes: Seq<Scope>) -> Result<BuilderModel, CFGError> {
    match visited(
        body,
        BuilderModel { scopes, recorded: Seq::empty(), blocks: seq![fresh_block(body.meta())] },
    ) {
        Ok((m, _)) => Ok(m),
        Err(error) => Err(error),
    }
}

/// Once a statement of a block fails, the block fails in the same way.
pub proof fn lemma_visited_block_fails(stmts: Seq<ast::Statement>, k: nat, n: nat, m: BuilderModel)
    requires
        visited_block(stmts, k, m) is Err,
        k <= n <= stmts.len(),
    ensures
        visited_block(stmts, n, m) == visited_block(stmts, k, m),
    decreases n,
{
    if k < n {
        lemma_visited_block_fails(stmts, k, (n - 1) as nat, m);
    }
}

/// Once a statement of an initialization block fails, the block fails in the
/// same way.
pub proof fn lemma_visited_initializations_fail(
    stmts: Seq<ast::Statement>,
    k: nat,
    n: nat,
    m: BuilderModel,
)
    requires
        visited_initializations(stmts, k, m) is Err,
        k <= n <= stmts.len(),
    ensures
        visited_initializations(stmts, n, m) == visited_initializations(stmts, k, m),
    decreases n,
{
    if k < n {
        lemma_visited_initializations_fail(stmts, k, (n - 1) as nat, m);
    }
}

/// What a visit that began in state `m` and ended in state `m2` with the
/// open blocks `preds` has kept and established.
pub open spec fn visit_kept(m: BuilderModel, m2: BuilderModel, preds: Seq<Index>) -> bool {
    &&& consistent(m2.blocks)
    &&& !pending(m2.blocks)
    &&& m2.blocks.len() >= m.blocks.len()
    &&& m2.scopes.len() == m.scopes.len()
    &&& m2.scopes.drop_last() == m.scopes.drop_last()
    &&& forall|i: int| 0 <= i < m.blocks.len() - 1 ==> m2.blocks[i] == m.blocks[i]
    &&& preds.no_duplicates()
    &&& forall|x: Index| preds.contains(x) ==> m.blocks.len() - 1 <= x && open_at(m2.blocks, x)
    &&& preds.len() == 0 ==> ready(m2.blocks)
}

/// Two visits in a row keep what one visit keeps.
pub proof fn lemma_kept_chain(
    m: BuilderModel,
    a: BuilderModel,
    pa: Seq<Index>,
    b: BuilderModel,
    c: BuilderModel,
    pc: Seq<Index>,
)
    requires
        m.blocks.len() > 0,
        visit_kept(m, a, pa),
        b.scopes == a.scopes,
        b.blocks.len() >= a.blocks.len(),
        forall|i: int| 0 <= i < m.blocks.len() - 1 ==> b.blocks[i] == a.blocks[i],
        visit_kept(b, c, pc),
    ensures
        visit_kept(m, c, pc),
{
    assert forall|i: int| 0 <= i < m.blocks.len() - 1 implies c.blocks[i] == m.blocks[i] by {
        assert(b.blocks[i] == a.blocks[i]);
    }
}

/// A block that was open stays open where it is kept as it is and is not the
/// last one.
pub proof fn lemma_open_stays(bs: Seq<BlockModel>, later: Seq<BlockModel>, x: Index)
    requires
        consistent(bs),
        !pending(bs),
        open_at(bs, x),
        later.len() >= bs.len(),
        later[x as int] == bs[x as int],
    ensures
        open_at(later, x),
{
    assert(closure_holds(bs, x as int));
}

/// `s` is the lowered form of what `item` names.
pub open spec fn item_matches(item: Item, s: ir::Statement) -> bool {
    match item {
        Item::Plain { stmt, scopes } => lowered_statement(stmt, scopes, s),
        Item::Branch { meta, cond, scopes, if_true, if_false } => {
            &&& s matches ir::Statement::IfThenElse { meta: m, cond: c, if_true: t, if_false: f }
            &&& ir::lowered_meta(meta, m)
            &&& lowered_expression(cond, scopes, c)
            &&& t == if_true
            &&& f == if_false
        },
    }
}

/// The block `b` at position `i` is what the model `bm` describes.
pub open spec fn block_matches(b: BasicBlock, bm: BlockModel, i: int) -> bool {
    &&& b.index() == i
    &&& ir::lowered_meta(bm.meta, b.meta())
    &&& b.predecessors() == bm.predecessors
    &&& b.successors() == bm.successors
    &&& b.statements().len() == bm.items.len()
    &&& forall|k: int|
        0 <= k < bm.items.len() ==> item_matches(#[trigger] bm.items[k], b.statements()[k])
}

/// The blocks are what the model describes, one for one.
pub open spec fn blocks_match(blocks: Seq<BasicBlock>, bs: Seq<BlockModel>) -> bool {
    &&& blocks.len() == bs.len()
    &&& forall|i: int| 0 <= i < bs.len() ==> block_matches(#[trigger] blocks[i], bs[i], i)
}

/// Blocks that are what a consistent model describes, with no branch
/// pending, form a well-formed graph.
pub proof fn lemma_graph_well_formed(blocks: Seq<BasicBlock>, bs: Seq<BlockModel>)
    requires
        blocks_match(blocks, bs),
        consistent(bs),
        !pending(bs),
    ensures
        graph_well_formed(blocks),
{
    assert forall|i: int| 0 <= i < blocks.len() implies (#[trigger] blocks[i]).index() == i
        && blocks[i].well_formed() by {
        assert(block_matches(blocks[i], bs[i], i));
        assert(bs[i].predecessors.no_duplicates());
    }
    assert forall|i: int, x: Index|
        0 <= i < blocks.len() && (#[trigger] blocks[i].predecessors().contains(x)) implies x
        < blocks.len() by {
        assert(block_matches(blocks[i], bs[i], i));
        assert(bs[i].predecessors.contains(x));
    }
    assert forall|i: int, x: Index|
        0 <= i < blocks.len() && (#[trigger] blocks[i].successors().contains(x)) implies x
        < blocks.len() by {
        assert(block_matches(blocks[i], bs[i], i));
        assert(bs[i].successors.contains(x));
    }
    assert forall|i: Index, j: Index| i < blocks.len() && j < blocks.len() implies (
    #[trigger] blocks[i as int].successors().contains(j)
        <==> #[trigger] blocks[j as int].predecessors().contains(i)) by {
        assert(block_matches(blocks[i as int], bs[i as int], i as int));
        assert(block_matches(blocks[j as int], bs[j as int], j as int));
        assert(bs[i as int].successors.contains(j) <==> bs[j as int].predecessors.contains(i));
    }
    assert forall|i: int| 0 < i < blocks.len() implies (#[trigger] blocks[i]).predecessors().len()
        > 0 by {
        assert(block_matches(blocks[i], bs[i], i));
        assert(bs[i].predecessors.len() > 0);
    }
    assert forall|i: int| 0 <= i < blocks.len() implies #[trigger] branch_closed(blocks, i) by {
        assert(closure_holds(bs, i));
        let n = bs[i].items.len() as int;
        if n > 0 {
            assert(item_matches(bs[i].items[n - 1], blocks[i].statements()[n - 1]));
        }
    }
}

/// The environment is what the model describes: the same scopes, and behind
/// the first `base` declarations one for each that the model recorded.
pub open spec fn environment_matches(env: IREnvironment, m: BuilderModel, base: nat) -> bool {
    &&& env.well_formed()
    &&& env.scopes() == m.scopes
    &&& env.declarations().len() == base + m.recorded.len()
    &&& forall|k: int|
        0 <= k < m.recorded.len() ==> lowered_declaration(
            (#[trigger] m.recorded[k]).stmt,
            m.recorded[k].scopes,
            env.declarations()[base + k],
        )
}

/// Every variable that a statement of a block mentions has its name in
/// `names`.
pub open spec fn blocks_names_within(blocks: Seq<BasicBlock>, names: Set<NameView>) -> bool {
    forall|i: int, k: int|
        0 <= i < blocks.len() && 0 <= k < blocks[i].statements().len()
            ==> ir::statement_names_within(#[trigger] blocks[i].statements()[k], names)
}

/// The beginning of a list without repetitions, taken one entry further, is
/// what it was with that entry added, and the entry is new.
pub proof fn lemma_take_one_more(list: Seq<Index>, n: int)
    requires
        list.no_duplicates(),
        0 <= n < list.len(),
    ensures
        list.take(n + 1) == list.take(n).push(list[n]),
        list.take(n + 1).drop_last() == list.take(n),
        !list.take(n).contains(list[n]),
        with_index(list.take(n), list[n]) == list.take(n + 1),
        forall|x: Index| #[trigger]
            list.take(n + 1).contains(x) <==> (list.take(n).contains(x) || x == list[n]),
{
    let done = list.take(n);
    let next = list.take(n + 1);
    assert(next =~= done.push(list[n]));
    assert(next.drop_last() =~= done);
    assert(!done.contains(list[n])) by {
        if done.contains(list[n]) {
            let k = choose|k: int| 0 <= k < done.len() && done[k] == list[n];
            assert(list[k] == list[n]);
        }
    }
    assert forall|x: Index| #[trigger] next.contains(x) <==> (done.contains(x) || x == list[n]) by {
        if next.contains(x) {
            let k = choose|k: int| 0 <= k < next.len() && next[k] == x;
            if k < done.len() {
                assert(done[k] == x);
            }
        }
        if done.contains(x) {
            let k = choose|k: int| 0 <= k < done.len() && done[k] == x;
            assert(next[k] == x);
        }
        assert(next[n] == list[n]);
    }
}

/// The blocks of `after` hold the statements that those of `before` hold,
/// but that the branch at the end of a block may have been closed; blocks
/// that `after` has more are empty.
pub open spec fn statements_kept(before: Seq<BasicBlock>, after: Seq<BasicBlock>) -> bool {
    &&& before.len() <= after.len()
    &&& forall|a: int|
        0 <= a < before.len() ==> (#[trigger] after[a]).statements() == before[a].statements()
            || exists|target: Index|
            after[a].statements() == closed_branch(before[a].statements(), target)
    &&& forall|a: int|
        before.len() <= a < after.len() ==> (#[trigger] after[a]).statements().len() == 0
}

/// Where the statements are kept, the names they mention are those they
/// mentioned.
pub proof fn lemma_statements_kept(before: Seq<BasicBlock>, after: Seq<BasicBlock>)
    requires
        statements_kept(before, after),
    ensures
        forall|names: Set<NameView>|
            blocks_names_within(before, names) ==> blocks_names_within(after, names),
{
    assert forall|names: Set<NameView>| blocks_names_within(before, names) implies
        blocks_names_within(after, names) by {
        assert forall|a: int, q: int|
            0 <= a < after.len() && 0 <= q < after[a].statements().len()
            implies ir::statement_names_within(#[trigger] after[a].statements()[q], names) by {
            assert(ir::statement_names_within(before[a].statements()[q], names));
        }
    }
}

/// Where one statement that mentions declared names only was added to a
/// block, the blocks still mention declared names only.
pub proof fn lemma_statement_added(
    before: Seq<BasicBlock>,
    after: Seq<BasicBlock>,
    at: int,
    stmt: ir::Statement,
    names: Set<NameView>,
)
    requires
        blocks_names_within(before, names),
        ir::statement_names_within(stmt, names),
        0 <= at < before.len() == after.len(),
        after[at].statements() == before[at].statements().push(stmt),
        forall|a: int| 0 <= a < after.len() && a != at ==> #[trigger] after[a] == before[a],
    ensures
        blocks_names_within(after, names),
{
    assert forall|a: int, q: int| 0 <= a < after.len() && 0 <= q < after[a].statements().len()
        implies ir::statement_names_within(#[trigger] after[a].statements()[q], names) by {
        if a != at || q < before[a].statements().len() {
            assert(ir::statement_names_within(before[a].statements()[q], names));
        }
    }
}

/// Where a statement was added at the end of the last block, and the model
/// got the item it is the lowered form of, the blocks are still what the
/// model describes.
pub proof fn lemma_appended_matches(
    before: Seq<BasicBlock>,
    after: Seq<BasicBlock>,
    bs: Seq<BlockModel>,
    item: Item,
)
    requires
        blocks_match(before, bs),
        0 < before.len() == after.len(),
        forall|a: int| 0 <= a < after.len() - 1 ==> #[trigger] after[a] == before[a],
        after.last().index() == before.last().index(),
        after.last().meta() == before.last().meta(),
        after.last().predecessors() == before.last().predecessors(),
        after.last().successors() == before.last().successors(),
        after.last().statements().len() == before.last().statements().len() + 1,
        after.last().statements().drop_last() == before.last().statements(),
        item_matches(item, after.last().statements().last()),
    ensures
        blocks_match(after, appended(bs, item)),
{
    let r = appended(bs, item);
    let last = before.len() - 1;
    assert forall|i: int| 0 <= i < r.len() implies block_matches(#[trigger] after[i], r[i], i) by {
        assert(block_matches(before[i], bs[i], i));
        if i == last {
            assert forall|k: int| 0 <= k < r[i].items.len() implies item_matches(
                #[trigger] r[i].items[k],
                after[i].statements()[k],
            ) by {
                if k < bs[i].items.len() {
                    assert(item_matches(bs[i].items[k], before[i].statements()[k]));
                    assert(after[i].statements().drop_last()[k] == before[i].statements()[k]);
                }
            }
        }
    }
}

/// The names that `stmt` declares, of whatever kind, in source order.
pub open spec fn declarations_in(stmt: ast::Statement) -> Seq<NameView>
    decreases stmt, 0nat,
{
    match stmt {
        ast::Statement::Block { stmts, .. } => declarations_in_first(stmts@, stmts@.len()),
        ast::Statement::InitializationBlock { initializations, .. } => declarations_in_first(
            initializations@,
            initializations@.len(),
        ),
        ast::Statement::IfThenElse { if_case, else_case, .. } => {
            declarations_in(*if_case) + match else_case {
                Some(else_case) => declarations_in(*else_case),
                None => Seq::empty(),
            }
        },
        ast::Statement::While { stmt: body, .. } => declarations_in(*body),
        ast::Statement::Declaration { name, .. } => seq![name@],
        _ => Seq::empty(),
    }
}

/// The names that the first `n` of `stmts` declare, in source order.
pub open spec fn declarations_in_first(stmts: Seq<ast::Statement>, n: nat) -> Seq<NameView>
    decreases stmts, n,
{
    if n == 0 || n > stmts.len() {
        Seq::empty()
    } else {
        declarations_in_first(stmts, (n - 1) as nat) + declarations_in(stmts[n - 1])
    }
}

/// The names of the declarations that were recorded, in order.
pub open spec fn recorded_names(recorded: Seq<Recorded>) -> Seq<NameView> {
    Seq::new(recorded.len(), |k: int| recorded[k].stmt->name@)
}

/// A visit that succeeds records the declarations of the statement, each
/// once and in source order.
pub proof fn lemma_visited_records(stmt: ast::Statement, m: BuilderModel)
    requires
        visited(stmt, m) is Ok,
    ensures
        recorded_names(visited(stmt, m)->Ok_0.0.recorded) == recorded_names(m.recorded)
            + declarations_in(stmt),
    decreases stmt, 0nat,
{
    let names = recorded_names(m.recorded);
    match stmt {
        ast::Statement::InitializationBlock { initializations, .. } => {
            lemma_visited_initializations_record(initializations@, initializations@.len(), m);
        },
        ast::Statement::Block { stmts, .. } => {
            let entered = BuilderModel { scopes: m.scopes.push(Seq::empty()), ..m };
            lemma_visited_block_records(stmts@, stmts@.len(), entered);
        },
        ast::Statement::While { meta, cond, stmt: body } => {
            let b1 = completed(m.blocks, seq![(m.blocks.len() - 1) as Index], meta);
            let b3 = branched(b1, meta, cond, m.scopes, body.meta());
            lemma_visited_records(*body, BuilderModel { blocks: b3, ..m });
        },
        ast::Statement::IfThenElse { meta, cond, if_case, else_case } => {
            let b2 = branched(m.blocks, meta, cond, m.scopes, if_case.meta());
            let m2 = BuilderModel { blocks: b2, ..m };
            lemma_visited_records(*if_case, m2);
            let m3 = visited(*if_case, m2)->Ok_0.0;
            match else_case {
                Some(else_case) => {
                    let b4 = completed(
                        m3.blocks,
                        seq![(m.blocks.len() - 1) as Index],
                        else_case.meta(),
                    );
                    lemma_visited_records(*else_case, BuilderModel { blocks: b4, ..m3 });
                    assert(names + declarations_in(stmt) =~= names + declarations_in(*if_case)
                        + declarations_in(*else_case));
                },
                None => {
                    assert(names + declarations_in(stmt) =~= names + declarations_in(*if_case));
                },
            }
        },
        ast::Statement::Declaration { name, .. } => {
            let after = visited(stmt, m)->Ok_0.0.recorded;
            assert(recorded_names(after) =~= names + seq![name@]);
        },
        _ => {
            assert(names + declarations_in(stmt) =~= names);
        },
    }
}

/// The first `n` statements of a block that is visited with success record
/// their declarations, each once and in source order.
pub proof fn lemma_visited_block_records(stmts: Seq<ast::Statement>, n: nat, m: BuilderModel)
    requires
        n <= stmts.len(),
        visited_block(stmts, n, m) is Ok,
    ensures
        recorded_names(visited_block(stmts, n, m)->Ok_0.0.recorded) == recorded_names(m.recorded)
            + declarations_in_first(stmts, n),
    decreases stmts, n,
{
    let names = recorded_names(m.recorded);
    if n == 0 {
        assert(names + declarations_in_first(stmts, 0) =~= names);
    } else {
        let k = (n - 1) as nat;
        lemma_visited_block_records(stmts, k, m);
        let (m1, preds) = visited_block(stmts, k, m)->Ok_0;
        let begun = if preds.len() > 0 {
            BuilderModel { blocks: completed(m1.blocks, preds, stmts[k as int].meta()), ..m1 }
        } else {
            m1
        };
        lemma_visited_records(stmts[k as int], begun);
        assert(names + declarations_in_first(stmts, n) =~= names + declarations_in_first(stmts, k)
            + declarations_in(stmts[k as int]));
    }
}

/// The first `n` statements of an initialization block that is visited with
/// success record their declarations, each once and in source order.
pub proof fn lemma_visited_initializations_record(
    stmts: Seq<ast::Statement>,
    n: nat,
    m: BuilderModel,
)
    requires
        n <= stmts.len(),
        visited_initializations(stmts, n, m) is Ok,
    ensures
        recorded_names(visited_initializations(stmts, n, m)->Ok_0.0.recorded) == recorded_names(
            m.recorded,
        ) + declarations_in_first(stmts, n),
    decreases stmts, n,
{
    let names = recorded_names(m.recorded);
    if n == 0 {
        assert(names + declarations_in_first(stmts, 0) =~= names);
    } else {
        let k = (n - 1) as nat;
        lemma_visited_initializations_record(stmts, k, m);
        let m1 = visited_initializations(stmts, k, m)->Ok_0.0;
        lemma_visited_records(stmts[k as int], m1);
        assert(names + declarations_in_first(stmts, n) =~= names + declarations_in_first(stmts, k)
            + declarations_in(stmts[k as int]));
    }
}

} // verus!
