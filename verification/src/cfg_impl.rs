//! The basic-block builder.
//!
//! The body of a definition is walked once. Statements go to the last block;
//! control flow ends blocks and begins new ones. Each visit hands back the
//! blocks that whatever follows it is a successor of.

use crate::ast;
use crate::basic_block::{
    BasicBlock, closed_branch, graph_well_formed, lemma_with_index, with_index,
};
use crate::cfg_model::{
    appended, block_matches, BlockModel, blocks_match, blocks_names_within, branched, BuilderModel,
    built, closed_items, completed, consistent, ends_in_return, environment_matches, fallthrough,
    fallthrough_unless_returned, fresh_block, Item, item_matches, lemma_appended_matches,
    lemma_appended_plain, lemma_branched, lemma_completed, lemma_entry_is_ready,
    lemma_graph_well_formed, lemma_kept_chain, lemma_looped, lemma_merged, lemma_open_stays,
    lemma_statement_added, lemma_statements_kept, lemma_take_one_more, lemma_visited_block_fails,
    lemma_visited_initializations_fail, looped, merged, open_at, ready, statements_kept, visit_kept,
    visited, visited_block, visited_initializations,
};
use crate::environment::{declared_names, IREnvironment};
use crate::errors::CFGError;
use crate::ir;
use crate::ir::Index;
use crate::lowering::{
    is_plain, lemma_lowered_expression_names, lemma_lowered_statement_names, lowered_declaration,
    resolves_expression,
};
use vstd::prelude::*;

verus! {

/// Builds the basic blocks of the body of a definition.
///
/// There is at least one block, and the first one is the entry. On success
/// the blocks are those that the model `built` describes, they form a
/// well-formed graph, every variable that a statement mentions is among the
/// declarations of `env`, and `env` has the scopes open that it had before.
pub fn build_basic_blocks(body: &ast::Statement, env: &mut IREnvironment) -> (r: Result<
    Vec<BasicBlock>,
    CFGError,
>)
    requires
        old(env).well_formed(),
        *body is Block,
    ensures
        match built(*body, old(env).scopes()) {
            Ok(m) => {
                &&& r matches Ok(blocks)
                &&& blocks_match(blocks@, m.blocks)
                &&& graph_well_formed(blocks@)
                &&& blocks_names_within(blocks@, declared_names(final(env).declarations()))
                &&& environment_matches(*final(env), m, old(env).declarations().len())
                &&& final(env).scopes() == old(env).scopes()
                &&& old(env).declarations().is_prefix_of(final(env).declarations())
            },
            Err(error) => r == Err::<Vec<BasicBlock>, CFGError>(error),
        },
{
    let mut basic_blocks: Vec<BasicBlock> = Vec::new();
    basic_blocks.push(BasicBlock::new(0, ir::Meta::from_ast(body.get_meta())));
    let ghost m = BuilderModel {
        scopes: env.scopes(),
        recorded: Seq::empty(),
        blocks: seq![fresh_block(body.meta())],
    };
    let ghost base = env.declarations().len();
    proof {
        lemma_entry_is_ready(body.meta());
        env.lemma_has_scope();
    }
    visit_statement(body, env, &mut basic_blocks, Ghost(m), Ghost(base))?;
    proof {
        let m2 = visited(*body, m)->Ok_0.0;
        lemma_graph_well_formed(basic_blocks@, m2.blocks);
    }
    Ok(basic_blocks)
}

/// Ends the last block: adds a new block with `meta` behind the blocks of
/// `pred_set`. Each of them gets an edge into the new block; where it ends in
/// a branch whose false target is open and whose true target is another
/// block, the new block becomes the false target.
fn complete_basic_block(
    basic_blocks: &mut Vec<BasicBlock>,
    pred_set: &Vec<Index>,
    meta: ir::Meta,
    Ghost(bs): Ghost<Seq<BlockModel>>,
    Ghost(source): Ghost<ast::Meta>,
)
    requires
        blocks_match(old(basic_blocks)@, bs),
        ir::lowered_meta(source, meta),
        pred_set@.no_duplicates(),
        forall|x: Index| pred_set@.contains(x) ==> x < bs.len(),
    ensures
        blocks_match(final(basic_blocks)@, completed(bs, pred_set@, source)),
        final(basic_blocks)@.len() == old(basic_blocks)@.len() + 1,
        forall|names: Set<crate::ast::NameView>|
            blocks_names_within(old(basic_blocks)@, names) ==> blocks_names_within(
                final(basic_blocks)@,
                names,
            ),
{
    let j = basic_blocks.len();
    basic_blocks.push(BasicBlock::new(j, meta));
    let mut n: usize = 0;
    assert(pred_set@.take(0) =~= Seq::<Index>::empty());
    assert(blocks_match(basic_blocks@, completed(bs, pred_set@.take(0), source))) by {
        let r = completed(bs, pred_set@.take(0), source);
        assert forall|i: int| 0 <= i < r.len() implies block_matches(
            #[trigger] basic_blocks@[i],
            r[i],
            i,
        ) by {
            if i < bs.len() {
                assert(basic_blocks@[i] == old(basic_blocks)@[i]);
                assert(block_matches(old(basic_blocks)@[i], bs[i], i));
            }
        }
    }
    while n < pred_set.len()
        invariant
            n <= pred_set@.len(),
            j == bs.len(),
            basic_blocks@.len() == j + 1,
            old(basic_blocks)@.len() == j,
            pred_set@.no_duplicates(),
            forall|x: Index| pred_set@.contains(x) ==> x < bs.len(),
            blocks_match(basic_blocks@, completed(bs, pred_set@.take(n as int), source)),
            forall|names: Set<crate::ast::NameView>|
                blocks_names_within(old(basic_blocks)@, names) ==> blocks_names_within(
                    basic_blocks@,
                    names,
                ),
        decreases pred_set@.len() - n,
    {
        let i = pred_set[n];
        let ghost before = basic_blocks@;
        let ghost done = pred_set@.take(n as int);
        let ghost next = pred_set@.take(n + 1);
        assert(pred_set@.contains(i));
        basic_blocks[i].add_successor(j);
        basic_blocks[j].add_predecessor(i);
        basic_blocks[i].close_branch(j);
        proof {
            let prev = completed(bs, done, source);
            let r = completed(bs, next, source);
            lemma_take_one_more(pred_set@, n as int);
            assert forall|k: int| 0 <= k < r.len() implies block_matches(
                #[trigger] basic_blocks@[k],
                r[k],
                k,
            ) by {
                if k == j {
                    assert(with_index(done, i) == next);
                } else if k == i {
                    let b = before[k];
                    let items = bs[k].items;
                    assert forall|q: int| 0 <= q < items.len() implies item_matches(
                        #[trigger] closed_items(items, j)[q],
                        closed_branch(b.statements(), j)[q],
                    ) by {
                        assert(item_matches(items[q], b.statements()[q]));
                    }
                } else {
                    assert(basic_blocks@[k] == before[k]);
                    assert(r[k] == prev[k]);
                }
            }
            assert(statements_kept(before, basic_blocks@)) by {
                assert(basic_blocks@[i as int].statements() == closed_branch(
                    before[i as int].statements(),
                    j,
                ));
            }
            lemma_statements_kept(before, basic_blocks@);
        }
        n += 1;
    }
    assert(pred_set@.take(n as int) =~= pred_set@);
}

/// Adds an edge from each block of `pred_set` back to the loop header.
fn add_loop_edges(
    basic_blocks: &mut Vec<BasicBlock>,
    pred_set: &Vec<Index>,
    header_index: Index,
    Ghost(bs): Ghost<Seq<BlockModel>>,
)
    requires
        blocks_match(old(basic_blocks)@, bs),
        header_index < bs.len(),
        pred_set@.no_duplicates(),
        forall|x: Index| pred_set@.contains(x) ==> x < bs.len(),
    ensures
        blocks_match(final(basic_blocks)@, looped(bs, pred_set@, header_index)),
        final(basic_blocks)@.len() == old(basic_blocks)@.len(),
        forall|names: Set<crate::ast::NameView>|
            blocks_names_within(old(basic_blocks)@, names) ==> blocks_names_within(
                final(basic_blocks)@,
                names,
            ),
{
    let mut n: usize = 0;
    assert(blocks_match(basic_blocks@, looped(bs, pred_set@.take(0), header_index))) by {
        let r = looped(bs, pred_set@.take(0), header_index);
        assert forall|i: int| 0 <= i < r.len() implies block_matches(
            #[trigger] basic_blocks@[i],
            r[i],
            i,
        ) by {
            assert(block_matches(old(basic_blocks)@[i], bs[i], i));
        }
    }
    while n < pred_set.len()
        invariant
            n <= pred_set@.len(),
            header_index < bs.len(),
            basic_blocks@.len() == bs.len(),
            old(basic_blocks)@.len() == bs.len(),
            pred_set@.no_duplicates(),
            forall|x: Index| pred_set@.contains(x) ==> x < bs.len(),
            blocks_match(basic_blocks@, looped(bs, pred_set@.take(n as int), header_index)),
            forall|names: Set<crate::ast::NameView>|
                blocks_names_within(old(basic_blocks)@, names) ==> blocks_names_within(
                    basic_blocks@,
                    names,
                ),
        decreases pred_set@.len() - n,
    {
        let i = pred_set[n];
        let ghost before = basic_blocks@;
        let ghost done = pred_set@.take(n as int);
        let ghost next = pred_set@.take(n + 1);
        assert(pred_set@.contains(i));
        basic_blocks[i].add_successor(header_index);
        basic_blocks[header_index].add_predecessor(i);
        proof {
            let prev = looped(bs, done, header_index);
            let r = looped(bs, next, header_index);
            lemma_take_one_more(pred_set@, n as int);
            assert forall|k: int| 0 <= k < r.len() implies block_matches(
                #[trigger] basic_blocks@[k],
                r[k],
                k,
            ) by {
                assert(block_matches(before[k], prev[k], k));
                if k != i && k != header_index {
                    assert(basic_blocks@[k] == before[k]);
                }
            }
            assert(statements_kept(before, basic_blocks@));
            lemma_statements_kept(before, basic_blocks@);
        }
        n += 1;
    }
    assert(pred_set@.take(n as int) =~= pred_set@);
}

/// The blocks that whatever follows a visited body is a successor of:
/// `pred_set` if the body ended in control flow, else the last block.
fn fall_through(
    basic_blocks: &Vec<BasicBlock>,
    pred_set: Vec<Index>,
    Ghost(bs): Ghost<Seq<BlockModel>>,
) -> (r: Vec<Index>)
    requires
        blocks_match(basic_blocks@, bs),
        bs.len() > 0,
    ensures
        r@ == fallthrough(bs, pred_set@),
{
    let mut pred_set = pred_set;
    if pred_set.len() == 0 {
        pred_set.push(basic_blocks.len() - 1);
    }
    pred_set
}

/// The blocks that whatever follows an `if` without `else` is a successor
/// of, besides the branch: those that `fall_through` gives, but none where
/// the case ends in a return.
fn fall_through_unless_returned(
    basic_blocks: &Vec<BasicBlock>,
    pred_set: Vec<Index>,
    Ghost(bs): Ghost<Seq<BlockModel>>,
) -> (r: Vec<Index>)
    requires
        blocks_match(basic_blocks@, bs),
        bs.len() > 0,
    ensures
        r@ == fallthrough_unless_returned(bs, pred_set@),
{
    let last = basic_blocks.len() - 1;
    let ghost b = basic_blocks@[last as int];
    assert(b.statements().len() > 0 ==> item_matches(
        bs[last as int].items[b.statements().len() - 1],
        b.statements()[b.statements().len() - 1],
    ));
    if pred_set.len() == 0 && basic_blocks[last].ends_in_return() {
        pred_set
    } else {
        fall_through(basic_blocks, pred_set, Ghost(bs))
    }
}

/// The indices of `into` followed by those of `indices` that are new.
fn union_indices(into: Vec<Index>, indices: &Vec<Index>) -> (r: Vec<Index>)
    ensures
        r@ == merged(into@, indices@),
{
    let mut r = into;
    let mut n: usize = 0;
    while n < indices.len()
        invariant
            n <= indices@.len(),
            r@ == merged(into@, indices@.take(n as int)),
        decreases indices@.len() - n,
    {
        assert(indices@.take(n + 1).drop_last() =~= indices@.take(n as int));
        crate::basic_block::insert_index(&mut r, indices[n]);
        n += 1;
    }
    assert(indices@.take(n as int) =~= indices@);
    r
}

/// What an environment declares is still declared after more was recorded,
/// so what the blocks mention stays declared.
proof fn lemma_names_stay_declared(
    blocks: Seq<BasicBlock>,
    before: Seq<ir::Declaration>,
    after: Seq<ir::Declaration>,
)
    requires
        blocks_names_within(blocks, declared_names(before)),
        before.is_prefix_of(after),
    ensures
        declared_names(before).subset_of(declared_names(after)),
        blocks_names_within(blocks, declared_names(after)),
{
    assert forall|name: crate::ast::NameView| declared_names(before).contains(
        name,
    ) implies declared_names(after).contains(name) by {
        let i = choose|i: int| 0 <= i < before.len() && (#[trigger] before[i]).name@ == name;
        assert(after[i] == before[i]);
    }
    assert forall|i: int, k: int|
        0 <= i < blocks.len() && 0 <= k < blocks[i].statements().len()
        implies ir::statement_names_within(
        #[trigger] blocks[i].statements()[k],
        declared_names(after),
    ) by {
        ir::lemma_statement_names_within_larger(
            blocks[i].statements()[k],
            declared_names(before),
            declared_names(after),
        );
    }
}

/// Adds the lowered form of a plain statement to the last block.
fn visit_plain(
    stmt: &ast::Statement,
    env: &mut IREnvironment,
    basic_blocks: &mut Vec<BasicBlock>,
    Ghost(m): Ghost<BuilderModel>,
    Ghost(base): Ghost<nat>,
) -> (r: Result<Vec<Index>, CFGError>)
    requires
        is_plain(*stmt),
        environment_matches(*old(env), m, base),
        blocks_match(old(basic_blocks)@, m.blocks),
        ready(m.blocks),
        blocks_names_within(old(basic_blocks)@, declared_names(old(env).declarations())),
    ensures
        visit_result(
            *stmt,
            m,
            base,
            *old(env),
            *final(env),
            final(basic_blocks)@,
            r,
        ),
{
    let lowered = stmt.try_into_ir(env)?;
    let last = basic_blocks.len() - 1;
    let ghost item = Item::Plain { stmt: *stmt, scopes: m.scopes };
    let ghost before = basic_blocks@;
    basic_blocks[last].append_statement(lowered);
    proof {
        lemma_appended_plain(m.blocks, item);
        assert(basic_blocks@[last as int].statements().drop_last() =~= before[last as int].statements());
        lemma_appended_matches(before, basic_blocks@, m.blocks, item);
        let names = declared_names(env.declarations());
        env.lemma_visible_names_are_declared();
        lemma_lowered_statement_names(*stmt, env.scopes(), lowered, names);
        lemma_statement_added(before, basic_blocks@, last as int, lowered, names);
    }
    Ok(Vec::new())
}

/// Records a declaration in the environment.
fn visit_declaration(
    stmt: &ast::Statement,
    env: &mut IREnvironment,
    basic_blocks: &mut Vec<BasicBlock>,
    Ghost(m): Ghost<BuilderModel>,
    Ghost(base): Ghost<nat>,
) -> (r: Result<Vec<Index>, CFGError>)
    requires
        *stmt is Declaration,
        environment_matches(*old(env), m, base),
        blocks_match(old(basic_blocks)@, m.blocks),
        ready(m.blocks),
        blocks_names_within(old(basic_blocks)@, declared_names(old(env).declarations())),
    ensures
        visit_result(
            *stmt,
            m,
            base,
            *old(env),
            *final(env),
            final(basic_blocks)@,
            r,
        ),
{
    let declaration = stmt.declaration_into_ir(env)?;
    proof {
        env.lemma_has_scope();
    }
    env.add_declaration(declaration)?;
    proof {
        lemma_names_stay_declared(
            basic_blocks@,
            old(env).declarations(),
            env.declarations(),
        );
        let m2 = visited(*stmt, m)->Ok_0.0;
        assert(m2.scopes.drop_last() =~= m.scopes.drop_last());
        assert forall|k: int| 0 <= k < m2.recorded.len() implies lowered_declaration(
            (#[trigger] m2.recorded[k]).stmt,
            m2.recorded[k].scopes,
            env.declarations()[base + k],
        ) by {
            if k < m.recorded.len() {
                assert(m2.recorded[k] == m.recorded[k]);
                assert(env.declarations()[base + k] == old(env).declarations()[base + k]);
            }
        }
    }
    Ok(Vec::new())
}

/// What a visit of `stmt` that began in the state `m` owes: the error that
/// the model names, or blocks and an environment that are what the model
/// describes, with the graph consistent and every name that a block mentions
/// declared.
pub open spec fn visit_result(
    stmt: ast::Statement,
    m: BuilderModel,
    base: nat,
    env_before: IREnvironment,
    env: IREnvironment,
    blocks: Seq<BasicBlock>,
    r: Result<Vec<Index>, CFGError>,
) -> bool {
    match visited(stmt, m) {
        Ok((m2, preds)) => {
            &&& r matches Ok(pred_set)
            &&& pred_set@ == preds
            &&& environment_matches(env, m2, base)
            &&& blocks_match(blocks, m2.blocks)
            &&& visit_kept(m, m2, preds)
            &&& stmt is Block ==> m2.scopes == m.scopes
            &&& blocks_names_within(blocks, declared_names(env.declarations()))
            &&& env_before.declarations().is_prefix_of(env.declarations())
        },
        Err(error) => r == Err::<Vec<Index>, CFGError>(error),
    }
}

/// Visits the statements of an initialization block: declarations and
/// substitutions, which all go to the last block.
#[verifier::loop_isolation(false)]
fn visit_initializations(
    stmt: &ast::Statement,
    env: &mut IREnvironment,
    basic_blocks: &mut Vec<BasicBlock>,
    Ghost(m): Ghost<BuilderModel>,
    Ghost(base): Ghost<nat>,
) -> (r: Result<Vec<Index>, CFGError>)
    requires
        *stmt is InitializationBlock,
        environment_matches(*old(env), m, base),
        blocks_match(old(basic_blocks)@, m.blocks),
        ready(m.blocks),
        blocks_names_within(old(basic_blocks)@, declared_names(old(env).declarations())),
    ensures
        visit_result(
            *stmt,
            m,
            base,
            *old(env),
            *final(env),
            final(basic_blocks)@,
            r,
        ),
    decreases stmt, 0nat,
{
    match stmt {
        ast::Statement::InitializationBlock { initializations: stmts, .. } => {
            let ghost mut current = m;
            let mut i: usize = 0;
            while i < stmts.len()
                invariant
                    i <= stmts@.len(),
                    visited_initializations(stmts@, i as nat, m) == Ok::<
                        (BuilderModel, Seq<Index>),
                        CFGError,
                    >((current, Seq::<Index>::empty())),
                    environment_matches(*env, current, base),
                    blocks_match(basic_blocks@, current.blocks),
                    visit_kept(m, current, Seq::<Index>::empty()),
                    blocks_names_within(basic_blocks@, declared_names(env.declarations())),
                    old(env).declarations().is_prefix_of(env.declarations()),
                decreases stmts@.len() - i,
            {
                let inner = &stmts[i];
                let wanted = match inner {
                    ast::Statement::Declaration { .. } => true,
                    ast::Statement::Substitution { .. } => true,
                    _ => false,
                };
                if !wanted {
                    proof {
                        lemma_visited_initializations_fail(
                            stmts@,
                            (i + 1) as nat,
                            stmts@.len(),
                            m,
                        );
                    }
                    return Err(CFGError::MalformedInitBlock);
                }
                match visit_statement(inner, env, basic_blocks, Ghost(current), Ghost(base)) {
                    Err(error) => {
                        proof {
                            lemma_visited_initializations_fail(
                                stmts@,
                                (i + 1) as nat,
                                stmts@.len(),
                                m,
                            );
                        }
                        return Err(error);
                    },
                    Ok(_) => {
                        proof {
                            let next = visited(*inner, current)->Ok_0.0;
                            lemma_kept_chain(
                                m,
                                current,
                                Seq::empty(),
                                current,
                                next,
                                Seq::empty(),
                            );
                            current = next;
                        }
                    },
                }
                i += 1;
            }
            Ok(Vec::new())
        },
        _ => Ok(Vec::new()),
    }
}

/// Visits the statements of a block in a scope of their own. Behind a
/// statement that ended in control flow, the next one begins a new block.
#[verifier::loop_isolation(false)]
fn visit_block(
    stmt: &ast::Statement,
    env: &mut IREnvironment,
    basic_blocks: &mut Vec<BasicBlock>,
    Ghost(m): Ghost<BuilderModel>,
    Ghost(base): Ghost<nat>,
) -> (r: Result<Vec<Index>, CFGError>)
    requires
        *stmt is Block,
        environment_matches(*old(env), m, base),
        blocks_match(old(basic_blocks)@, m.blocks),
        ready(m.blocks),
        blocks_names_within(old(basic_blocks)@, declared_names(old(env).declarations())),
    ensures
        visit_result(
            *stmt,
            m,
            base,
            *old(env),
            *final(env),
            final(basic_blocks)@,
            r,
        ),
    decreases stmt, 0nat,
{
    match stmt {
        ast::Statement::Block { stmts, .. } => {
            proof {
                env.lemma_has_scope();
            }
            env.add_variable_block();
            let ghost entered = BuilderModel { scopes: m.scopes.push(Seq::empty()), ..m };
            let ghost mut current = entered;
            let mut pred_set: Vec<Index> = Vec::new();
            let mut i: usize = 0;
            while i < stmts.len()
                invariant
                    i <= stmts@.len(),
                    visited_block(stmts@, i as nat, entered) == Ok::<
                        (BuilderModel, Seq<Index>),
                        CFGError,
                    >((current, pred_set@)),
                    environment_matches(*env, current, base),
                    blocks_match(basic_blocks@, current.blocks),
                    visit_kept(entered, current, pred_set@),
                    blocks_names_within(basic_blocks@, declared_names(env.declarations())),
                    old(env).declarations().is_prefix_of(env.declarations()),
                decreases stmts@.len() - i,
            {
                let inner = &stmts[i];
                let ghost mut begun = current;
                if pred_set.len() > 0 {
                    let meta = ir::Meta::from_ast(inner.get_meta());
                    complete_basic_block(
                        basic_blocks,
                        &pred_set,
                        meta,
                        Ghost(current.blocks),
                        Ghost(inner.meta()),
                    );
                    proof {
                        assert(basic_blocks.len() <= usize::MAX);
                        lemma_completed(current.blocks, pred_set@, inner.meta());
                        begun = BuilderModel {
                            blocks: completed(current.blocks, pred_set@, inner.meta()),
                            ..current
                        };
                    }
                }
                match visit_statement(inner, env, basic_blocks, Ghost(begun), Ghost(base)) {
                    Err(error) => {
                        proof {
                            lemma_visited_block_fails(stmts@, (i + 1) as nat, stmts@.len(), entered);
                        }
                        return Err(error);
                    },
                    Ok(next_set) => {
                        proof {
                            let next = visited(*inner, begun)->Ok_0.0;
                            lemma_kept_chain(
                                entered,
                                current,
                                pred_set@,
                                begun,
                                next,
                                next_set@,
                            );
                            current = next;
                        }
                        pred_set = next_set;
                    },
                }
                i += 1;
            }
            env.remove_variable_block();
            proof {
                assert(entered.scopes.drop_last() =~= m.scopes);
            }
            Ok(pred_set)
        },
        _ => Ok(Vec::new()),
    }
}

/// Updates the blocks with the statement `stmt`, and hands back the blocks
/// that whatever follows `stmt` is a successor of.
fn visit_statement(
    stmt: &ast::Statement,
    env: &mut IREnvironment,
    basic_blocks: &mut Vec<BasicBlock>,
    Ghost(m): Ghost<BuilderModel>,
    Ghost(base): Ghost<nat>,
) -> (r: Result<Vec<Index>, CFGError>)
    requires
        environment_matches(*old(env), m, base),
        blocks_match(old(basic_blocks)@, m.blocks),
        ready(m.blocks),
        blocks_names_within(old(basic_blocks)@, declared_names(old(env).declarations())),
    ensures
        visit_result(
            *stmt,
            m,
            base,
            *old(env),
            *final(env),
            final(basic_blocks)@,
            r,
        ),
    decreases stmt, 1nat,
{
    match stmt {
        ast::Statement::InitializationBlock { .. } => visit_initializations(
            stmt,
            env,
            basic_blocks,
            Ghost(m),
            Ghost(base),
        ),
        ast::Statement::Block { .. } => visit_block(stmt, env, basic_blocks, Ghost(m), Ghost(base)),
        ast::Statement::Declaration { .. } => visit_declaration(
            stmt,
            env,
            basic_blocks,
            Ghost(m),
            Ghost(base),
        ),
        ast::Statement::While { .. } => visit_while(stmt, env, basic_blocks, Ghost(m), Ghost(base)),
        ast::Statement::IfThenElse { .. } => visit_if(stmt, env, basic_blocks, Ghost(m), Ghost(base)),
        _ => visit_plain(stmt, env, basic_blocks, Ghost(m), Ghost(base)),
    }
}

/// A list that holds `index` alone.
fn single_index(index: Index) -> (r: Vec<Index>)
    ensures
        r@ == seq![index],
        r@.no_duplicates(),
        forall|x: Index| #[trigger] r@.contains(x) <==> x == index,
{
    let mut r: Vec<Index> = Vec::new();
    r.push(index);
    assert(r@[0] == index);
    assert forall|x: Index| #[trigger] r@.contains(x) implies x == index by {
        let k = choose|k: int| 0 <= k < r@.len() && r@[k] == x;
        assert(r@[k] == x);
    }
    r
}

/// Ends the last block with a branch on `cond` into the block that is added
/// next, and adds that block, with `next_meta`, behind it.
fn branch_into_new_block(
    meta: &ast::Meta,
    cond: &ast::Expression,
    next_meta: &ast::Meta,
    env: &IREnvironment,
    basic_blocks: &mut Vec<BasicBlock>,
    Ghost(bs): Ghost<Seq<BlockModel>>,
) -> (r: Result<(), CFGError>)
    requires
        env.well_formed(),
        blocks_match(old(basic_blocks)@, bs),
        ready(bs),
        blocks_names_within(old(basic_blocks)@, declared_names(env.declarations())),
    ensures
        match r {
            Ok(_) => {
                &&& resolves_expression(*cond, env.scopes())
                &&& blocks_match(final(basic_blocks)@, branched(bs, *meta, *cond, env.scopes(), *next_meta))
                &&& blocks_names_within(final(basic_blocks)@, declared_names(env.declarations()))
                &&& bs.len() < usize::MAX
            },
            Err(error) => error == CFGError::UnknownSymbol && !resolves_expression(
                *cond,
                env.scopes(),
            ),
        },
{
    let lowered = cond.try_into_ir(env)?;
    let current_index = basic_blocks.len() - 1;
    let if_true = basic_blocks.len();
    let ghost item = Item::Branch {
        meta: *meta,
        cond: *cond,
        scopes: env.scopes(),
        if_true,
        if_false: None,
    };
    let ghost before = basic_blocks@;
    basic_blocks[current_index].append_statement(
        ir::Statement::IfThenElse {
            meta: ir::Meta::from_ast(meta),
            cond: lowered,
            if_true,
            if_false: None,
        },
    );
    proof {
        assert(basic_blocks@[current_index as int].statements().drop_last()
            =~= before[current_index as int].statements());
        lemma_appended_matches(before, basic_blocks@, bs, item);
        let names = declared_names(env.declarations());
        env.lemma_visible_names_are_declared();
        lemma_lowered_expression_names(*cond, env.scopes(), lowered, names);
        lemma_statement_added(
            before,
            basic_blocks@,
            current_index as int,
            basic_blocks@[current_index as int].statements().last(),
            names,
        );
    }
    let pred_set = single_index(current_index);
    complete_basic_block(
        basic_blocks,
        &pred_set,
        ir::Meta::from_ast(next_meta),
        Ghost(appended(bs, item)),
        Ghost(*next_meta),
    );
    assert(basic_blocks.len() <= usize::MAX);
    Ok(())
}

/// Visits an `if`: the last block gets the branch, and each case begins a
/// block behind it.
fn visit_if(
    stmt: &ast::Statement,
    env: &mut IREnvironment,
    basic_blocks: &mut Vec<BasicBlock>,
    Ghost(m): Ghost<BuilderModel>,
    Ghost(base): Ghost<nat>,
) -> (r: Result<Vec<Index>, CFGError>)
    requires
        *stmt is IfThenElse,
        environment_matches(*old(env), m, base),
        blocks_match(old(basic_blocks)@, m.blocks),
        ready(m.blocks),
        blocks_names_within(old(basic_blocks)@, declared_names(old(env).declarations())),
    ensures
        visit_result(
            *stmt,
            m,
            base,
            *old(env),
            *final(env),
            final(basic_blocks)@,
            r,
        ),
    decreases stmt, 0nat,
{
    match stmt {
        ast::Statement::IfThenElse { meta, cond, if_case, else_case } => {
            let current_index = basic_blocks.len() - 1;
            branch_into_new_block(
                meta,
                cond,
                if_case.get_meta(),
                env,
                basic_blocks,
                Ghost(m.blocks),
            )?;
            let ghost b2 = branched(m.blocks, *meta, *cond, m.scopes, if_case.meta());
            let ghost m2 = BuilderModel { blocks: b2, ..m };
            proof {
                lemma_branched(m.blocks, *meta, *cond, m.scopes, if_case.meta());
            }
            let if_pred_set = visit_statement(if_case, env, basic_blocks, Ghost(m2), Ghost(base))?;
            let ghost m3 = visited(**if_case, m2)->Ok_0.0;
            let ghost preds = if_pred_set@;
            let mut if_pred_set = match else_case {
                Some(_) => fall_through(basic_blocks, if_pred_set, Ghost(m3.blocks)),
                None => fall_through_unless_returned(basic_blocks, if_pred_set, Ghost(m3.blocks)),
            };
            proof {
                lemma_open_stays(b2, m3.blocks, current_index);
                assert forall|x: Index| if_pred_set@.contains(x) implies b2.len() - 1 <= x
                    && open_at(m3.blocks, x) by {
                    if preds.len() == 0 {
                        let k = choose|k: int|
                            0 <= k < if_pred_set@.len() && if_pred_set@[k] == x;
                        assert(if_pred_set@[k] == x);
                    }
                }
            }
            match else_case {
                Some(else_case) => {
                    let pred_set = single_index(current_index);
                    complete_basic_block(
                        basic_blocks,
                        &pred_set,
                        ir::Meta::from_ast(else_case.get_meta()),
                        Ghost(m3.blocks),
                        Ghost(else_case.meta()),
                    );
                    let ghost b4 = completed(m3.blocks, pred_set@, else_case.meta());
                    let ghost m4 = BuilderModel { blocks: b4, ..m3 };
                    proof {
                        assert(basic_blocks.len() <= usize::MAX);
                        lemma_completed(m3.blocks, pred_set@, else_case.meta());
                    }
                    let else_pred_set = visit_statement(
                        else_case,
                        env,
                        basic_blocks,
                        Ghost(m4),
                        Ghost(base),
                    )?;
                    let ghost m5 = visited(**else_case, m4)->Ok_0.0;
                    let ghost else_preds = else_pred_set@;
                    let else_pred_set = fall_through(basic_blocks, else_pred_set, Ghost(m5.blocks));
                    let ghost if_preds = if_pred_set@;
                    let result = union_indices(if_pred_set, &else_pred_set);
                    proof {
                        lemma_merged(if_preds, else_pred_set@);
                        assert forall|x: Index| else_pred_set@.contains(x) implies b4.len() - 1
                            <= x && open_at(m5.blocks, x) by {
                            if else_preds.len() == 0 {
                                let k = choose|k: int|
                                    0 <= k < else_pred_set@.len() && else_pred_set@[k] == x;
                                assert(else_pred_set@[k] == x);
                            }
                        }
                        assert forall|x: Index| if_preds.contains(x) implies open_at(
                            m5.blocks,
                            x,
                        ) by {
                            lemma_open_stays(b4, m5.blocks, x);
                        }
                        assert forall|i: int| 0 <= i < m.blocks.len() - 1 implies m5.blocks[i]
                            == m.blocks[i] by {
                            assert(b2[i] == m.blocks[i]);
                            assert(m3.blocks[i] == b2[i]);
                            assert(!pred_set@.contains(i as Index));
                            assert(b4[i] == m3.blocks[i]);
                            assert(m5.blocks[i] == b4[i]);
                        }
                        assert(result@.contains(else_pred_set@[0]));
                    }
                    Ok(result)
                },
                None => {
                    let ghost if_preds = if_pred_set@;
                    crate::basic_block::insert_index(&mut if_pred_set, current_index);
                    proof {
                        lemma_with_index(if_preds, current_index);
                        lemma_merged(Seq::empty(), if_preds);
                        assert(if_preds.no_duplicates()) by {
                            if preds.len() == 0 {
                                assert(if_preds.len() <= 1);
                            }
                        }
                        assert forall|i: int| 0 <= i < m.blocks.len() - 1 implies m3.blocks[i]
                            == m.blocks[i] by {
                            assert(b2[i] == m.blocks[i]);
                            assert(m3.blocks[i] == b2[i]);
                        }
                    }
                    Ok(if_pred_set)
                },
            }
        },
        _ => Ok(Vec::new()),
    }
}

/// Visits a `while`: a new block is the loop header, which branches into the
/// block of the body. The body leads back to the header, and whatever follows
/// the loop is a successor of the header.
fn visit_while(
    stmt: &ast::Statement,
    env: &mut IREnvironment,
    basic_blocks: &mut Vec<BasicBlock>,
    Ghost(m): Ghost<BuilderModel>,
    Ghost(base): Ghost<nat>,
) -> (r: Result<Vec<Index>, CFGError>)
    requires
        *stmt is While,
        environment_matches(*old(env), m, base),
        blocks_match(old(basic_blocks)@, m.blocks),
        ready(m.blocks),
        blocks_names_within(old(basic_blocks)@, declared_names(old(env).declarations())),
    ensures
        visit_result(
            *stmt,
            m,
            base,
            *old(env),
            *final(env),
            final(basic_blocks)@,
            r,
        ),
    decreases stmt, 0nat,
{
    match stmt {
        ast::Statement::While { meta, cond, stmt: while_body } => {
            let current_index = basic_blocks.len() - 1;
            let pred_set = single_index(current_index);
            complete_basic_block(
                basic_blocks,
                &pred_set,
                ir::Meta::from_ast(meta),
                Ghost(m.blocks),
                Ghost(*meta),
            );
            let ghost b1 = completed(m.blocks, pred_set@, *meta);
            proof {
                assert(basic_blocks.len() <= usize::MAX);
                lemma_completed(m.blocks, pred_set@, *meta);
            }
            let header_index = basic_blocks.len() - 1;
            branch_into_new_block(
                meta,
                cond,
                while_body.get_meta(),
                env,
                basic_blocks,
                Ghost(b1),
            )?;
            let ghost b3 = branched(b1, *meta, *cond, m.scopes, while_body.meta());
            let ghost m3 = BuilderModel { blocks: b3, ..m };
            proof {
                lemma_branched(b1, *meta, *cond, m.scopes, while_body.meta());
            }
            let body_set = visit_statement(while_body, env, basic_blocks, Ghost(m3), Ghost(base))?;
            let ghost m4 = visited(**while_body, m3)->Ok_0.0;
            let ghost preds = body_set@;
            let body_set = fall_through(basic_blocks, body_set, Ghost(m4.blocks));
            proof {
                assert forall|x: Index| body_set@.contains(x) implies header_index < x
                    && open_at(m4.blocks, x) by {
                    if preds.len() == 0 {
                        let k = choose|k: int| 0 <= k < body_set@.len() && body_set@[k] == x;
                        assert(body_set@[k] == x);
                    }
                }
                assert(body_set@.no_duplicates()) by {
                    if preds.len() == 0 {
                        assert(body_set@.len() <= 1);
                    }
                }
                lemma_open_stays(b3, m4.blocks, header_index);
                lemma_looped(m4.blocks, body_set@, header_index);
            }
            add_loop_edges(basic_blocks, &body_set, header_index, Ghost(m4.blocks));
            let result = single_index(header_index);
            proof {
                let b5 = looped(m4.blocks, body_set@, header_index);
                assert forall|i: int| 0 <= i < m.blocks.len() - 1 implies b5[i] == m.blocks[i] by {
                    assert(!pred_set@.contains(i as Index));
                    assert(b1[i] == m.blocks[i]);
                    assert(b3[i] == b1[i]);
                    assert(m4.blocks[i] == b3[i]);
                    assert(!body_set@.contains(i as Index));
                }
            }
            Ok(result)
        },
        _ => Ok(Vec::new()),
    }
}

} // verus!
