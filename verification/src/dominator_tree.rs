//! The dominator tree of a graph of basic blocks.

use crate::basic_block::{BasicBlock, insert_index, lemma_with_index};
use crate::dominance::{
    dominates, Graph, graph_closed, has_edge, in_frontier, is_idom, is_path, is_path_to,
    lemma_dominates_iff_not_avoidable, lemma_dominates_reflexive, lemma_dominates_transitive,
    lemma_dominators_form_a_chain, lemma_path_prefix, lemma_path_step, lemma_short_walk, reachable,
    reachable_avoiding, strictly_dominates,
};
use crate::errors::CFGError;
use crate::ir::Index;
use vstd::prelude::*;

verus! {

/// The graph that the successors of `blocks` form.
pub open spec fn graph_of(blocks: Seq<BasicBlock>) -> Graph {
    Seq::new(blocks.len(), |i: int| blocks[i].successors())
}

/// There is a walk from the entry to `b` that does not pass through `avoid`,
/// if that names a block.
pub open spec fn reachable_without(g: Graph, avoid: Option<Index>, b: Index) -> bool {
    match avoid {
        Some(d) => reachable_avoiding(g, d, b),
        None => reachable(g, b),
    }
}

/// `p` does not pass through `avoid`, if that names a block.
pub open spec fn keeps_off(p: Seq<Index>, avoid: Option<Index>) -> bool {
    match avoid {
        Some(d) => !p.contains(d),
        None => true,
    }
}

/// The number of entries of `marked` that are not set.
pub open spec fn unmarked(marked: Seq<bool>) -> nat
    decreases marked.len(),
{
    if marked.len() == 0 {
        0
    } else {
        unmarked(marked.drop_last()) + if marked.last() {
            0nat
        } else {
            1nat
        }
    }
}

/// Setting an entry that was not set leaves one fewer that is not set.
proof fn lemma_unmarked_update(marked: Seq<bool>, i: int)
    requires
        0 <= i < marked.len(),
        !marked[i],
    ensures
        unmarked(marked.update(i, true)) + 1 == unmarked(marked),
    decreases marked.len(),
{
    let after = marked.update(i, true);
    if i == marked.len() - 1 {
        assert(after.drop_last() =~= marked.drop_last());
    } else {
        assert(after.drop_last() =~= marked.drop_last().update(i, true));
        lemma_unmarked_update(marked.drop_last(), i);
    }
}

/// Every successor of a marked block that is not waiting is marked, unless
/// it is the block to keep off.
spec fn settled(g: Graph, marked: Seq<bool>, waiting: Seq<Index>, avoid: Option<Index>) -> bool {
    forall|b: int, k: int|
        0 <= b < g.len() && marked[b] && !waiting.contains(b as Index) && 0 <= k < g[b].len() ==> {
            ||| avoid == Some(#[trigger] g[b][k])
            ||| marked[g[b][k] as int]
        }
}

/// Where every successor of a marked block is marked, every block on a walk
/// that keeps off `avoid` is marked.
proof fn lemma_walk_is_marked(
    g: Graph,
    marked: Seq<bool>,
    avoid: Option<Index>,
    p: Seq<Index>,
    k: int,
)
    requires
        marked.len() == g.len(),
        settled(g, marked, Seq::empty(), avoid),
        is_path(g, p),
        keeps_off(p, avoid),
        avoid != Some(0usize) ==> marked[0],
        0 <= k < p.len(),
    ensures
        marked[p[k] as int],
    decreases k,
{
    if k == 0 {
        if avoid == Some(0usize) {
            assert(p.contains(0));
        }
    } else {
        lemma_walk_is_marked(g, marked, avoid, p, k - 1);
        let a = p[k - 1];
        let i = choose|i: int| 0 <= i < g[a as int].len() && g[a as int][i] == p[k];
        assert(g[a as int][i] == p[k]);
        if avoid == Some(p[k]) {
            assert(p.contains(p[k]));
        }
    }
}

/// Marks the blocks that are reached from the entry without passing through
/// `avoid`.
fn reach_avoiding(basic_blocks: &Vec<BasicBlock>, avoid: Option<Index>) -> (marked: Vec<bool>)
    requires
        basic_blocks@.len() > 0,
        graph_closed(graph_of(basic_blocks@)),
    ensures
        marked@.len() == basic_blocks@.len(),
        forall|b: Index|
            b < basic_blocks@.len() ==> (#[trigger] marked@[b as int] <==> reachable_without(
                graph_of(basic_blocks@),
                avoid,
                b,
            )),
{
    let n = basic_blocks.len();
    let ghost g = graph_of(basic_blocks@);
    let mut marked: Vec<bool> = Vec::new();
    let mut i: usize = 0;
    while i < n
        invariant
            i <= n,
            marked@.len() == i,
            forall|k: int| 0 <= k < i ==> !marked@[k],
        decreases n - i,
    {
        marked.push(false);
        i += 1;
    }
    let mut waiting: Vec<Index> = Vec::new();
    let ghost mut walks: Seq<Seq<Index>> = Seq::new(n as nat, |i: int| Seq::empty());
    let entry_is_avoided = match avoid {
        Some(d) => d == 0,
        None => false,
    };
    if !entry_is_avoided {
        marked.set(0, true);
        waiting.push(0);
        proof {
            walks = walks.update(0, seq![0usize]);
            let p = seq![0usize];
            assert(is_path_to(g, p, 0));
            assert(keeps_off(p, avoid)) by {
                if avoid is Some && p.contains(avoid->0) {
                    let k = choose|k: int| 0 <= k < p.len() && p[k] == avoid->0;
                    assert(p[k] == avoid->0);
                }
            }
        }
    }
    while waiting.len() > 0
        invariant
            n == basic_blocks@.len(),
            n > 0,
            g == graph_of(basic_blocks@),
            graph_closed(g),
            marked@.len() == n,
            walks.len() == n,
            forall|k: int| 0 <= k < waiting@.len() ==> (#[trigger] waiting@[k]) < n && marked@[waiting@[k] as int],
            forall|b: int|
                0 <= b < n && marked@[b] ==> is_path_to(g, #[trigger] walks[b], b as Index)
                    && keeps_off(walks[b], avoid),
            settled(g, marked@, waiting@, avoid),
            avoid != Some(0usize) ==> marked@[0],
        decreases 2 * unmarked(marked@) + waiting@.len(),
    {
        let ghost before = 2 * unmarked(marked@) + waiting@.len();
        let ghost was_waiting = waiting@;
        let x = waiting.pop().unwrap();
        let successors = basic_blocks[x].get_successors();
        assert forall|b: Index| was_waiting.contains(b) implies waiting@.contains(b) || b == x by {
            let q = choose|q: int| 0 <= q < was_waiting.len() && was_waiting[q] == b;
            if q < waiting@.len() {
                assert(waiting@[q] == b);
            }
        }
        let mut k: usize = 0;
        while k < successors.len()
            invariant
                n == basic_blocks@.len(),
                n > 0,
                g == graph_of(basic_blocks@),
                graph_closed(g),
                x < n,
                marked@[x as int],
                successors@ == g[x as int],
                k <= successors@.len(),
                marked@.len() == n,
                walks.len() == n,
                forall|k: int| 0 <= k < waiting@.len() ==> (#[trigger] waiting@[k]) < n && marked@[waiting@[k] as int],
                forall|b: int|
                    0 <= b < n && marked@[b] ==> is_path_to(g, #[trigger] walks[b], b as Index)
                        && keeps_off(walks[b], avoid),
                forall|b: int, j: int|
                    0 <= b < n && b != x && marked@[b] && !waiting@.contains(b as Index) && 0 <= j
                        < g[b].len() ==> {
                        ||| avoid == Some(#[trigger] g[b][j])
                        ||| marked@[g[b][j] as int]
                    },
                forall|j: int|
                    0 <= j < k ==> {
                        ||| avoid == Some(#[trigger] g[x as int][j])
                        ||| marked@[g[x as int][j] as int]
                    },
                avoid != Some(0usize) ==> marked@[0],
                2 * unmarked(marked@) + waiting@.len() < before,
            decreases successors@.len() - k,
        {
            let y = successors[k];
            let is_avoided = match avoid {
                Some(d) => d == y,
                None => false,
            };
            if !is_avoided && !marked[y] {
                let ghost old_marked = marked@;
                let ghost old_waiting = waiting@;
                proof {
                    lemma_unmarked_update(marked@, y as int);
                    lemma_path_step(g, walks[x as int], x, y);
                    let p = walks[x as int].push(y);
                    walks = walks.update(y as int, p);
                }
                marked.set(y, true);
                waiting.push(y);
                proof {
                    assert forall|i: int| 0 <= i < waiting@.len() implies (#[trigger] waiting@[i])
                        < n && marked@[waiting@[i] as int] by {
                        if i < old_waiting.len() {
                            assert(waiting@[i] == old_waiting[i]);
                        }
                    }
                    assert forall|b: int, j: int|
                        0 <= b < n && b != x && marked@[b] && !waiting@.contains(b as Index) && 0
                            <= j < g[b].len() implies {
                        ||| avoid == Some(#[trigger] g[b][j])
                        ||| marked@[g[b][j] as int]
                    } by {
                        if b == y {
                            assert(waiting@[waiting@.len() - 1] == y);
                        } else {
                            assert(old_marked[b]);
                            if old_waiting.contains(b as Index) {
                                let q = choose|q: int|
                                    0 <= q < old_waiting.len() && old_waiting[q] == b as Index;
                                assert(waiting@[q] == b as Index);
                            }
                        }
                    }
                }
            }
            k += 1;
        }
        proof {
            assert forall|b: int, j: int|
                0 <= b < g.len() && marked@[b] && !waiting@.contains(b as Index) && 0 <= j
                    < g[b].len() implies {
                ||| avoid == Some(#[trigger] g[b][j])
                ||| marked@[g[b][j] as int]
            } by {}
        }
    }
    proof {
        assert forall|b: Index| b < n implies (#[trigger] marked@[b as int] <==> reachable_without(
            g,
            avoid,
            b,
        )) by {
            if marked@[b as int] {
                let p = walks[b as int];
                assert(is_path_to(g, p, b) && keeps_off(p, avoid));
            }
            if reachable_without(g, avoid, b) {
                match avoid {
                    Some(d) => {
                        let p = choose|p: Seq<Index>| is_path_to(g, p, b) && !p.contains(d);
                        lemma_walk_is_marked(g, marked@, avoid, p, p.len() - 1);
                    },
                    None => {
                        let p = choose|p: Seq<Index>| is_path_to(g, p, b);
                        lemma_walk_is_marked(g, marked@, avoid, p, p.len() - 1);
                    },
                }
            }
        }
    }
    marked
}

/// A block that dominates a reachable block is itself a block of the graph.
proof fn lemma_dominator_is_a_block(g: Graph, d: Index, b: Index)
    requires
        reachable(g, b),
        dominates(g, d, b),
    ensures
        d < g.len(),
        reachable(g, d),
{
    let p = choose|p: Seq<Index>| is_path_to(g, p, b);
    assert(p.contains(d));
    let k = choose|k: int| 0 <= k < p.len() && p[k] == d;
    lemma_path_prefix(g, p, k);
}

/// The first `rows` rows of `avoided` say, for each pair of blocks, whether
/// the second is reached without passing through the first, that is,
/// whether the first does not dominate the second.
spec fn dominance_rows(g: Graph, avoided: Seq<Vec<bool>>, rows: int) -> bool {
    &&& 0 <= rows <= avoided.len()
    &&& forall|a: int| 0 <= a < rows ==> (#[trigger] avoided[a])@.len() == g.len()
    &&& forall|a: Index, b: Index|
        a < rows && b < g.len() ==> (#[trigger] avoided[a as int]@[b as int] <==> !dominates(
            g,
            a,
            b,
        ))
}

/// For each block its immediate dominator and its dominance frontier.
#[derive(Debug)]
pub struct DominatorTree {
    idoms: Vec<Option<Index>>,
    frontiers: Vec<Vec<Index>>,
}

/// Following immediate dominators from `b` leads to the entry within
/// `steps` steps.
pub open spec fn climbs(idoms: Seq<Option<Index>>, b: Index, steps: nat) -> bool
    decreases steps,
{
    b == 0 || (steps > 0 && b < idoms.len() && match idoms[b as int] {
        Some(d) => climbs(idoms, d, (steps - 1) as nat),
        None => false,
    })
}

/// What leads to the entry within some steps does so within more.
pub proof fn lemma_climbs_longer(idoms: Seq<Option<Index>>, b: Index, steps: nat, more: nat)
    requires
        climbs(idoms, b, steps),
        steps <= more,
    ensures
        climbs(idoms, b, more),
    decreases steps,
{
    if b != 0 {
        lemma_climbs_longer(idoms, idoms[b as int]->0, (steps - 1) as nat, (more - 1) as nat);
    }
}

impl DominatorTree {
    /// The immediate dominator of each block, if it has one.
    pub closed spec fn idoms(&self) -> Seq<Option<Index>> {
        self.idoms@
    }

    /// The dominance frontier of each block.
    pub closed spec fn frontiers(&self) -> Seq<Seq<Index>> {
        Seq::new(self.frontiers@.len(), |i: int| self.frontiers@[i]@)
    }

    /// This is the dominator tree of `g`.
    ///
    /// The entry and the blocks that are not reachable have no immediate
    /// dominator. Every other block has one, and it is the immediate
    /// dominator of that block in `g`. The frontier of a block holds the
    /// blocks in its dominance frontier, each once.
    pub open spec fn describes(&self, g: Graph) -> bool {
        &&& self.idoms().len() == g.len()
        &&& self.frontiers().len() == g.len()
        &&& forall|b: Index|
            b < g.len() ==> match #[trigger] self.idoms()[b as int] {
                Some(d) => b != 0 && reachable(g, b) && d < g.len() && is_idom(g, d, b),
                None => b == 0 || !reachable(g, b),
            }
        &&& forall|b: Index|
            b < g.len() ==> (#[trigger] self.frontiers()[b as int]).no_duplicates()
        &&& forall|b: Index, f: Index|
            b < g.len() ==> (#[trigger] self.frontiers()[b as int].contains(f) <==> in_frontier(
                g,
                b,
                f,
            ))
    }

    /// Computes the dominator tree of the graph that `basic_blocks` form.
    /// Fails if there is no block.
    pub fn new(basic_blocks: &Vec<BasicBlock>) -> (r: Result<DominatorTree, CFGError>)
        requires
            graph_closed(graph_of(basic_blocks@)),
        ensures
            match r {
                Ok(tree) => basic_blocks@.len() > 0 && tree.describes(graph_of(basic_blocks@)),
                Err(error) => error == CFGError::EmptyCfg && basic_blocks@.len() == 0,
            },
    {
        let n = basic_blocks.len();
        if n == 0 {
            return Err(CFGError::EmptyCfg);
        }
        let ghost g = graph_of(basic_blocks@);
        let reached = reach_avoiding(basic_blocks, None);
        // `avoided[d][b]` says whether `b` is reached without passing
        // through `d`, that is, whether `d` does not dominate `b`.
        let mut avoided: Vec<Vec<bool>> = Vec::new();
        let mut d: usize = 0;
        while d < n
            invariant
                d <= n,
                n == basic_blocks@.len(),
                n > 0,
                g == graph_of(basic_blocks@),
                graph_closed(g),
                avoided@.len() == d,
                dominance_rows(g, avoided@, d as int),
            decreases n - d,
        {
            let row = reach_avoiding(basic_blocks, Some(d));
            proof {
                assert forall|b: Index| b < n implies (row@[b as int] <==> !dominates(g, d, b)) by {
                    lemma_dominates_iff_not_avoidable(g, d, b);
                }
            }
            avoided.push(row);
            d += 1;
        }
        let idoms = immediate_dominators(Ghost(g), &reached, &avoided);
        let frontiers = dominance_frontiers(basic_blocks, &reached, &avoided);
        let tree = DominatorTree { idoms, frontiers };
        proof {
            assert forall|b: Index, f: Index| b < g.len() implies (
            #[trigger] tree.frontiers()[b as int].contains(f) <==> in_frontier(g, b, f)) by {
                assert(tree.frontiers()[b as int] == frontiers@[b as int]@);
            }
            assert forall|b: Index| b < g.len() implies (
            #[trigger] tree.frontiers()[b as int]).no_duplicates() by {
                assert(tree.frontiers()[b as int] == frontiers@[b as int]@);
            }
        }
        Ok(tree)
    }

    /// The number of blocks.
    pub fn len(&self) -> (r: usize)
        ensures
            r == self.idoms().len(),
    {
        self.idoms.len()
    }

    /// The immediate dominator of block `i`, if it has one.
    pub fn get_immediate_dominator(&self, i: Index) -> (r: Option<Index>)
        requires
            i < self.idoms().len(),
        ensures
            r == self.idoms()[i as int],
    {
        self.idoms[i]
    }

    /// The dominance frontier of block `i`.
    pub fn get_dominance_frontier(&self, i: Index) -> (r: &Vec<Index>)
        requires
            i < self.frontiers().len(),
        ensures
            r@ == self.frontiers()[i as int],
    {
        &self.frontiers[i]
    }

    /// From a block with a walk `p` to it, following immediate dominators
    /// leads to the entry, in fewer steps than `p` is long.
    pub proof fn lemma_idoms_lead_to_entry(&self, g: Graph, b: Index, p: Seq<Index>)
        requires
            self.describes(g),
            is_path_to(g, p, b),
        ensures
            climbs(self.idoms(), b, (p.len() - 1) as nat),
        decreases p.len(),
    {
        if b != 0 {
            let d = self.idoms()[b as int]->0;
            assert(p.contains(d));
            let k = choose|k: int| 0 <= k < p.len() && p[k] == d;
            lemma_path_prefix(g, p, k);
            self.lemma_idoms_lead_to_entry(g, d, p.take(k + 1));
            lemma_climbs_longer(self.idoms(), d, k as nat, (p.len() - 2) as nat);
        }
    }

    /// The immediate dominators form a tree that is rooted at the entry:
    /// from every reachable block, following immediate dominators leads to
    /// the entry in fewer steps than the graph has blocks. So no block is
    /// its own ancestor, and the entry, which has no immediate dominator, is
    /// the only root that a reachable block hangs under.
    pub proof fn lemma_idoms_form_a_tree(&self, g: Graph, b: Index)
        requires
            self.describes(g),
            reachable(g, b),
        ensures
            g.len() > 0,
            climbs(self.idoms(), b, (g.len() - 1) as nat),
    {
        let q = lemma_short_walk(g, b);
        self.lemma_idoms_lead_to_entry(g, b, q);
        lemma_climbs_longer(self.idoms(), b, (q.len() - 1) as nat, (g.len() - 1) as nat);
    }
}

/// The immediate dominator of each block, from the blocks that are reached
/// and the blocks that are reached without passing through a given one.
fn immediate_dominators(
    Ghost(g): Ghost<Graph>,
    reached: &Vec<bool>,
    avoided: &Vec<Vec<bool>>,
) -> (idoms: Vec<Option<Index>>)
    requires
        0 < g.len() <= usize::MAX,
        reached@.len() == g.len(),
        avoided@.len() == g.len(),
        forall|b: Index| b < g.len() ==> (#[trigger] reached@[b as int] <==> reachable(g, b)),
        dominance_rows(g, avoided@, avoided@.len() as int),
    ensures
        idoms@.len() == g.len(),
        forall|b: Index|
            b < g.len() ==> match #[trigger] idoms@[b as int] {
                Some(d) => b != 0 && reachable(g, b) && d < g.len() && is_idom(g, d, b),
                None => b == 0 || !reachable(g, b),
            },
{
    let n = reached.len();
    let mut idoms: Vec<Option<Index>> = Vec::new();
    let mut b: usize = 0;
    while b < n
        invariant
            b <= n,
            n == g.len(),
            n > 0,
            reached@.len() == n,
            avoided@.len() == n,
            forall|b: Index| b < n ==> (#[trigger] reached@[b as int] <==> reachable(g, b)),
            dominance_rows(g, avoided@, avoided@.len() as int),
            idoms@.len() == b,
            forall|c: Index|
                c < b ==> match #[trigger] idoms@[c as int] {
                    Some(d) => c != 0 && reachable(g, c) && d < n && is_idom(g, d, c),
                    None => c == 0 || !reachable(g, c),
                },
        decreases n - b,
    {
        let mut closest: Option<Index> = None;
        if b != 0 && reached[b] {
            let mut d: usize = 0;
            while d < n
                invariant
                    d <= n,
                    b < n,
                    b != 0,
                    n == g.len(),
                    reachable(g, b),
                    reached@.len() == n,
                    avoided@.len() == n,
                    dominance_rows(g, avoided@, avoided@.len() as int),
                    match closest {
                        Some(c) => c < d && strictly_dominates(g, c, b) && forall|s: Index|
                            s < d && strictly_dominates(g, s, b) ==> dominates(g, s, c),
                        None => forall|s: Index| s < d ==> !strictly_dominates(g, s, b),
                    },
                decreases n - d,
            {
                if d != b && !avoided[d][b] {
                    match closest {
                        None => {
                            proof {
                                lemma_dominates_reflexive(g, d);
                            }
                            closest = Some(d);
                        },
                        Some(c) => {
                            if !avoided[c][d] {
                                proof {
                                    lemma_dominates_reflexive(g, d);
                                    assert forall|s: Index|
                                        s < d + 1 && strictly_dominates(g, s, b) implies dominates(
                                        g,
                                        s,
                                        d,
                                    ) by {
                                        if s < d {
                                            lemma_dominates_transitive(g, s, c, d);
                                        }
                                    }
                                }
                                closest = Some(d);
                            } else {
                                proof {
                                    lemma_dominators_form_a_chain(g, c, d, b);
                                }
                            }
                        },
                    }
                }
                d += 1;
            }
            proof {
                lemma_dominates_reflexive(g, b);
                assert(strictly_dominates(g, 0, b));
                let c = closest->0;
                assert forall|s: Index| strictly_dominates(g, s, b) implies dominates(g, s, c) by {
                    lemma_dominator_is_a_block(g, s, b);
                }
            }
        }
        idoms.push(closest);
        b += 1;
    }
    idoms
}

/// The dominance frontier of each block.
fn dominance_frontiers(
    basic_blocks: &Vec<BasicBlock>,
    reached: &Vec<bool>,
    avoided: &Vec<Vec<bool>>,
) -> (frontiers: Vec<Vec<Index>>)
    requires
        basic_blocks@.len() > 0,
        graph_closed(graph_of(basic_blocks@)),
        reached@.len() == basic_blocks@.len(),
        avoided@.len() == basic_blocks@.len(),
        forall|b: Index|
            b < basic_blocks@.len() ==> (#[trigger] reached@[b as int] <==> reachable(
                graph_of(basic_blocks@),
                b,
            )),
        dominance_rows(graph_of(basic_blocks@), avoided@, avoided@.len() as int),
    ensures
        frontiers@.len() == basic_blocks@.len(),
        forall|b: Index|
            b < basic_blocks@.len() ==> (#[trigger] frontiers@[b as int]@).no_duplicates(),
        forall|b: Index, f: Index|
            b < basic_blocks@.len() ==> (#[trigger] frontiers@[b as int]@.contains(f)
                <==> in_frontier(graph_of(basic_blocks@), b, f)),
{
    let n = basic_blocks.len();
    let ghost g = graph_of(basic_blocks@);
    let mut frontiers: Vec<Vec<Index>> = Vec::new();
    let mut b: usize = 0;
    while b < n
        invariant
            b <= n,
            n == basic_blocks@.len(),
            n > 0,
            g == graph_of(basic_blocks@),
            graph_closed(g),
            reached@.len() == n,
            avoided@.len() == n,
            forall|b: Index| b < n ==> (#[trigger] reached@[b as int] <==> reachable(g, b)),
            dominance_rows(g, avoided@, avoided@.len() as int),
            frontiers@.len() == b,
            forall|c: Index| c < b ==> (#[trigger] frontiers@[c as int]@).no_duplicates(),
            forall|c: Index, f: Index|
                c < b ==> (#[trigger] frontiers@[c as int]@.contains(f) <==> in_frontier(g, c, f)),
        decreases n - b,
    {
        let mut frontier: Vec<Index> = Vec::new();
        let mut p: usize = 0;
        while p < n
            invariant
                p <= n,
                b < n,
                n == basic_blocks@.len(),
                g == graph_of(basic_blocks@),
                graph_closed(g),
                reached@.len() == n,
                avoided@.len() == n,
                avoided@[b as int]@.len() == n,
                forall|b: Index| b < n ==> (#[trigger] reached@[b as int] <==> reachable(g, b)),
                dominance_rows(g, avoided@, avoided@.len() as int),
                frontier@.no_duplicates(),
                forall|f: Index|
                    #[trigger] frontier@.contains(f) <==> !strictly_dominates(g, b, f) && exists|
                        q: Index,
                    |
                        q < p && reachable(g, q) && has_edge(g, q, f) && dominates(g, b, q),
            decreases n - p,
        {
            if reached[p] && !avoided[b][p] {
                let successors = basic_blocks[p].get_successors();
                let mut k: usize = 0;
                while k < successors.len()
                    invariant
                        k <= successors@.len(),
                        p < n,
                        b < n,
                        n == basic_blocks@.len(),
                        g == graph_of(basic_blocks@),
                        graph_closed(g),
                        successors@ == g[p as int],
                        reachable(g, p),
                        dominates(g, b, p),
                        avoided@.len() == n,
                        avoided@[b as int]@.len() == n,
                        dominance_rows(g, avoided@, avoided@.len() as int),
                        frontier@.no_duplicates(),
                        forall|f: Index|
                            #[trigger] frontier@.contains(f) <==> !strictly_dominates(g, b, f) && ((
                            exists|q: Index|
                                q < p && reachable(g, q) && has_edge(g, q, f) && dominates(
                                    g,
                                    b,
                                    q,
                                )) || exists|j: int| 0 <= j < k && successors@[j] == f),
                    decreases successors@.len() - k,
                {
                    let f = successors[k];
                    if !(b != f && !avoided[b][f]) {
                        proof {
                            lemma_with_index(frontier@, f);
                        }
                        insert_index(&mut frontier, f);
                    }
                    k += 1;
                }
                proof {
                    assert forall|f: Index| #[trigger]
                        frontier@.contains(f) <==> !strictly_dominates(g, b, f) && exists|q: Index|
                            q < p + 1 && reachable(g, q) && has_edge(g, q, f) && dominates(
                                g,
                                b,
                                q,
                            ) by {
                        if frontier@.contains(f) {
                            if exists|j: int| 0 <= j < successors@.len() && successors@[j] == f {
                                assert(has_edge(g, p, f));
                            }
                        }
                        if !strictly_dominates(g, b, f) && exists|q: Index|
                            q < p + 1 && reachable(g, q) && has_edge(g, q, f) && dominates(g, b, q) {
                            let q = choose|q: Index|
                                q < p + 1 && reachable(g, q) && has_edge(g, q, f) && dominates(
                                    g,
                                    b,
                                    q,
                                );
                            if q == p {
                                let j = choose|j: int|
                                    0 <= j < g[p as int].len() && g[p as int][j] == f;
                                assert(successors@[j] == f);
                            }
                        }
                    }
                }
            }
            p += 1;
        }
        proof {
            assert forall|f: Index| #[trigger] frontier@.contains(f) <==> in_frontier(g, b, f) by {
                if in_frontier(g, b, f) {
                    let q = choose|q: Index|
                        reachable(g, q) && has_edge(g, q, f) && dominates(g, b, q);
                    assert(q < n);
                }
            }
        }
        frontiers.push(frontier);
        b += 1;
    }
    frontiers
}

} // verus!
