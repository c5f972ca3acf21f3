//! Paths and dominance in the graph of basic blocks.
//!
//! A graph is given by the successors of each block. Block 0 is the entry.

use crate::ir::Index;
use vstd::prelude::*;

verus! {

/// For each block, the blocks it has an edge into.
pub type Graph = Seq<Seq<Index>>;

/// Every edge of `g` leads to a block of `g`.
pub open spec fn graph_closed(g: Graph) -> bool {
    forall|i: int, k: int|
        0 <= i < g.len() && 0 <= k < g[i].len() ==> (#[trigger] g[i][k]) < g.len()
}

/// `g` has an edge from `a` into `b`.
pub open spec fn has_edge(g: Graph, a: Index, b: Index) -> bool {
    a < g.len() && g[a as int].contains(b)
}

/// `p` is a walk along edges of `g` that begins at the entry.
pub open spec fn is_path(g: Graph, p: Seq<Index>) -> bool {
    &&& p.len() > 0
    &&& p[0] == 0
    &&& forall|k: int| 0 <= k < p.len() ==> (#[trigger] p[k]) < g.len()
    &&& forall|k: int| 0 <= k < p.len() - 1 ==> has_edge(g, #[trigger] p[k], p[k + 1])
}

/// `p` is a walk from the entry to `b`.
pub open spec fn is_path_to(g: Graph, p: Seq<Index>, b: Index) -> bool {
    is_path(g, p) && p.last() == b
}

/// There is a walk from the entry to `b`.
pub open spec fn reachable(g: Graph, b: Index) -> bool {
    exists|p: Seq<Index>| is_path_to(g, p, b)
}

/// There is a walk from the entry to `b` that does not pass through `d`.
pub open spec fn reachable_avoiding(g: Graph, d: Index, b: Index) -> bool {
    exists|p: Seq<Index>| is_path_to(g, p, b) && !p.contains(d)
}

/// `d` dominates `b`: every walk from the entry to `b` passes through `d`.
pub open spec fn dominates(g: Graph, d: Index, b: Index) -> bool {
    forall|p: Seq<Index>| is_path_to(g, p, b) ==> p.contains(d)
}

/// `d` dominates `b` and is another block.
pub open spec fn strictly_dominates(g: Graph, d: Index, b: Index) -> bool {
    d != b && dominates(g, d, b)
}

/// `d` is the immediate dominator of `b`: it strictly dominates `b`, and
/// every block that strictly dominates `b` dominates `d`.
pub open spec fn is_idom(g: Graph, d: Index, b: Index) -> bool {
    &&& strictly_dominates(g, d, b)
    &&& forall|s: Index| strictly_dominates(g, s, b) ==> dominates(g, s, d)
}

/// `f` is in the dominance frontier of `b`: `b` dominates a reachable
/// predecessor of `f`, and does not strictly dominate `f`.
pub open spec fn in_frontier(g: Graph, b: Index, f: Index) -> bool {
    &&& !strictly_dominates(g, b, f)
    &&& exists|p: Index| reachable(g, p) && has_edge(g, p, f) && dominates(g, b, p)
}

/// A block is reached without passing through `d` exactly if `d` does not
/// dominate it.
pub proof fn lemma_dominates_iff_not_avoidable(g: Graph, d: Index, b: Index)
    ensures
        dominates(g, d, b) <==> !reachable_avoiding(g, d, b),
{
    if !dominates(g, d, b) {
        let p = choose|p: Seq<Index>| is_path_to(g, p, b) && !p.contains(d);
        assert(is_path_to(g, p, b) && !p.contains(d));
    }
}

/// The beginning of a walk, up to position `k`, is a walk to the block at
/// that position.
pub proof fn lemma_path_prefix(g: Graph, p: Seq<Index>, k: int)
    requires
        is_path(g, p),
        0 <= k < p.len(),
    ensures
        is_path_to(g, p.take(k + 1), p[k]),
{
    let q = p.take(k + 1);
    assert forall|i: int| 0 <= i < q.len() - 1 implies has_edge(g, #[trigger] q[i], q[i + 1]) by {
        assert(has_edge(g, p[i], p[i + 1]));
    }
}

/// A walk to `a`, continued along an edge from `a` into `b`, is a walk to
/// `b`.
pub proof fn lemma_path_step(g: Graph, p: Seq<Index>, a: Index, b: Index)
    requires
        is_path_to(g, p, a),
        has_edge(g, a, b),
        b < g.len(),
    ensures
        is_path_to(g, p.push(b), b),
        forall|d: Index| d != b && !p.contains(d) ==> !p.push(b).contains(d),
{
    let q = p.push(b);
    assert forall|i: int| 0 <= i < q.len() - 1 implies has_edge(g, #[trigger] q[i], q[i + 1]) by {
        if i < p.len() - 1 {
            assert(has_edge(g, p[i], p[i + 1]));
        }
    }
    assert forall|d: Index| d != b && !p.contains(d) implies !q.contains(d) by {
        if q.contains(d) {
            let k = choose|k: int| 0 <= k < q.len() && q[k] == d;
            assert(p[k] == d);
        }
    }
}

/// Every block dominates itself, and the entry dominates every block.
pub proof fn lemma_dominates_reflexive(g: Graph, b: Index)
    ensures
        dominates(g, b, b),
        dominates(g, 0, b),
{
    assert forall|p: Seq<Index>| is_path_to(g, p, b) implies p.contains(b) by {
        assert(p[p.len() - 1] == b);
    }
    assert forall|p: Seq<Index>| is_path_to(g, p, b) implies p.contains(0) by {
        assert(p[0] == 0);
    }
}

/// Dominance is transitive.
pub proof fn lemma_dominates_transitive(g: Graph, a: Index, b: Index, c: Index)
    requires
        dominates(g, a, b),
        dominates(g, b, c),
    ensures
        dominates(g, a, c),
{
    assert forall|p: Seq<Index>| is_path_to(g, p, c) implies p.contains(a) by {
        assert(p.contains(b));
        let k = choose|k: int| 0 <= k < p.len() && p[k] == b;
        lemma_path_prefix(g, p, k);
        let q = p.take(k + 1);
        assert(q.contains(a));
        let j = choose|j: int| 0 <= j < q.len() && q[j] == a;
        assert(p[j] == a);
    }
}

/// Two reachable blocks that dominate each other are the same block.
pub proof fn lemma_dominates_antisymmetric(g: Graph, a: Index, b: Index)
    requires
        reachable(g, a),
        dominates(g, a, b),
        dominates(g, b, a),
    ensures
        a == b,
{
    let p = choose|p: Seq<Index>| is_path_to(g, p, a);
    lemma_no_mutual_dominance(g, a, b, p);
}

/// No walk leads to a block `a` that dominates, and is dominated by, another
/// block.
proof fn lemma_no_mutual_dominance(g: Graph, a: Index, b: Index, p: Seq<Index>)
    requires
        is_path_to(g, p, a),
        dominates(g, a, b),
        dominates(g, b, a),
    ensures
        a == b,
    decreases p.len(),
{
    if a != b {
        assert(p.contains(b));
        let k = choose|k: int| 0 <= k < p.len() && p[k] == b;
        lemma_path_prefix(g, p, k);
        let q = p.take(k + 1);
        assert(q.contains(a));
        let j = choose|j: int| 0 <= j < q.len() && q[j] == a;
        lemma_path_prefix(g, p, j);
        lemma_no_mutual_dominance(g, a, b, p.take(j + 1));
    }
}

/// Of two blocks that strictly dominate a reachable block, one dominates the
/// other.
pub proof fn lemma_dominators_form_a_chain(g: Graph, a: Index, b: Index, c: Index)
    requires
        reachable(g, c),
        strictly_dominates(g, a, c),
        strictly_dominates(g, b, c),
    ensures
        dominates(g, a, b) || dominates(g, b, a),
{
    if !dominates(g, a, b) && !dominates(g, b, a) {
        let p = choose|p: Seq<Index>| is_path_to(g, p, c);
        let to_b = choose|q: Seq<Index>| is_path_to(g, q, b) && !q.contains(a);
        let to_a = choose|q: Seq<Index>| is_path_to(g, q, a) && !q.contains(b);
        let k = lemma_last_of_two(p, a, b);
        // From the last place where the walk to `c` is at `a` or `b`, it
        // meets neither of them again.
        if p[k] == b {
            let q = to_b + p.subrange(k + 1, p.len() as int);
            lemma_path_spliced(g, to_b, p, k);
            assert(!q.contains(a)) by {
                if q.contains(a) {
                    let i = choose|i: int| 0 <= i < q.len() && q[i] == a;
                    if i < to_b.len() {
                        assert(to_b[i] == a);
                    } else {
                        assert(p[k + 1 + (i - to_b.len())] == a);
                    }
                }
            }
        } else {
            let q = to_a + p.subrange(k + 1, p.len() as int);
            lemma_path_spliced(g, to_a, p, k);
            assert(!q.contains(b)) by {
                if q.contains(b) {
                    let i = choose|i: int| 0 <= i < q.len() && q[i] == b;
                    if i < to_a.len() {
                        assert(to_a[i] == b);
                    } else {
                        assert(p[k + 1 + (i - to_a.len())] == b);
                    }
                }
            }
        }
    }
}

/// The last position at which a sequence that holds `a` and `b` holds one of
/// them.
proof fn lemma_last_of_two(p: Seq<Index>, a: Index, b: Index) -> (k: int)
    requires
        p.contains(a),
        p.contains(b),
    ensures
        0 <= k < p.len(),
        p[k] == a || p[k] == b,
        forall|i: int| k < i < p.len() ==> p[i] != a && p[i] != b,
    decreases p.len(),
{
    let last = p.len() - 1;
    if p[last] == a || p[last] == b {
        last
    } else {
        let q = p.drop_last();
        let i = choose|i: int| 0 <= i < p.len() && p[i] == a;
        let j = choose|j: int| 0 <= j < p.len() && p[j] == b;
        assert(q[i] == a && q[j] == b);
        let k = lemma_last_of_two(q, a, b);
        assert forall|i: int| k < i < p.len() implies p[i] != a && p[i] != b by {
            if i < q.len() {
                assert(q[i] == p[i]);
            }
        }
        k
    }
}

/// A walk to the block at position `k` of the walk `p`, continued as `p`
/// continues behind `k`, is a walk to where `p` ends.
proof fn lemma_path_spliced(g: Graph, q: Seq<Index>, p: Seq<Index>, k: int)
    requires
        is_path(g, p),
        0 <= k < p.len(),
        is_path_to(g, q, p[k]),
    ensures
        is_path_to(g, q + p.subrange(k + 1, p.len() as int), p.last()),
{
    let r = q + p.subrange(k + 1, p.len() as int);
    assert forall|i: int| 0 <= i < r.len() implies (#[trigger] r[i]) < g.len() by {
        if i < q.len() {
            assert(r[i] == q[i]);
        } else {
            assert(r[i] == p[k + 1 + (i - q.len())]);
        }
    }
    assert forall|i: int| 0 <= i < r.len() - 1 implies has_edge(g, #[trigger] r[i], r[i + 1]) by {
        if i < q.len() - 1 {
            assert(has_edge(g, q[i], q[i + 1]));
        } else if i == q.len() - 1 {
            assert(r[i] == p[k]);
            assert(r[i + 1] == p[k + 1]);
            assert(has_edge(g, p[k], p[k + 1]));
        } else {
            let at = k + 1 + (i - q.len());
            assert(r[i] == p[at]);
            assert(r[i + 1] == p[at + 1]);
            assert(has_edge(g, p[at], p[at + 1]));
        }
    }
    if k == p.len() - 1 {
        assert(r =~= q);
    } else {
        assert(r.last() == p[p.len() - 1]);
    }
}

/// A block has at most one immediate dominator.
pub proof fn lemma_idom_is_unique(g: Graph, d: Index, e: Index, b: Index)
    requires
        reachable(g, b),
        is_idom(g, d, b),
        is_idom(g, e, b),
    ensures
        d == e,
{
    let p = choose|p: Seq<Index>| is_path_to(g, p, b);
    assert(p.contains(d));
    let k = choose|k: int| 0 <= k < p.len() && p[k] == d;
    lemma_path_prefix(g, p, k);
    lemma_dominates_antisymmetric(g, d, e);
}

/// A block that a walk leads to is a block that a walk without repetitions
/// leads to.
pub proof fn lemma_walk_without_repetitions(g: Graph, p: Seq<Index>, b: Index) -> (q: Seq<Index>)
    requires
        is_path_to(g, p, b),
    ensures
        is_path_to(g, q, b),
        q.no_duplicates(),
        q.len() <= p.len(),
    decreases p.len(),
{
    if p.no_duplicates() {
        p
    } else {
        let (i, j) = choose|i: int, j: int|
            0 <= i < p.len() && 0 <= j < p.len() && i != j && p[i] == p[j];
        let (first, second) = if i < j {
            (i, j)
        } else {
            (j, i)
        };
        lemma_path_prefix(g, p, first);
        lemma_path_spliced(g, p.take(first + 1), p, second);
        let shorter = p.take(first + 1) + p.subrange(second + 1, p.len() as int);
        lemma_walk_without_repetitions(g, shorter, b)
    }
}

/// A list without repetitions of numbers below `n` has at most `n` entries.
pub proof fn lemma_distinct_indices_fit(list: Seq<Index>, n: nat)
    requires
        list.no_duplicates(),
        forall|k: int| 0 <= k < list.len() ==> (#[trigger] list[k]) < n,
    ensures
        list.len() <= n,
    decreases n,
{
    if list.len() > 0 {
        if n == 0 {
            assert(list[0] < n);
        } else if list.contains((n - 1) as Index) {
            let i = choose|i: int| 0 <= i < list.len() && list[i] == (n - 1) as Index;
            let rest = list.remove(i);
            assert forall|k: int| 0 <= k < rest.len() implies (#[trigger] rest[k]) < n - 1 by {
                if k < i {
                    assert(rest[k] == list[k]);
                } else {
                    assert(rest[k] == list[k + 1]);
                }
            }
            assert(rest.no_duplicates()) by {
                assert forall|a: int, c: int|
                    0 <= a < rest.len() && 0 <= c < rest.len() && a != c implies rest[a]
                    != rest[c] by {
                    let x = if a < i {
                        a
                    } else {
                        a + 1
                    };
                    let y = if c < i {
                        c
                    } else {
                        c + 1
                    };
                    assert(rest[a] == list[x] && rest[c] == list[y]);
                }
            }
            lemma_distinct_indices_fit(rest, (n - 1) as nat);
        } else {
            assert forall|k: int| 0 <= k < list.len() implies (#[trigger] list[k]) < n - 1 by {
                assert(list.contains(list[k]));
            }
            lemma_distinct_indices_fit(list, (n - 1) as nat);
        }
    }
}

/// A block that is reachable is reached by a walk that is no longer than the
/// graph has blocks.
pub proof fn lemma_short_walk(g: Graph, b: Index) -> (q: Seq<Index>)
    requires
        reachable(g, b),
    ensures
        is_path_to(g, q, b),
        q.len() <= g.len(),
{
    let p = choose|p: Seq<Index>| is_path_to(g, p, b);
    let q = lemma_walk_without_repetitions(g, p, b);
    lemma_distinct_indices_fit(q, g.len());
    q
}

} // verus!
