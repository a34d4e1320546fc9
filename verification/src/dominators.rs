//! Dominators of the blocks of a control-flow graph: dominator sets,
//! immediate dominators, the dominator tree and the dominance frontier.
use crate::bits::{
    below, count_true, filled, lemma_count_below, lemma_count_bound, lemma_total_update, same_row,
    total_true,
};
use crate::cfg::{lemma_incoming_contains, lemma_targets_within, Cfg};
use crate::ordered::{labels_get_by_left, numbered_get_index, numbered_len};
use std::collections::{HashMap, HashSet};
use vstd::prelude::*;

verus! {

broadcast use vstd::std_specs::hash::group_hash_axioms;

/// Whether the blocks form a walk of the graph that starts at the entry:
/// each block but the first is a successor of the one before it.
pub open spec fn is_walk(cfg: Cfg, w: Seq<i32>) -> bool {
    &&& w.len() > 0
    &&& w[0] == cfg.entry()
    &&& forall|i: int| 0 <= i < w.len() ==> cfg.is_block(#[trigger] w[i])
    &&& forall|i: int| 0 <= i < w.len() - 1 ==> cfg.succs(#[trigger] w[i]).contains(w[i + 1])
}

/// Whether some walk from the entry ends at the block.
pub open spec fn reaches(cfg: Cfg, v: i32) -> bool {
    exists|w: Seq<i32>| is_walk(cfg, w) && w.last() == v
}

/// Whether `d` lies on every walk from the entry to `v`.
pub open spec fn dominates(cfg: Cfg, d: i32, v: i32) -> bool {
    forall|w: Seq<i32>| is_walk(cfg, w) && w.last() == v ==> w.contains(d)
}

/// Whether `d` belongs to the dominator set of `v`: on a block that the
/// entry reaches, the blocks that dominate it; on any other block, every
/// block.
pub open spec fn in_dom(cfg: Cfg, d: i32, v: i32) -> bool {
    cfg.is_block(d) && cfg.is_block(v) && (reaches(cfg, v) ==> dominates(cfg, d, v))
}

/// In a well-formed graph, `p` is a predecessor of `v` exactly when `v` is
/// a successor of `p`.
pub proof fn lemma_edge(cfg: Cfg, p: i32, v: i32)
    requires
        cfg.wf(),
        cfg.is_block(v),
    ensures
        cfg.preds(v).contains(p) <==> (cfg.is_block(p) && cfg.succs(p).contains(v)),
{
    lemma_incoming_contains(cfg.succ_lists(), cfg.size(), v, p);
}

/// A successor of a block is a block.
pub proof fn lemma_succ_is_block(cfg: Cfg, u: i32, j: int)
    requires
        cfg.wf(),
        cfg.is_block(u),
        0 <= j < cfg.succs(u).len(),
    ensures
        cfg.is_block(cfg.succs(u)[j]),
{
    lemma_targets_within(cfg);
    assert(cfg.succ_lists()[u as int][j] == cfg.succs(u)[j]);
}

/// A walk that ends at `u` goes on to any successor of `u`.
pub proof fn lemma_walk_extend(cfg: Cfg, w: Seq<i32>, s: i32)
    requires
        cfg.wf(),
        is_walk(cfg, w),
        cfg.succs(w.last()).contains(s),
    ensures
        is_walk(cfg, w.push(s)),
        w.push(s).last() == s,
{
    let j = choose|j: int| 0 <= j < cfg.succs(w.last()).len() && cfg.succs(w.last())[j] == s;
    lemma_succ_is_block(cfg, w.last(), j);
    let x = w.push(s);
    assert forall|i: int| 0 <= i < x.len() - 1 implies cfg.succs(#[trigger] x[i]).contains(
        x[i + 1],
    ) by {
        if i < w.len() - 1 {
            assert(x[i] == w[i]);
            assert(x[i + 1] == w[i + 1]);
        }
    }
}

/// The blocks seen by a depth-first walk, and the blocks that it listed, in
/// order.
pub struct Walk {
    pub seen: Seq<bool>,
    pub listed: Seq<i32>,
}

/// The depth-first walk from a block that was not seen: the block is marked
/// as seen, its successors are seen to in order, and then the block is
/// listed. `depth` bounds the number of blocks that the walk may be in at
/// once.
pub open spec fn walk_from(cfg: Cfg, node: i32, seen: Seq<bool>, depth: nat) -> Walk
    decreases depth, 0nat, 0nat,
{
    if depth == 0 {
        Walk { seen, listed: Seq::empty() }
    } else {
        let w = walk_succs(
            cfg,
            node,
            cfg.succs(node).len(),
            seen.update(node as int, true),
            (depth - 1) as nat,
        );
        Walk { seen: w.seen, listed: w.listed.push(node) }
    }
}

/// The walk after the first `j` successors of a block were seen to: from
/// each that was not seen before, the depth-first walk.
pub open spec fn walk_succs(cfg: Cfg, node: i32, j: nat, seen: Seq<bool>, depth: nat) -> Walk
    decreases depth, 1nat, j,
{
    if j == 0 {
        Walk { seen, listed: Seq::empty() }
    } else {
        let prev = walk_succs(cfg, node, (j - 1) as nat, seen, depth);
        let s = cfg.succs(node)[j - 1];
        if 0 <= s < prev.seen.len() && !prev.seen[s as int] {
            let w = walk_from(cfg, s, prev.seen, depth);
            Walk { seen: w.seen, listed: prev.listed + w.listed }
        } else {
            prev
        }
    }
}

/// The blocks that the entry reaches in post-order: each after the blocks
/// that the depth-first walk from the entry reaches from it first.
pub open spec fn post_order(cfg: Cfg) -> Seq<i32> {
    if cfg.size() == 0 {
        Seq::empty()
    } else {
        walk_from(cfg, cfg.entry(), Seq::new(cfg.size(), |i: int| false), cfg.size()).listed
    }
}

/// The post-order from its end to its start.
pub open spec fn reverse_post_order(cfg: Cfg) -> Seq<i32> {
    Seq::new(post_order(cfg).len(), |k: int| post_order(cfg)[post_order(cfg).len() - 1 - k])
}

/// Visits the blocks that `node` reaches and that were not visited before,
/// depth first, and lists each when all its successors have been seen to.
fn post_order_rec(
    cfg: &Cfg,
    node: i32,
    current: &mut Vec<i32>,
    visited: &mut Vec<bool>,
    Ghost(depth): Ghost<nat>,
)
    requires
        depth + count_true(old(visited)@) >= cfg.size(),
        cfg.wf(),
        cfg.is_block(node),
        reaches(*cfg, node),
        old(visited).len() == cfg.size(),
        !old(visited)[node as int],
        forall|i: int| 0 <= i < old(current).len() ==> reaches(*cfg, #[trigger] old(current)[i]),
        old(current)@.no_duplicates(),
        forall|i: int|
            0 <= i < old(current).len() ==> 0 <= #[trigger] old(current)[i] < cfg.size() && old(
                visited,
            )[old(current)[i] as int],
    ensures
        final(current)@.no_duplicates(),
        forall|i: int|
            0 <= i < final(current).len() ==> 0 <= #[trigger] final(current)[i] < cfg.size()
                && final(visited)[final(current)[i] as int],
        forall|i: int|
            old(current).len() <= i < final(current).len() ==> !old(visited)[
            #[trigger] final(current)[i] as int],
        final(current).len() > old(current).len(),
        final(current)@.last() == node,
        final(visited).len() == cfg.size(),
        final(visited)[node as int],
        below(old(visited)@, final(visited)@),
        forall|k: int, j: int|
            0 <= k < cfg.size() && final(visited)[k] && !old(visited)[k] && 0 <= j < cfg.succs(
                k as i32,
            ).len() ==> final(visited)[#[trigger] cfg.succs(k as i32)[j] as int],
        forall|k: int|
            0 <= k < cfg.size() && final(visited)[k] && !old(visited)[k] ==> final(current)@.contains(
                k as i32,
            ),
        forall|i: int| 0 <= i < final(current).len() ==> reaches(*cfg, #[trigger] final(current)[i]),
        old(current).len() <= final(current).len(),
        forall|i: int| 0 <= i < old(current).len() ==> final(current)[i] == old(current)[i],
        final(visited)@ == walk_from(*cfg, node, old(visited)@, depth).seen,
        final(current)@ == old(current)@ + walk_from(*cfg, node, old(visited)@, depth).listed,
    decreases cfg.size() - count_true(old(visited)@),
{
    let ghost start = visited@;
    let ghost first = current@;
    let ghost n = cfg.size();
    visited.set(node as usize, true);
    let ghost marked = visited@;
    let ghost rest = (depth - 1) as nat;
    proof {
        lemma_count_below(start, visited@);
        lemma_count_bound(visited@);
        assert(depth > 0);
        assert(marked == start.update(node as int, true));
        assert(current@ =~= first + walk_succs(*cfg, node, 0, marked, rest).listed);
    }
    let succ = match cfg.succ.get(&node) {
        Some(l) => l,
        None => {
            proof {
                assert(cfg.succ@.dom().contains(node));
            }
            return ;
        },
    };
    assert(succ@ == cfg.succs(node));
    let mut i: usize = 0;
    while i < succ.len()
        invariant
            i <= succ.len(),
            cfg.wf(),
            n == cfg.size(),
            cfg.is_block(node),
            reaches(*cfg, node),
            succ@ == cfg.succs(node),
            visited.len() == n,
            visited[node as int],
            start.len() == n,
            start == old(visited)@,
            first == old(current)@,
            first.len() <= current.len(),
            forall|k: int| 0 <= k < first.len() ==> current[k] == first[k],
            current@.no_duplicates(),
            forall|k: int|
                0 <= k < current.len() ==> 0 <= #[trigger] current[k] < n && visited[current[k] as int],
            forall|k: int|
                first.len() <= k < current.len() ==> !start[#[trigger] current[k] as int]
                    && current[k] != node,
            !start[node as int],
            below(start, visited@),
            count_true(start) < count_true(visited@),
            forall|j: int| 0 <= j < i ==> visited[#[trigger] succ[j] as int],
            forall|k: int, j: int|
                0 <= k < n && k != node && visited[k] && !start[k] && 0 <= j < cfg.succs(
                    k as i32,
                ).len() ==> visited[#[trigger] cfg.succs(k as i32)[j] as int],
            forall|k: int|
                0 <= k < n && k != node && visited[k] && !start[k] ==> current@.contains(k as i32),
            forall|k: int| 0 <= k < current.len() ==> reaches(*cfg, #[trigger] current[k]),
            depth > 0,
            rest == depth - 1,
            marked.len() == n,
            rest + count_true(visited@) >= n,
            visited@ == walk_succs(*cfg, node, i as nat, marked, rest).seen,
            current@ == first + walk_succs(*cfg, node, i as nat, marked, rest).listed,
        decreases succ.len() - i,
    {
        let s = succ[i];
        proof {
            lemma_succ_is_block(*cfg, node, i as int);
        }
        let ghost before = visited@;
        let ghost listed = current@;
        if !visited[s as usize] {
            proof {
                let w = choose|w: Seq<i32>| is_walk(*cfg, w) && w.last() == node;
                assert(cfg.succs(node)[i as int] == s);
                lemma_walk_extend(*cfg, w, s);
                lemma_count_bound(before);
            }
            post_order_rec(cfg, s, current, visited, Ghost(rest));
            proof {
                lemma_count_below(before, visited@);
                let prev = walk_succs(*cfg, node, i as nat, marked, rest);
                let w = walk_from(*cfg, s, prev.seen, rest);
                assert(current@ =~= first + (prev.listed + w.listed));
                assert forall|k: int| first.len() <= k < current.len() implies !start[
                #[trigger] current[k] as int] && current[k] != node by {
                    if k < listed.len() {
                        assert(current[k] == listed[k]);
                    } else {
                        assert(!before[current[k] as int]);
                    }
                }
                assert forall|k: int, j: int|
                    0 <= k < n && k != node && visited[k] && !start[k] && 0 <= j < cfg.succs(
                        k as i32,
                    ).len() implies visited[#[trigger] cfg.succs(k as i32)[j] as int] by {
                    lemma_succ_is_block(*cfg, k as i32, j);
                    if before[k] {
                        assert(before[cfg.succs(k as i32)[j] as int]);
                    }
                }
                assert forall|k: int|
                    0 <= k < n && k != node && visited[k] && !start[k] implies current@.contains(
                    k as i32,
                ) by {
                    if before[k] {
                        let idx = choose|idx: int| 0 <= idx < listed.len() && listed[idx] == k as i32;
                        assert(current@[idx] == k as i32);
                    }
                }
                assert forall|j: int| 0 <= j < i + 1 implies visited[#[trigger] succ[j] as int] by {
                    lemma_succ_is_block(*cfg, node, j);
                    if j < i {
                        assert(before[succ[j] as int]);
                    }
                }
            }
        }
        i += 1;
    }
    let ghost listed = current@;
    current.push(node);
    proof {
        assert(current@[listed.len() as int] == node);
        assert(current@.no_duplicates()) by {
            assert forall|a: int, b: int|
                0 <= a < current.len() && 0 <= b < current.len() && a != b implies current[a]
                != current[b] by {
                if a < listed.len() && b < listed.len() {
                    assert(listed[a] != listed[b]);
                } else {
                    let other = if a < listed.len() {
                        a
                    } else {
                        b
                    };
                    if other < first.len() {
                        assert(old(current)[other] == listed[other]);
                        assert(old(visited)[old(current)[other] as int]);
                        assert(start[listed[other] as int]);
                    } else {
                        assert(listed[other] != node);
                    }
                }
            }
        }
        assert forall|k: int|
            0 <= k < n && visited[k] && !start[k] implies current@.contains(k as i32) by {
            if k != node {
                let idx = choose|idx: int| 0 <= idx < listed.len() && listed[idx] == k as i32;
                assert(current@[idx] == k as i32);
            }
        }
    }
}


/// The walk that only holds the entry.
pub proof fn lemma_entry_reaches(cfg: Cfg)
    requires
        cfg.wf(),
        cfg.size() > 0,
    ensures
        cfg.is_block(cfg.entry()),
        is_walk(cfg, seq![cfg.entry()]),
        reaches(cfg, cfg.entry()),
{
    assert(cfg.is_block(cfg.entries()[0].0));
    let w = seq![cfg.entry()];
    assert(is_walk(cfg, w));
    assert(w.last() == cfg.entry());
}

/// A set of visited blocks that holds the entry and, with each block, its
/// successors, holds every block of every walk.
pub proof fn lemma_closed_visits(cfg: Cfg, visited: Seq<bool>, w: Seq<i32>, i: int)
    requires
        cfg.wf(),
        visited.len() == cfg.size(),
        cfg.size() > 0,
        visited[cfg.entry() as int],
        forall|k: int, j: int|
            0 <= k < cfg.size() && visited[k] && 0 <= j < cfg.succs(k as i32).len() ==> visited[
            #[trigger] cfg.succs(k as i32)[j] as int],
        is_walk(cfg, w),
        0 <= i < w.len(),
    ensures
        visited[w[i] as int],
    decreases i,
{
    if i > 0 {
        lemma_closed_visits(cfg, visited, w, i - 1);
        let u = w[i - 1];
        assert(cfg.succs(u).contains(w[i - 1 + 1]));
        let j = choose|j: int| 0 <= j < cfg.succs(u).len() && cfg.succs(u)[j] == w[i];
        assert(visited[cfg.succs(u as int as i32)[j] as int]);
    }
}

/// The blocks that the entry reaches, in reverse post-order of a
/// depth-first traversal from the entry.
pub fn get_reverse_post_order(cfg: &Cfg) -> (order: Vec<i32>)
    requires
        cfg.wf(),
    ensures
        forall|i: int| 0 <= i < order.len() ==> reaches(*cfg, #[trigger] order[i]),
        forall|v: i32| reaches(*cfg, v) ==> order@.contains(v),
        order@.no_duplicates(),
        cfg.size() > 0 ==> order.len() > 0 && order[0] == cfg.entry(),
        order@ == reverse_post_order(*cfg),
{
    let n = numbered_len(&cfg.block_map);
    let mut order: Vec<i32> = Vec::new();
    if n == 0 {
        assert(order@ =~= reverse_post_order(*cfg));
        assert forall|v: i32| reaches(*cfg, v) implies order@.contains(v) by {
            let w = choose|w: Seq<i32>| is_walk(*cfg, w) && w.last() == v;
            assert(cfg.is_block(w[0]));
        }
        return order;
    }
    let (entry, _) = numbered_get_index(&cfg.block_map, 0);
    proof {
        lemma_entry_reaches(*cfg);
    }
    let mut visited = filled(n, false);
    let mut current: Vec<i32> = Vec::new();
    proof {
        assert(visited@ =~= Seq::new(cfg.size(), |i: int| false));
    }
    post_order_rec(cfg, entry, &mut current, &mut visited, Ghost(cfg.size()));
    proof {
        assert(current@ =~= post_order(*cfg));
    }
    proof {
        assert forall|v: i32| reaches(*cfg, v) implies current@.contains(v) by {
            let w = choose|w: Seq<i32>| is_walk(*cfg, w) && w.last() == v;
            lemma_closed_visits(*cfg, visited@, w, w.len() - 1);
            assert(cfg.is_block(w[w.len() - 1]));
        }
    }
    let mut i: usize = current.len();
    while i > 0
        invariant
            i <= current.len(),
            order.len() == current.len() - i,
            forall|k: int| 0 <= k < order.len() ==> order[k] == current[current.len() - 1 - k],
        decreases i,
    {
        i -= 1;
        order.push(current[i]);
    }
    proof {
        assert(order@.no_duplicates()) by {
            assert forall|a: int, b: int|
                0 <= a < order.len() && 0 <= b < order.len() && a != b implies order[a]
                != order[b] by {
                assert(current[current.len() - 1 - a] != current[current.len() - 1 - b]);
            }
        }
        assert forall|v: i32| reaches(*cfg, v) implies order@.contains(v) by {
            let idx = choose|idx: int| 0 <= idx < current.len() && current[idx] == v;
            assert(order[current.len() - 1 - idx] == v);
        }
        assert(order@ =~= reverse_post_order(*cfg));
    }
    order
}

/// The models of the rows of a table of flags.
pub open spec fn rows_of(bits: Seq<Vec<bool>>) -> Seq<Seq<bool>> {
    bits.map_values(|r: Vec<bool>| r@)
}

/// Whether the table has `n` rows of `n` flags.
pub open spec fn square(rows: Seq<Seq<bool>>, n: nat) -> bool {
    rows.len() == n && forall|v: int| 0 <= v < n ==> (#[trigger] rows[v]).len() == n
}

/// One step of the dominator equations: `d` is `v` itself, or `v` has
/// predecessors and `d` is in the set of each of them.
pub open spec fn meet(cfg: Cfg, rows: Seq<Seq<bool>>, v: i32, d: int) -> bool {
    d == v || (cfg.preds(v).len() > 0 && forall|j: int|
        0 <= j < cfg.preds(v).len() ==> rows[#[trigger] cfg.preds(v)[j] as int][d])
}

/// Whether the table holds at least the dominator sets.
pub open spec fn complete(cfg: Cfg, rows: Seq<Seq<bool>>) -> bool {
    forall|v: i32, d: i32| #[trigger] in_dom(cfg, d, v) ==> rows[v as int][d as int]
}

/// Whether, on each block that the entry reaches, the table holds what one
/// step of the equations gives.
pub open spec fn settled_above(cfg: Cfg, rows: Seq<Seq<bool>>) -> bool {
    forall|v: i32, d: int|
        reaches(cfg, v) && 0 <= d < cfg.size() && #[trigger] meet(cfg, rows, v, d) ==> rows[v as int][d]
}

/// Whether, on each block that the entry reaches, the table holds no more
/// than one step of the equations gives.
pub open spec fn settled_below(cfg: Cfg, rows: Seq<Seq<bool>>) -> bool {
    forall|v: i32, d: int|
        reaches(cfg, v) && 0 <= d < cfg.size() && rows[v as int][d] ==> #[trigger] meet(
            cfg,
            rows,
            v,
            d,
        )
}

/// A predecessor of a block is a block.
pub proof fn lemma_pred_is_block(cfg: Cfg, v: i32, j: int)
    requires
        cfg.wf(),
        cfg.is_block(v),
        0 <= j < cfg.preds(v).len(),
    ensures
        cfg.is_block(cfg.preds(v)[j]),
        cfg.succs(cfg.preds(v)[j]).contains(v),
{
    lemma_edge(cfg, cfg.preds(v)[j], v);
}

/// A table that holds at least the dominator sets holds, after a step of
/// the equations on a block that the entry reaches, at least the dominator
/// set of that block.
pub proof fn lemma_complete_step(cfg: Cfg, rows: Seq<Seq<bool>>, v: i32)
    requires
        cfg.wf(),
        cfg.size() > 0,
        complete(cfg, rows),
        reaches(cfg, v),
    ensures
        forall|d: i32| in_dom(cfg, d, v) ==> #[trigger] meet(cfg, rows, v, d as int),
{
    assert forall|d: i32| in_dom(cfg, d, v) implies #[trigger] meet(cfg, rows, v, d as int) by {
        if d != v {
            let w = choose|w: Seq<i32>| is_walk(cfg, w) && w.last() == v;
            assert(w.contains(d));
            if w.len() == 1 {
                let i = choose|i: int| 0 <= i < w.len() && w[i] == d;
                assert(false);
            }
            let u = w[w.len() - 2];
            assert(cfg.is_block(w[w.len() - 1]));
            assert(cfg.is_block(u));
            assert(cfg.succs(u).contains(w[w.len() - 2 + 1]));
            lemma_edge(cfg, u, v);
            assert(cfg.preds(v).len() > 0);
            assert forall|j: int| 0 <= j < cfg.preds(v).len() implies rows[
            #[trigger] cfg.preds(v)[j] as int][d as int] by {
                let p = cfg.preds(v)[j];
                lemma_pred_is_block(cfg, v, j);
                assert(in_dom(cfg, d, p)) by {
                    if reaches(cfg, p) {
                        assert forall|x: Seq<i32>| is_walk(cfg, x) && x.last() == p implies x.contains(
                            d,
                        ) by {
                            lemma_walk_extend(cfg, x, v);
                            let y = x.push(v);
                            assert(y.contains(d));
                            let i = choose|i: int| 0 <= i < y.len() && y[i] == d;
                            assert(x[i] == d);
                        }
                    }
                }
            }
        }
    }
}

/// A step of the equations on one row keeps the table settled from above.
pub proof fn lemma_settled_step(cfg: Cfg, rows: Seq<Seq<bool>>, v: i32, row: Seq<bool>)
    requires
        cfg.wf(),
        square(rows, cfg.size()),
        cfg.is_block(v),
        reaches(cfg, v),
        settled_above(cfg, rows),
        row.len() == cfg.size(),
        forall|d: int| 0 <= d < cfg.size() ==> row[d] == meet(cfg, rows, v, d),
    ensures
        below(row, rows[v as int]),
        settled_above(cfg, rows.update(v as int, row)),
{
    let next = rows.update(v as int, row);
    assert forall|d: int| 0 <= d < row.len() && row[d] implies rows[v as int][d] by {
        assert(meet(cfg, rows, v, d));
    }
    assert forall|u: i32, d: int|
        reaches(cfg, u) && 0 <= d < cfg.size() && #[trigger] meet(cfg, next, u, d) implies next[u as int][d] by {
        let w = choose|w: Seq<i32>| is_walk(cfg, w) && w.last() == u;
        assert(cfg.is_block(w[w.len() - 1]));
        assert(meet(cfg, rows, u, d)) by {
            if d != u {
                assert forall|j: int| 0 <= j < cfg.preds(u).len() implies rows[
                #[trigger] cfg.preds(u)[j] as int][d] by {
                    lemma_pred_is_block(cfg, u, j);
                    let p = cfg.preds(u)[j];
                    assert(next[p as int][d]);
                    if p == v {
                        assert(row[d]);
                        assert(meet(cfg, rows, v, d));
                    }
                }
            }
        }
    }
}

/// In a table that is settled from below, over a graph with a clean entry,
/// a block in the set of the end of a walk lies on the walk.
pub proof fn lemma_sound(cfg: Cfg, rows: Seq<Seq<bool>>, w: Seq<i32>, d: i32)
    requires
        cfg.wf(),
        cfg.clean_entry(),
        settled_below(cfg, rows),
        is_walk(cfg, w),
        cfg.is_block(d),
        rows[w.last() as int][d as int],
    ensures
        w.contains(d),
    decreases w.len(),
{
    let v = w.last();
    assert(cfg.is_block(w[w.len() - 1]));
    assert(reaches(cfg, v));
    assert(meet(cfg, rows, v, d as int));
    if d == v {
        assert(w[w.len() - 1] == d);
    } else {
        if w.len() == 1 {
            assert(false);
        }
        let u = w[w.len() - 2];
        assert(cfg.is_block(u));
        assert(cfg.succs(u).contains(w[w.len() - 2 + 1]));
        lemma_edge(cfg, u, v);
        let j = choose|j: int| 0 <= j < cfg.preds(v).len() && cfg.preds(v)[j] == u;
        assert(rows[cfg.preds(v)[j] as int][d as int]);
        let x = w.drop_last();
        assert(is_walk(cfg, x)) by {
            assert forall|i: int| 0 <= i < x.len() - 1 implies cfg.succs(#[trigger] x[i]).contains(
                x[i + 1],
            ) by {
                assert(x[i] == w[i]);
                assert(x[i + 1] == w[i + 1]);
            }
            assert forall|i: int| 0 <= i < x.len() implies cfg.is_block(#[trigger] x[i]) by {
                assert(x[i] == w[i]);
            }
        }
        lemma_sound(cfg, rows, x, d);
        let i = choose|i: int| 0 <= i < x.len() && x[i] == d;
        assert(w[i] == d);
    }
}

/// The row that one step of the equations gives for a block.
fn meet_row(cfg: &Cfg, bits: &Vec<Vec<bool>>, v: i32) -> (row: Vec<bool>)
    requires
        cfg.wf(),
        cfg.is_block(v),
        square(rows_of(bits@), cfg.size()),
    ensures
        row.len() == cfg.size(),
        forall|d: int| 0 <= d < cfg.size() ==> row[d] == meet(*cfg, rows_of(bits@), v, d),
{
    let n = bits.len();
    let ghost rows = rows_of(bits@);
    let empty: Vec<i32> = Vec::new();
    let preds = match cfg.pred.get(&v) {
        Some(l) => l,
        None => {
            proof {
                assert(cfg.pred@.dom().contains(v));
            }
            &empty
        },
    };
    assert(preds@ == cfg.preds(v));
    let mut row: Vec<bool> = Vec::new();
    let mut d: usize = 0;
    while d < n
        invariant
            d <= n,
            n == cfg.size(),
            cfg.wf(),
            cfg.is_block(v),
            rows == rows_of(bits@),
            square(rows, cfg.size()),
            preds@ == cfg.preds(v),
            row.len() == d,
            forall|k: int| 0 <= k < d ==> row[k] == meet(*cfg, rows, v, k),
        decreases n - d,
    {
        let mut all = preds.len() > 0;
        let mut j: usize = 0;
        while j < preds.len()
            invariant
                j <= preds.len(),
                d < n,
                n == cfg.size(),
                cfg.wf(),
                cfg.is_block(v),
                rows == rows_of(bits@),
                square(rows, cfg.size()),
                preds@ == cfg.preds(v),
                all == (preds.len() > 0 && forall|k: int|
                    0 <= k < j ==> rows[#[trigger] preds[k] as int][d as int]),
            decreases preds.len() - j,
        {
            let p = preds[j];
            proof {
                lemma_pred_is_block(*cfg, v, j as int);
                assert(rows[p as int] == bits[p as int]@);
            }
            if !bits[p as usize][d] {
                all = false;
            }
            j += 1;
        }
        row.push(all || d == v as usize);
        d += 1;
    }
    row
}

/// The set of the numbers whose flag is set.
fn to_set(row: &Vec<bool>) -> (set: HashSet<i32>)
    requires
        row.len() <= i32::MAX,
    ensures
        forall|d: i32| set@.contains(d) <==> (0 <= d < row.len() && row[d as int]),
{
    let mut set: HashSet<i32> = HashSet::new();
    let mut d: usize = 0;
    while d < row.len()
        invariant
            d <= row.len() <= i32::MAX,
            forall|k: i32| set@.contains(k) <==> (0 <= k < d && row[k as int]),
        decreases row.len() - d,
    {
        if row[d] {
            set.insert(d as i32);
        }
        d += 1;
    }
    set
}

/// The map from each block number to the set that its row holds.
fn to_sets(bits: &Vec<Vec<bool>>) -> (m: HashMap<i32, HashSet<i32>>)
    requires
        bits.len() <= i32::MAX,
        square(rows_of(bits@), bits.len() as nat),
    ensures
        m@.dom() =~= Set::new(|k: i32| 0 <= k < bits.len()),
        forall|v: i32, d: i32|
            0 <= v < bits.len() ==> (#[trigger] m@[v]@.contains(d) <==> (0 <= d < bits.len()
                && bits[v as int][d as int])),
{
    let mut m: HashMap<i32, HashSet<i32>> = HashMap::new();
    let ghost rows = rows_of(bits@);
    let mut v: usize = 0;
    while v < bits.len()
        invariant
            v <= bits.len() <= i32::MAX,
            rows == rows_of(bits@),
            square(rows, bits.len() as nat),
            m@.dom() =~= Set::new(|k: i32| 0 <= k < v),
            forall|u: i32, d: i32|
                0 <= u < v ==> (#[trigger] m@[u]@.contains(d) <==> (0 <= d < bits.len() && bits[u as int][d as int])),
        decreases bits.len() - v,
    {
        assert(rows[v as int] == bits[v as int]@);
        let set = to_set(&bits[v]);
        m.insert(v as i32, set);
        v += 1;
    }
    m
}

/// The dominator set of every block.
///
/// On a block that the entry reaches, the set holds exactly the blocks that
/// lie on every walk from the entry to it; on any other block it holds all
/// blocks.
pub fn find_dominators_num(cfg: &Cfg) -> (dom: HashMap<i32, HashSet<i32>>)
    requires
        cfg.wf(),
        cfg.clean_entry(),
    ensures
        dom@.dom() =~= Set::new(|k: i32| cfg.is_block(k)),
        forall|v: i32, d: i32|
            cfg.is_block(v) ==> (#[trigger] dom@[v]@.contains(d) <==> in_dom(*cfg, d, v)),
{
    let n = numbered_len(&cfg.block_map);
    if n == 0 {
        return HashMap::new();
    }
    let bits = dominator_table(cfg);
    to_sets(&bits)
}

/// The dominator sets as a table of flags: the flag `d` of row `v` says
/// whether `d` is in the dominator set of `v`.
pub fn dominator_table(cfg: &Cfg) -> (bits: Vec<Vec<bool>>)
    requires
        cfg.wf(),
        cfg.clean_entry(),
        cfg.size() > 0,
    ensures
        square(rows_of(bits@), cfg.size()),
        forall|v: i32, d: i32|
            cfg.is_block(v) && cfg.is_block(d) ==> (#[trigger] bits[v as int][d as int] <==> in_dom(
                *cfg,
                d,
                v,
            )),
{
    let n = numbered_len(&cfg.block_map);
    let (first_num, _) = numbered_get_index(&cfg.block_map, 0);
    proof {
        lemma_entry_reaches(*cfg);
    }
    let mut bits: Vec<Vec<bool>> = Vec::new();
    let mut k: usize = 0;
    while k < n
        invariant
            k <= n,
            n == cfg.size(),
            0 <= first_num < n,
            bits.len() == k,
            forall|v: int| 0 <= v < k ==> (#[trigger] bits[v]).len() == n,
            forall|v: int, d: int|
                0 <= v < k && 0 <= d < n ==> (#[trigger] bits[v][d] <==> (v != first_num || d
                    == first_num)),
        decreases n - k,
    {
        if k == first_num as usize {
            let mut row = filled(n, false);
            row.set(k, true);
            bits.push(row);
        } else {
            bits.push(filled(n, true));
        }
        k += 1;
    }
    let vertices = get_reverse_post_order(cfg);
    proof {
        let rows = rows_of(bits@);
        assert(square(rows, n as nat)) by {
            assert forall|v: int| 0 <= v < n implies (#[trigger] rows[v]).len() == n by {
                assert(rows[v] == bits[v]@);
            }
        }
        assert forall|v: i32, d: i32| #[trigger] in_dom(*cfg, d, v) implies rows[v as int][d as int] by {
            assert(rows[v as int] == bits[v as int]@);
            if v == first_num && d != first_num {
                let w = seq![cfg.entry()];
                assert(is_walk(*cfg, w) && w.last() == v);
                assert(dominates(*cfg, d, v));
                assert(w.contains(d));
                let i = choose|i: int| 0 <= i < w.len() && w[i] == d;
                assert(false);
            }
        }
        assert forall|v: i32, d: int|
            reaches(*cfg, v) && 0 <= d < cfg.size() && #[trigger] meet(
                *cfg,
                rows,
                v,
                d,
            ) implies rows[v as int][d] by {
            let w = choose|w: Seq<i32>| is_walk(*cfg, w) && w.last() == v;
            assert(cfg.is_block(w[w.len() - 1]));
            assert(rows[v as int] == bits[v as int]@);
        }
    }
    let mut changed = true;
    while changed
        invariant
            n == cfg.size(),
            n > 0,
            cfg.wf(),
            cfg.clean_entry(),
            square(rows_of(bits@), n as nat),
            complete(*cfg, rows_of(bits@)),
            settled_above(*cfg, rows_of(bits@)),
            forall|i: int| 0 <= i < vertices.len() ==> reaches(*cfg, #[trigger] vertices[i]),
            forall|v: i32| reaches(*cfg, v) ==> vertices@.contains(v),
            !changed ==> settled_below(*cfg, rows_of(bits@)),
        decreases
                total_true(rows_of(bits@), n as nat) + if changed {
                    1nat
                } else {
                    0nat
                },
    {
        changed = false;
        let ghost start = rows_of(bits@);
        let mut i: usize = 0;
        while i < vertices.len()
            invariant
                i <= vertices.len(),
                n == cfg.size(),
                n > 0,
                cfg.wf(),
                cfg.clean_entry(),
                square(rows_of(bits@), n as nat),
                square(start, n as nat),
                complete(*cfg, rows_of(bits@)),
                settled_above(*cfg, rows_of(bits@)),
                forall|k: int| 0 <= k < vertices.len() ==> reaches(*cfg, #[trigger] vertices[k]),
                total_true(rows_of(bits@), n as nat) <= total_true(start, n as nat),
                changed ==> total_true(rows_of(bits@), n as nat) < total_true(start, n as nat),
                !changed ==> rows_of(bits@) == start,
                !changed ==> forall|k: int, d: int|
                    0 <= k < i && 0 <= d < n ==> (start[#[trigger] vertices[k] as int][d] ==> #[trigger] meet(
                        *cfg,
                        start,
                        vertices[k],
                        d,
                    )),
            decreases vertices.len() - i,
        {
            let v = vertices[i];
            let ghost rows = rows_of(bits@);
            proof {
                let w = choose|w: Seq<i32>| is_walk(*cfg, w) && w.last() == v;
                assert(cfg.is_block(w[w.len() - 1]));
            }
            let row = meet_row(cfg, &bits, v);
            assert(rows[v as int] == bits[v as int]@);
            if !same_row(&row, &bits[v as usize]) {
                proof {
                    lemma_settled_step(*cfg, rows, v, row@);
                    lemma_complete_step(*cfg, rows, v);
                    lemma_count_below(row@, rows[v as int]);
                    lemma_total_update(rows, n as nat, v as int, row@);
                }
                bits.set(v as usize, row);
                proof {
                    let next = rows_of(bits@);
                    assert(next =~= rows.update(v as int, row@));
                    assert forall|u: i32, d: i32| #[trigger] in_dom(*cfg, d, u) implies next[u as int][d as int] by {
                        if u == v {
                            assert(meet(*cfg, rows, v, d as int));
                        } else {
                            assert(rows[u as int][d as int]);
                        }
                    }
                }
                changed = true;
            } else {
                proof {
                    if !changed {
                        assert forall|d: int|
                            0 <= d < n && start[v as int][d] implies #[trigger] meet(
                            *cfg,
                            start,
                            v,
                            d,
                        ) by {
                            assert(row[d] == meet(*cfg, rows, v, d));
                        }
                    }
                }
            }
            i += 1;
        }
        proof {
            if !changed {
                let rows = rows_of(bits@);
                assert forall|v: i32, d: int|
                    reaches(*cfg, v) && 0 <= d < cfg.size() && rows[v as int][d] implies #[trigger] meet(
                    *cfg,
                    rows,
                    v,
                    d,
                ) by {
                    let k = choose|k: int| 0 <= k < vertices.len() && vertices[k] == v;
                    assert(start[vertices[k] as int][d]);
                }
            }
        }
    }
    proof {
        let rows = rows_of(bits@);
        assert forall|v: i32, d: i32| cfg.is_block(v) && cfg.is_block(d) implies (
        #[trigger] bits[v as int][d as int] <==> in_dom(*cfg, d, v)) by {
            assert(rows[v as int] == bits[v as int]@);
            if bits[v as int][d as int] {
                if reaches(*cfg, v) {
                    assert forall|w: Seq<i32>| is_walk(*cfg, w) && w.last() == v implies w.contains(
                        d,
                    ) by {
                        lemma_sound(*cfg, rows, w, d);
                    }
                }
            }
            if in_dom(*cfg, d, v) {
                assert(rows[v as int][d as int]);
            }
        }
    }
    bits
}


/// Dominator soundness: a block in the dominator set of `v` lies on every
/// walk from the entry to `v`.
pub proof fn lemma_dominators_sound(cfg: Cfg, v: i32, d: i32, w: Seq<i32>)
    requires
        in_dom(cfg, d, v),
        is_walk(cfg, w),
        w.last() == v,
    ensures
        w.contains(d),
{
}

/// The labels of the members of a set among the first `k` block numbers,
/// by ascending number.
pub open spec fn member_labels(set: Set<i32>, pairs: Map<i32, Seq<char>>, k: nat) -> Seq<
    Seq<char>,
>
    decreases k,
{
    if k == 0 {
        Seq::empty()
    } else {
        let prev = member_labels(set, pairs, (k - 1) as nat);
        if set.contains((k - 1) as i32) {
            prev.push(pairs[(k - 1) as i32])
        } else {
            prev
        }
    }
}

/// Writes sets of block numbers by labels: for each block, by ascending
/// number, its label and the labels of the members of its set, by ascending
/// number.
pub fn convert_doms_to_string(cfg: &Cfg, dom: &HashMap<i32, HashSet<i32>>) -> (named: Vec<
    (String, Vec<String>),
>)
    requires
        cfg.wf(),
        dom@.dom() =~= Set::new(|k: i32| cfg.is_block(k)),
    ensures
        named.len() == cfg.size(),
        forall|v: int|
            0 <= v < named.len() ==> (#[trigger] named[v]).0@ == cfg.labels()[v as i32]
                && crate::ir::names(named[v].1@) == member_labels(
                dom@[v as i32]@,
                cfg.labels(),
                cfg.size(),
            ),
{
    let n = numbered_len(&cfg.block_map);
    let mut named: Vec<(String, Vec<String>)> = Vec::new();
    let mut v: usize = 0;
    while v < n
        invariant
            v <= n,
            n == cfg.size(),
            cfg.wf(),
            dom@.dom() =~= Set::new(|k: i32| cfg.is_block(k)),
            named.len() == v,
            forall|u: int|
                0 <= u < v ==> (#[trigger] named[u]).0@ == cfg.labels()[u as i32]
                    && crate::ir::names(named[u].1@) == member_labels(
                    dom@[u as i32]@,
                    cfg.labels(),
                    cfg.size(),
                ),
        decreases n - v,
    {
        assert(cfg.is_block(v as i32));
        assert(cfg.labels().dom().contains(v as i32));
        assert(dom@.dom().contains(v as i32));
        let name = match labels_get_by_left(&cfg.name_map, v as i32) {
            Some(l) => l.clone(),
            None => String::new(),
        };
        let empty: HashSet<i32> = HashSet::new();
        let set = match dom.get(&(v as i32)) {
            Some(s) => s,
            None => &empty,
        };
        let mut members: Vec<String> = Vec::new();
        let mut d: usize = 0;
        assert(crate::ir::names(members@) =~= member_labels(set@, cfg.labels(), 0));
        while d < n
            invariant
                d <= n,
                n == cfg.size(),
                cfg.wf(),
                crate::ir::names(members@) == member_labels(set@, cfg.labels(), d as nat),
            decreases n - d,
        {
            assert(cfg.is_block(d as i32));
            assert(cfg.labels().dom().contains(d as i32));
            if set.contains(&(d as i32)) {
                let ghost before = crate::ir::names(members@);
                match labels_get_by_left(&cfg.name_map, d as i32) {
                    Some(l) => {
                        members.push(l.clone());
                    },
                    None => {},
                }
                assert(crate::ir::names(members@) =~= before.push(cfg.labels()[d as i32]));
            }
            d += 1;
        }
        named.push((name, members));
        v += 1;
    }
    named
}

/// The dominators of every block, by labels.
pub fn find_dominators(cfg: &Cfg) -> (named: Vec<(String, Vec<String>)>)
    requires
        cfg.wf(),
        cfg.clean_entry(),
    ensures
        named.len() == cfg.size(),
        forall|v: int|
            0 <= v < named.len() ==> (#[trigger] named[v]).0@ == cfg.labels()[v as i32]
                && crate::ir::names(named[v].1@) == member_labels(
                Set::new(|d: i32| in_dom(*cfg, d, v as i32)),
                cfg.labels(),
                cfg.size(),
            ),
{
    let dom = find_dominators_num(cfg);
    let named = convert_doms_to_string(cfg, &dom);
    proof {
        assert forall|v: int| 0 <= v < named.len() implies crate::ir::names(
            (#[trigger] named[v]).1@,
        ) == member_labels(
            Set::new(|d: i32| in_dom(*cfg, d, v as i32)),
            cfg.labels(),
            cfg.size(),
        ) by {
            assert(cfg.is_block(v as i32));
            assert(dom@[v as i32]@ =~= Set::new(|d: i32| in_dom(*cfg, d, v as i32)));
        }
    }
    named
}

/// The strict dominators: each set without the block it belongs to.
pub fn get_strict_doms(dom: &HashMap<i32, HashSet<i32>>, n: usize) -> (sdom: HashMap<
    i32,
    HashSet<i32>,
>)
    requires
        n <= i32::MAX,
        dom@.dom() =~= Set::new(|k: i32| 0 <= k < n),
        forall|v: i32, d: i32| 0 <= v < n && #[trigger] dom@[v]@.contains(d) ==> 0 <= d < n,
    ensures
        sdom@.dom() =~= dom@.dom(),
        forall|v: i32, d: i32|
            0 <= v < n ==> (#[trigger] sdom@[v]@.contains(d) <==> (dom@[v]@.contains(d) && d != v)),
{
    let mut sdom: HashMap<i32, HashSet<i32>> = HashMap::new();
    let mut v: usize = 0;
    while v < n
        invariant
            v <= n <= i32::MAX,
            dom@.dom() =~= Set::new(|k: i32| 0 <= k < n),
            forall|u: i32, d: i32| 0 <= u < n && #[trigger] dom@[u]@.contains(d) ==> 0 <= d < n,
            sdom@.dom() =~= Set::new(|k: i32| 0 <= k < v),
            forall|u: i32, d: i32|
                0 <= u < v ==> (#[trigger] sdom@[u]@.contains(d) <==> (dom@[u]@.contains(d) && d
                    != u)),
        decreases n - v,
    {
        assert(dom@.dom().contains(v as i32));
        let empty: HashSet<i32> = HashSet::new();
        let set = match dom.get(&(v as i32)) {
            Some(s) => s,
            None => &empty,
        };
        let mut strict: HashSet<i32> = HashSet::new();
        let mut d: usize = 0;
        while d < n
            invariant
                d <= n <= i32::MAX,
                v < n,
                forall|k: i32|
                    strict@.contains(k) <==> (0 <= k < d && set@.contains(k) && k != v),
            decreases n - d,
        {
            if d != v && set.contains(&(d as i32)) {
                strict.insert(d as i32);
            }
            d += 1;
        }
        sdom.insert(v as i32, strict);
        v += 1;
    }
    sdom
}

/// Whether `a` is a strict dominator of `v`: in its dominator set, and not
/// `v` itself.
pub open spec fn strictly(cfg: Cfg, a: i32, v: i32) -> bool {
    in_dom(cfg, a, v) && a != v
}

/// Whether `a` is a strict dominator of `v` that is a strict dominator of
/// no strict dominator of `v`.
pub open spec fn immediate(cfg: Cfg, a: i32, v: i32) -> bool {
    strictly(cfg, a, v) && forall|d: i32| #[trigger] strictly(cfg, d, v) ==> !strictly(cfg, a, d)
}

/// Whether `r` is the immediate dominator of `v`: the block of the
/// greatest number among those that are immediate to `v`, if there is one.
pub open spec fn is_idom(cfg: Cfg, v: i32, r: Option<i32>) -> bool {
    match r {
        Some(a) => immediate(cfg, a, v) && forall|b: i32| a < b ==> !immediate(cfg, b, v),
        None => forall|b: i32| !immediate(cfg, b, v),
    }
}

/// The immediate dominator of every block, by block number.
pub fn immediate_dominators(cfg: &Cfg) -> (idom: Vec<Option<i32>>)
    requires
        cfg.wf(),
        cfg.clean_entry(),
    ensures
        idom.len() == cfg.size(),
        forall|v: int| 0 <= v < idom.len() ==> is_idom(*cfg, v as i32, #[trigger] idom[v]),
{
    let n = numbered_len(&cfg.block_map);
    let mut idom: Vec<Option<i32>> = Vec::new();
    if n == 0 {
        return idom;
    }
    let bits = dominator_table(cfg);
    let ghost rows = rows_of(bits@);
    let mut v: usize = 0;
    while v < n
        invariant
            v <= n,
            n == cfg.size(),
            n <= i32::MAX,
            rows == rows_of(bits@),
            square(rows, n as nat),
            forall|x: i32, y: i32|
                cfg.is_block(x) && cfg.is_block(y) ==> (#[trigger] bits[x as int][y as int] <==> in_dom(
                    *cfg,
                    y,
                    x,
                )),
            idom.len() == v,
            forall|u: int| 0 <= u < v ==> is_idom(*cfg, u as i32, #[trigger] idom[u]),
        decreases n - v,
    {
        let mut v_idom: Option<i32> = None;
        let vi: i32 = v as i32;
        let mut a: usize = 0;
        while a < n
            invariant
                a <= n,
                v < n,
                vi == v,
                n == cfg.size(),
                n <= i32::MAX,
                rows == rows_of(bits@),
                square(rows, n as nat),
                forall|x: i32, y: i32|
                    cfg.is_block(x) && cfg.is_block(y) ==> (#[trigger] bits[x as int][y as int] <==> in_dom(
                        *cfg,
                        y,
                        x,
                    )),
                match v_idom {
                    Some(c) => 0 <= c < a && immediate(*cfg, c, vi) && forall|b: i32|
                        c < b < a ==> !#[trigger] immediate(*cfg, b, vi),
                    None => forall|b: i32| 0 <= b < a ==> !#[trigger] immediate(*cfg, b, vi),
                },
            decreases n - a,
        {
            assert(rows[v as int] == bits[v as int]@);
            assert(cfg.is_block(v as i32) && cfg.is_block(a as i32));
            let an: i32 = a as i32;
            if a != v && bits[v][a] {
                let mut imm = true;
                let mut d: usize = 0;
                while d < n
                    invariant
                        d <= n,
                        v < n,
                        a < n,
                        vi == v,
                        an == a,
                        n == cfg.size(),
                        n <= i32::MAX,
                        rows == rows_of(bits@),
                        square(rows, n as nat),
                        forall|x: i32, y: i32|
                            cfg.is_block(x) && cfg.is_block(y) ==> (#[trigger] bits[x as int][y as int] <==> in_dom(
                                *cfg,
                                y,
                                x,
                            )),
                        imm == forall|k: i32|
                            0 <= k < d && #[trigger] strictly(*cfg, k, vi) ==> !strictly(
                                *cfg,
                                an,
                                k,
                            ),
                    decreases n - d,
                {
                    assert(rows[v as int] == bits[v as int]@);
                    assert(rows[d as int] == bits[d as int]@);
                    assert(cfg.is_block(d as i32));
                    if d != v && bits[v][d] && a != d && bits[d][a] {
                        assert(strictly(*cfg, d as i32, v as i32) && strictly(*cfg, a as i32, d as i32));
                        imm = false;
                    }
                    d += 1;
                }
                if imm {
                    v_idom = Some(a as i32);
                }
            }
            a += 1;
        }
        idom.push(v_idom);
        v += 1;
    }
    idom
}

/// The immediate dominator of every block.
pub fn find_immediate_doms(cfg: &Cfg) -> (idom: HashMap<i32, Option<i32>>)
    requires
        cfg.wf(),
        cfg.clean_entry(),
    ensures
        idom@.dom() =~= Set::new(|k: i32| cfg.is_block(k)),
        forall|v: i32| cfg.is_block(v) ==> is_idom(*cfg, v, #[trigger] idom@[v]),
{
    let table = immediate_dominators(cfg);
    let mut idom: HashMap<i32, Option<i32>> = HashMap::new();
    let mut v: usize = 0;
    while v < table.len()
        invariant
            v <= table.len(),
            table.len() == cfg.size(),
            cfg.wf(),
            idom@.dom() =~= Set::new(|k: i32| 0 <= k < v),
            forall|u: i32| 0 <= u < v ==> #[trigger] idom@[u] == table[u as int],
        decreases table.len() - v,
    {
        idom.insert(v as i32, table[v]);
        v += 1;
    }
    idom
}

/// Whether `b` is in the dominance frontier of `a`: `a` is in the dominator
/// set of a predecessor of `b`, and is not a strict dominator of `b`.
pub open spec fn in_frontier(cfg: Cfg, a: i32, b: i32) -> bool {
    &&& cfg.is_block(a)
    &&& cfg.is_block(b)
    &&& !strictly(cfg, a, b)
    &&& exists|j: int| 0 <= j < cfg.preds(b).len() && in_dom(cfg, a, #[trigger] cfg.preds(b)[j])
}

/// The dominance frontier of every block, as a table of flags.
pub fn frontier_table(cfg: &Cfg) -> (bits: Vec<Vec<bool>>)
    requires
        cfg.wf(),
        cfg.clean_entry(),
    ensures
        square(rows_of(bits@), cfg.size()),
        forall|a: i32, b: i32|
            cfg.is_block(a) && cfg.is_block(b) ==> (#[trigger] bits[a as int][b as int] <==> in_frontier(
                *cfg,
                a,
                b,
            )),
{
    let n = numbered_len(&cfg.block_map);
    let mut front: Vec<Vec<bool>> = Vec::new();
    if n == 0 {
        assert(rows_of(front@) =~= Seq::<Seq<bool>>::empty());
        return front;
    }
    let bits = dominator_table(cfg);
    let ghost rows = rows_of(bits@);
    let mut a: usize = 0;
    while a < n
        invariant
            a <= n,
            n == cfg.size(),
            n <= i32::MAX,
            cfg.wf(),
            rows == rows_of(bits@),
            square(rows, n as nat),
            forall|x: i32, y: i32|
                cfg.is_block(x) && cfg.is_block(y) ==> (#[trigger] bits[x as int][y as int] <==> in_dom(
                    *cfg,
                    y,
                    x,
                )),
            front.len() == a,
            forall|x: int| 0 <= x < a ==> (#[trigger] front[x]).len() == n,
            forall|x: i32, y: i32|
                0 <= x < a && cfg.is_block(y) ==> (#[trigger] front[x as int][y as int] <==> in_frontier(
                    *cfg,
                    x,
                    y,
                )),
        decreases n - a,
    {
        let mut row: Vec<bool> = Vec::new();
        let mut b: usize = 0;
        while b < n
            invariant
                b <= n,
                a < n,
                n == cfg.size(),
                n <= i32::MAX,
                cfg.wf(),
                rows == rows_of(bits@),
                square(rows, n as nat),
                forall|x: i32, y: i32|
                    cfg.is_block(x) && cfg.is_block(y) ==> (#[trigger] bits[x as int][y as int] <==> in_dom(
                        *cfg,
                        y,
                        x,
                    )),
                row.len() == b,
                forall|y: i32| 0 <= y < b ==> (#[trigger] row[y as int] <==> in_frontier(*cfg, a as i32, y)),
            decreases n - b,
        {
            assert(rows[b as int] == bits[b as int]@);
            assert(cfg.is_block(a as i32) && cfg.is_block(b as i32));
            let mut member = false;
            if !(a != b && bits[b][a]) {
                let empty: Vec<i32> = Vec::new();
                let preds = match cfg.pred.get(&(b as i32)) {
                    Some(l) => l,
                    None => {
                        proof {
                            assert(cfg.pred@.dom().contains(b as i32));
                        }
                        &empty
                    },
                };
                let mut j: usize = 0;
                while j < preds.len()
                    invariant
                        j <= preds.len(),
                        a < n,
                        b < n,
                        n == cfg.size(),
                        cfg.wf(),
                        preds@ == cfg.preds(b as i32),
                        rows == rows_of(bits@),
                        square(rows, n as nat),
                        forall|x: i32, y: i32|
                            cfg.is_block(x) && cfg.is_block(y) ==> (#[trigger] bits[x as int][y as int] <==> in_dom(
                                *cfg,
                                y,
                                x,
                            )),
                        member == exists|k: int|
                            0 <= k < j && in_dom(*cfg, a as i32, #[trigger] cfg.preds(b as i32)[k]),
                    decreases preds.len() - j,
                {
                    let p = preds[j];
                    proof {
                        lemma_pred_is_block(*cfg, b as i32, j as int);
                        assert(rows[p as int] == bits[p as int]@);
                    }
                    if bits[p as usize][a] {
                        member = true;
                    }
                    j += 1;
                }
            }
            row.push(member);
            b += 1;
        }
        front.push(row);
        a += 1;
    }
    proof {
        assert(square(rows_of(front@), n as nat)) by {
            assert forall|v: int| 0 <= v < n implies (#[trigger] rows_of(front@)[v]).len() == n by {
                assert(rows_of(front@)[v] == front[v]@);
            }
        }
    }
    front
}

/// The dominance frontier of every block: the blocks `b` such that the
/// block dominates a predecessor of `b` and does not strictly dominate `b`.
pub fn get_dominance_frontier_num(cfg: &Cfg) -> (frontier: HashMap<i32, HashSet<i32>>)
    requires
        cfg.wf(),
        cfg.clean_entry(),
    ensures
        frontier@.dom() =~= Set::new(|k: i32| cfg.is_block(k)),
        forall|a: i32, b: i32|
            cfg.is_block(a) ==> (#[trigger] frontier@[a]@.contains(b) <==> in_frontier(*cfg, a, b)),
{
    let bits = frontier_table(cfg);
    to_sets(&bits)
}

/// The dominance frontier of every block, by labels.
pub fn get_dominance_frontier(cfg: &Cfg) -> (named: Vec<(String, Vec<String>)>)
    requires
        cfg.wf(),
        cfg.clean_entry(),
    ensures
        named.len() == cfg.size(),
        forall|a: int|
            0 <= a < named.len() ==> (#[trigger] named[a]).0@ == cfg.labels()[a as i32]
                && crate::ir::names(named[a].1@) == member_labels(
                Set::new(|b: i32| in_frontier(*cfg, a as i32, b)),
                cfg.labels(),
                cfg.size(),
            ),
{
    let frontier = get_dominance_frontier_num(cfg);
    let named = convert_doms_to_string(cfg, &frontier);
    proof {
        assert forall|a: int| 0 <= a < named.len() implies crate::ir::names(
            (#[trigger] named[a]).1@,
        ) == member_labels(
            Set::new(|b: i32| in_frontier(*cfg, a as i32, b)),
            cfg.labels(),
            cfg.size(),
        ) by {
            assert(cfg.is_block(a as i32));
            assert(frontier@[a as i32]@ =~= Set::new(|b: i32| in_frontier(*cfg, a as i32, b)));
        }
    }
    named
}


/// A node of the dominator tree: its place in the arena, the label of its
/// block, the place of its parent, and the places of its children.
#[derive(Debug)]
pub struct DomNode {
    pub idx: usize,
    pub label: String,
    pub parent: Option<usize>,
    pub children: Vec<usize>,
}

impl DomNode {
    /// A node without parent and children.
    pub fn new(idx: usize, label: String) -> (node: Self)
        ensures
            node.idx == idx,
            node.label == label,
            node.parent is None,
            node.children@ == Seq::<usize>::empty(),
    {
        Self { idx, label, parent: None, children: Vec::new() }
    }
}

/// The dominator tree: an arena of nodes, and the place of the node of each
/// block number.
#[derive(Debug)]
pub struct DomTree {
    arena: Vec<DomNode>,
    num_to_id: HashMap<i32, usize>,
}

impl Default for DomTree {
    fn default() -> (tree: Self)
        ensures
            tree.nodes().len() == 0,
            tree.index() == Map::<i32, usize>::empty(),
    {
        DomTree { arena: Vec::new(), num_to_id: HashMap::new() }
    }
}

impl DomTree {
    /// The nodes of the arena, in order.
    pub closed spec fn nodes(&self) -> Seq<DomNode> {
        self.arena@
    }

    /// The place in the arena of the node of each block number.
    pub closed spec fn index(&self) -> Map<i32, usize> {
        self.num_to_id@
    }

    /// Whether the block number has a node in the arena.
    pub open spec fn has_node(&self, v: i32) -> bool {
        self.index().contains_key(v) && self.index()[v] < self.nodes().len()
    }

    /// The nodes of the arena, in order.
    pub fn all_nodes(&self) -> (nodes: &Vec<DomNode>)
        ensures
            nodes@ == self.nodes(),
    {
        &self.arena
    }

    /// Adds a node for a block, without parent and children, and returns
    /// its place.
    pub fn new_node(&mut self, label: String, num: i32) -> (idx: usize)
        ensures
            idx == old(self).nodes().len(),
            final(self).nodes().len() == idx + 1,
            final(self).nodes().take(idx as int) == old(self).nodes(),
            final(self).nodes()[idx as int].idx == idx,
            final(self).nodes()[idx as int].label == label,
            final(self).nodes()[idx as int].parent is None,
            final(self).nodes()[idx as int].children@ == Seq::<usize>::empty(),
            final(self).index() == old(self).index().insert(num, idx),
    {
        let idx = self.arena.len();
        self.num_to_id.insert(num, idx);
        self.arena.push(DomNode::new(idx, label));
        assert(self.arena@.take(idx as int) =~= old(self).arena@);
        idx
    }

    /// The node of a block, if it has one.
    pub fn get_node(&self, v: &i32) -> (node: Option<&DomNode>)
        ensures
            node is Some <==> self.has_node(*v),
            node is Some ==> *node->0 == self.nodes()[self.index()[*v] as int],
    {
        match self.num_to_id.get(v) {
            Some(node_id) => {
                if *node_id < self.arena.len() {
                    Some(&self.arena[*node_id])
                } else {
                    None
                }
            },
            None => None,
        }
    }

    fn get_num_id(&self, v: &i32) -> (id: Option<usize>)
        ensures
            id is Some <==> self.index().contains_key(*v),
            id is Some ==> id->0 == self.index()[*v],
    {
        match self.num_to_id.get(v) {
            Some(id) => Some(*id),
            None => None,
        }
    }

    /// Makes the node of `child` a child of the node of `parent`: the
    /// child's parent is set, and the child is added last among the
    /// parent's children. Where either block has no node, nothing changes.
    pub fn add_child(&mut self, parent: &i32, child: &i32)
        ensures
            final(self).index() == old(self).index(),
            final(self).nodes().len() == old(self).nodes().len(),
            !(old(self).has_node(*parent) && old(self).has_node(*child)) ==> final(self).nodes()
                == old(self).nodes(),
            old(self).has_node(*parent) && old(self).has_node(*child) ==> {
                let c = old(self).index()[*child] as int;
                let p = old(self).index()[*parent] as int;
                &&& forall|i: int|
                    0 <= i < old(self).nodes().len() && i != c && i != p ==> final(self).nodes()[i]
                        == old(self).nodes()[i]
                &&& forall|i: int|
                    0 <= i < old(self).nodes().len() ==> (#[trigger] final(self).nodes()[i]).idx
                        == old(self).nodes()[i].idx && final(self).nodes()[i].label
                        == old(self).nodes()[i].label
                &&& final(self).nodes()[c].parent == Some(p as usize)
                &&& c != p ==> final(self).nodes()[c].children == old(self).nodes()[c].children
                &&& c != p ==> final(self).nodes()[p].parent == old(self).nodes()[p].parent
                &&& final(self).nodes()[p].children@ == old(self).nodes()[p].children@.push(
                    c as usize,
                )
            },
    {
        let child_idx = match self.get_num_id(child) {
            Some(i) => i,
            None => {
                return ;
            },
        };
        let parent_idx = match self.get_num_id(parent) {
            Some(i) => i,
            None => {
                return ;
            },
        };
        if child_idx >= self.arena.len() || parent_idx >= self.arena.len() {
            return ;
        }
        self.arena[child_idx].parent = Some(parent_idx);
        self.arena[parent_idx].children.push(child_idx);
    }
}

/// Two answers to the question of the immediate dominator of a block are
/// the same.
pub proof fn lemma_idom_unique(cfg: Cfg, v: i32, r1: Option<i32>, r2: Option<i32>)
    requires
        is_idom(cfg, v, r1),
        is_idom(cfg, v, r2),
    ensures
        r1 == r2,
{
}

/// The entry block has no immediate dominator: its node is the root of the
/// dominator tree.
pub proof fn lemma_entry_is_root(cfg: Cfg)
    requires
        cfg.wf(),
        cfg.size() > 0,
    ensures
        is_idom(cfg, cfg.entry(), None),
{
    lemma_entry_reaches(cfg);
    assert forall|b: i32| !immediate(cfg, b, cfg.entry()) by {
        if strictly(cfg, b, cfg.entry()) {
            let w = seq![cfg.entry()];
            assert(is_walk(cfg, w) && w.last() == cfg.entry());
            assert(w.contains(b));
            let i = choose|i: int| 0 <= i < w.len() && w[i] == b;
            assert(false);
        }
    }
}

/// Every block is in its own dominator set, and the entry block is in the
/// dominator set of every block.
pub proof fn lemma_self_and_entry_dominate(cfg: Cfg, v: i32)
    requires
        cfg.wf(),
        cfg.is_block(v),
    ensures
        in_dom(cfg, v, v),
        in_dom(cfg, cfg.entry(), v),
{
    assert(cfg.is_block(cfg.entries()[0].0));
    assert forall|w: Seq<i32>| is_walk(cfg, w) && w.last() == v implies w.contains(v)
        && w.contains(cfg.entry()) by {
        assert(w[w.len() - 1] == v);
        assert(w[0] == cfg.entry());
    }
}

/// The blocks among the first `k` whose immediate dominator is `v`, by
/// ascending number, as places in the arena.
pub open spec fn kids_of(cfg: Cfg, v: i32, k: nat) -> Seq<usize>
    decreases k,
{
    if k == 0 {
        Seq::empty()
    } else {
        let prev = kids_of(cfg, v, (k - 1) as nat);
        if is_idom(cfg, (k - 1) as i32, Some(v)) {
            prev.push((k - 1) as usize)
        } else {
            prev
        }
    }
}

/// The children of `u` among the first `c + 1` blocks are those among the
/// first `c`, and block `c` if `u` is its immediate dominator.
pub proof fn lemma_kids_step(cfg: Cfg, u: i32, c: nat, r: Option<i32>)
    requires
        c < i32::MAX,
        is_idom(cfg, c as i32, r),
    ensures
        kids_of(cfg, u, c + 1) == if r == Some(u) {
            kids_of(cfg, u, c).push(c as usize)
        } else {
            kids_of(cfg, u, c)
        },
{
    if is_idom(cfg, c as i32, Some(u)) {
        lemma_idom_unique(cfg, c as i32, Some(u), r);
    }
}

/// The parent of a node as a block number.
pub open spec fn parent_num(parent: Option<usize>) -> Option<i32> {
    match parent {
        Some(p) => Some(p as i32),
        None => None,
    }
}

/// Whether the tree is the dominator tree of the graph: the node of block
/// `v` stands at place `v` and bears its label; its parent is its immediate
/// dominator; and its children are the blocks whose immediate dominator it
/// is, by ascending number.
pub open spec fn is_dom_tree(cfg: Cfg, tree: DomTree) -> bool {
    &&& tree.nodes().len() == cfg.size()
    &&& tree.index() =~= Map::new(|k: i32| cfg.is_block(k), |k: i32| k as usize)
    &&& forall|v: int|
        0 <= v < cfg.size() ==> {
            &&& (#[trigger] tree.nodes()[v]).idx == v
            &&& tree.nodes()[v].label@ == cfg.labels()[v as i32]
            &&& is_idom(cfg, v as i32, parent_num(tree.nodes()[v].parent))
            &&& (tree.nodes()[v].parent is Some ==> tree.nodes()[v].parent->0 < cfg.size())
            &&& tree.nodes()[v].children@ == kids_of(cfg, v as i32, cfg.size())
        }
}

/// Builds the dominator tree.
pub fn form_dom_tree(cfg: &Cfg) -> (tree: DomTree)
    requires
        cfg.wf(),
        cfg.clean_entry(),
    ensures
        is_dom_tree(*cfg, tree),
{
    let idom = immediate_dominators(cfg);
    let n = idom.len();
    let mut tree = DomTree::default();
    let mut v: usize = 0;
    while v < n
        invariant
            v <= n,
            n == cfg.size(),
            cfg.wf(),
            tree.nodes().len() == v,
            tree.index() =~= Map::new(|k: i32| 0 <= k < v, |k: i32| k as usize),
            forall|u: int|
                0 <= u < v ==> {
                    &&& (#[trigger] tree.nodes()[u]).idx == u
                    &&& tree.nodes()[u].label@ == cfg.labels()[u as i32]
                    &&& tree.nodes()[u].parent is None
                    &&& tree.nodes()[u].children@ == Seq::<usize>::empty()
                },
        decreases n - v,
    {
        assert(cfg.is_block(v as i32));
        assert(cfg.labels().dom().contains(v as i32));
        let label = match labels_get_by_left(&cfg.name_map, v as i32) {
            Some(l) => l.clone(),
            None => String::new(),
        };
        let ghost before = tree.nodes();
        assert(label@ == cfg.labels()[v as i32]);
        tree.new_node(label, v as i32);
        proof {
            assert forall|u: int| 0 <= u < v + 1 implies {
                &&& (#[trigger] tree.nodes()[u]).idx == u
                &&& tree.nodes()[u].label@ == cfg.labels()[u as i32]
                &&& tree.nodes()[u].parent is None
                &&& tree.nodes()[u].children@ == Seq::<usize>::empty()
            } by {
                if u < v {
                    assert(tree.nodes().take(v as int)[u] == tree.nodes()[u]);
                    assert(before[u].idx == u);
                }
            }
        }
        v += 1;
    }
    let mut c: usize = 0;
    while c < n
        invariant
            c <= n,
            n == cfg.size(),
            n <= i32::MAX,
            cfg.wf(),
            idom.len() == n,
            forall|u: int| 0 <= u < n ==> is_idom(*cfg, u as i32, #[trigger] idom[u]),
            tree.nodes().len() == n,
            tree.index() =~= Map::new(|k: i32| 0 <= k < n, |k: i32| k as usize),
            forall|u: int|
                0 <= u < n ==> {
                    &&& (#[trigger] tree.nodes()[u]).idx == u
                    &&& tree.nodes()[u].label@ == cfg.labels()[u as i32]
                    &&& parent_num(tree.nodes()[u].parent) == if u < c {
                        idom[u]
                    } else {
                        None
                    }
                    &&& (tree.nodes()[u].parent is Some ==> tree.nodes()[u].parent->0 < n)
                    &&& tree.nodes()[u].children@ == kids_of(*cfg, u as i32, c as nat)
                },
        decreases n - c,
    {
        let ghost before = tree.nodes();
        let ci: i32 = c as i32;
        if let Some(p) = idom[c] {
            assert(immediate(*cfg, p, ci));
            assert(cfg.is_block(p));
            assert(tree.has_node(p) && tree.has_node(ci));
            assert(p != ci);
            tree.add_child(&p, &ci);
        }
        proof {
            assert forall|u: int| 0 <= u < n implies {
                &&& (#[trigger] tree.nodes()[u]).idx == u
                &&& tree.nodes()[u].label@ == cfg.labels()[u as i32]
                &&& parent_num(tree.nodes()[u].parent) == if u < c + 1 {
                    idom[u]
                } else {
                    None
                }
                &&& (tree.nodes()[u].parent is Some ==> tree.nodes()[u].parent->0 < n)
                &&& tree.nodes()[u].children@ == kids_of(*cfg, u as i32, (c + 1) as nat)
            } by {
                assert(before[u].idx == u);
                lemma_kids_step(*cfg, u as i32, c as nat, idom[c as int]);
                match idom[c as int] {
                    Some(p) => {
                        if u != c && u != p {
                            assert(tree.nodes()[u] == before[u]);
                        }
                    },
                    None => {},
                }
            }
        }
        c += 1;
    }
    tree
}


/// On a walk that visits `a`, there is a last visit to `a` or `b`.
pub proof fn lemma_last_visit(w: Seq<i32>, a: i32, b: i32, n: int) -> (last: int)
    requires
        0 < n <= w.len(),
        exists|i: int| 0 <= i < n && (w[i] == a || w[i] == b),
    ensures
        0 <= last < n,
        w[last] == a || w[last] == b,
        forall|i: int| last < i < n ==> w[i] != a && w[i] != b,
    decreases n,
{
    if w[n - 1] == a || w[n - 1] == b {
        n - 1
    } else {
        let i = choose|i: int| 0 <= i < n && (w[i] == a || w[i] == b);
        assert(0 <= i < n - 1 && (w[i] == a || w[i] == b));
        lemma_last_visit(w, a, b, n - 1)
    }
}

/// A walk to a block of another walk goes on along the rest of that walk.
pub proof fn lemma_walk_join(cfg: Cfg, p: Seq<i32>, w: Seq<i32>, at: int)
    requires
        is_walk(cfg, p),
        is_walk(cfg, w),
        0 <= at < w.len(),
        p.last() == w[at],
    ensures
        is_walk(cfg, p + w.subrange(at + 1, w.len() as int)),
        (p + w.subrange(at + 1, w.len() as int)).last() == w.last(),
{
    let rest = w.subrange(at + 1, w.len() as int);
    let x = p + rest;
    assert forall|i: int| 0 <= i < x.len() implies cfg.is_block(#[trigger] x[i]) by {
        if i < p.len() {
            assert(x[i] == p[i]);
        } else {
            assert(x[i] == w[at + 1 + (i - p.len())]);
        }
    }
    assert forall|i: int| 0 <= i < x.len() - 1 implies cfg.succs(#[trigger] x[i]).contains(
        x[i + 1],
    ) by {
        if i < p.len() - 1 {
            assert(x[i] == p[i]);
            assert(x[i + 1] == p[i + 1]);
        } else if i == p.len() - 1 {
            assert(x[i] == w[at]);
            assert(x[i + 1] == w[at + 1]);
        } else {
            let k = at + 1 + (i - p.len());
            assert(x[i] == w[k]);
            assert(x[i + 1] == w[k + 1]);
        }
    }
    assert(x[0] == p[0]);
    if rest.len() == 0 {
        assert(x =~= p);
        assert(at == w.len() - 1);
    } else {
        assert(x[x.len() - 1] == w[w.len() - 1]);
    }
}

/// The dominators of a block that the entry reaches form a chain: of two
/// of them, one dominates the other.
pub proof fn lemma_dominators_chain(cfg: Cfg, a: i32, b: i32, v: i32)
    requires
        cfg.wf(),
        reaches(cfg, v),
        in_dom(cfg, a, v),
        in_dom(cfg, b, v),
    ensures
        in_dom(cfg, a, b) || in_dom(cfg, b, a),
{
    if !in_dom(cfg, a, b) && !in_dom(cfg, b, a) {
        let p = choose|p: Seq<i32>| is_walk(cfg, p) && p.last() == b && !p.contains(a);
        let q = choose|q: Seq<i32>| is_walk(cfg, q) && q.last() == a && !q.contains(b);
        let w = choose|w: Seq<i32>| is_walk(cfg, w) && w.last() == v;
        assert(w.contains(a));
        let i = choose|i: int| 0 <= i < w.len() && w[i] == a;
        let last = lemma_last_visit(w, a, b, w.len() as int);
        let rest = w.subrange(last + 1, w.len() as int);
        if w[last] == b {
            lemma_walk_join(cfg, p, w, last);
            let x = p + rest;
            assert(x.contains(a));
            let k = choose|k: int| 0 <= k < x.len() && x[k] == a;
            if k < p.len() {
                assert(p[k] == a);
            } else {
                assert(w[last + 1 + (k - p.len())] == a);
            }
        } else {
            lemma_walk_join(cfg, q, w, last);
            let x = q + rest;
            assert(x.contains(b));
            let k = choose|k: int| 0 <= k < x.len() && x[k] == b;
            if k < q.len() {
                assert(q[k] == b);
            } else {
                assert(w[last + 1 + (k - q.len())] == b);
            }
        }
    }
}

/// A block that the entry reaches has at most one immediate dominator.
pub proof fn lemma_immediate_unique(cfg: Cfg, v: i32, a: i32, b: i32)
    requires
        cfg.wf(),
        reaches(cfg, v),
        immediate(cfg, a, v),
        immediate(cfg, b, v),
    ensures
        a == b,
{
    if a != b {
        lemma_dominators_chain(cfg, a, b, v);
        if in_dom(cfg, a, b) {
            assert(strictly(cfg, b, v));
            assert(strictly(cfg, a, b));
        } else {
            assert(strictly(cfg, a, v));
            assert(strictly(cfg, b, a));
        }
    }
}

/// On a block that the entry reaches, the immediate dominator is the only
/// block that is immediate to it.
pub proof fn lemma_idom_is_the_one(cfg: Cfg, v: i32, r: Option<i32>, a: i32)
    requires
        cfg.wf(),
        reaches(cfg, v),
        is_idom(cfg, v, r),
        immediate(cfg, a, v),
    ensures
        r == Some(a),
{
    match r {
        Some(x) => {
            lemma_immediate_unique(cfg, v, a, x);
        },
        None => {},
    }
}


/// The start of a walk up to one of its blocks is a walk to that block.
pub proof fn lemma_walk_prefix(cfg: Cfg, w: Seq<i32>, at: int)
    requires
        is_walk(cfg, w),
        0 <= at < w.len(),
    ensures
        is_walk(cfg, w.take(at + 1)),
        w.take(at + 1).last() == w[at],
{
    let x = w.take(at + 1);
    assert forall|i: int| 0 <= i < x.len() implies cfg.is_block(#[trigger] x[i]) by {
        assert(x[i] == w[i]);
    }
    assert forall|i: int| 0 <= i < x.len() - 1 implies cfg.succs(#[trigger] x[i]).contains(
        x[i + 1],
    ) by {
        assert(x[i] == w[i]);
        assert(x[i + 1] == w[i + 1]);
    }
    assert(x[0] == w[0]);
}

/// On a walk that visits `d`, there is a first visit to `d`.
pub proof fn lemma_first_visit(w: Seq<i32>, d: i32, n: int) -> (first: int)
    requires
        0 <= n < w.len(),
        w[n] == d,
    ensures
        0 <= first <= n,
        w[first] == d,
        forall|i: int| 0 <= i < first ==> w[i] != d,
    decreases n,
{
    if exists|i: int| 0 <= i < n && w[i] == d {
        let i = choose|i: int| 0 <= i < n && w[i] == d;
        lemma_first_visit(w, d, i)
    } else {
        n
    }
}

/// Two different blocks that the entry reaches do not dominate each other.
pub proof fn lemma_dominance_antisymmetric(cfg: Cfg, a: i32, d: i32)
    requires
        cfg.wf(),
        reaches(cfg, d),
        in_dom(cfg, a, d),
        in_dom(cfg, d, a),
    ensures
        a == d,
{
    if a != d {
        let w = choose|w: Seq<i32>| is_walk(cfg, w) && w.last() == d;
        let first = lemma_first_visit(w, d, w.len() - 1);
        lemma_walk_prefix(cfg, w, first);
        let x = w.take(first + 1);
        assert(x.contains(a));
        let j = choose|j: int| 0 <= j < x.len() && x[j] == a;
        assert(w[j] == a);
        assert(j < first);
        lemma_walk_prefix(cfg, w, j);
        let y = w.take(j + 1);
        assert(reaches(cfg, a));
        assert(y.contains(d));
        let k = choose|k: int| 0 <= k < y.len() && y[k] == d;
        assert(w[k] == d);
    }
}

/// A dominator of a block that the entry reaches is reached by the entry.
pub proof fn lemma_dominator_reached(cfg: Cfg, a: i32, v: i32)
    requires
        cfg.wf(),
        reaches(cfg, v),
        in_dom(cfg, a, v),
    ensures
        reaches(cfg, a),
{
    let w = choose|w: Seq<i32>| is_walk(cfg, w) && w.last() == v;
    assert(w.contains(a));
    let j = choose|j: int| 0 <= j < w.len() && w[j] == a;
    lemma_walk_prefix(cfg, w, j);
}

/// Among the first `k` blocks, if any strictly dominates `v`, one of those
/// that do is dominated by all of them.
pub proof fn lemma_closest(cfg: Cfg, v: i32, k: nat) -> (best: Option<i32>)
    requires
        cfg.wf(),
        reaches(cfg, v),
        k <= cfg.size(),
    ensures
        best is None ==> forall|x: i32| 0 <= x < k ==> !strictly(cfg, x, v),
        best is Some ==> strictly(cfg, best->0, v) && forall|x: i32|
            0 <= x < k && strictly(cfg, x, v) ==> in_dom(cfg, x, best->0),
    decreases k,
{
    if k == 0 {
        None
    } else {
        let prev = lemma_closest(cfg, v, (k - 1) as nat);
        let d = (k - 1) as i32;
        if !strictly(cfg, d, v) {
            prev
        } else {
            lemma_dominator_reached(cfg, d, v);
            lemma_self_and_entry_dominate(cfg, d);
            match prev {
                None => Some(d),
                Some(b) => {
                    lemma_dominators_chain(cfg, d, b, v);
                    lemma_dominator_reached(cfg, b, v);
                    if in_dom(cfg, d, b) {
                        Some(b)
                    } else {
                        assert forall|x: i32|
                            0 <= x < k && strictly(cfg, x, v) implies in_dom(cfg, x, d) by {
                            if x != d {
                                assert(in_dom(cfg, x, b));
                                lemma_dominance_transitive(cfg, x, b, d);
                            }
                        }
                        Some(d)
                    }
                },
            }
        }
    }
}

/// Dominance is transitive.
pub proof fn lemma_dominance_transitive(cfg: Cfg, a: i32, b: i32, c: i32)
    requires
        cfg.wf(),
        reaches(cfg, c),
        in_dom(cfg, a, b),
        in_dom(cfg, b, c),
    ensures
        in_dom(cfg, a, c),
{
    lemma_dominator_reached(cfg, b, c);
    assert forall|w: Seq<i32>| is_walk(cfg, w) && w.last() == c implies w.contains(a) by {
        assert(w.contains(b));
        let j = choose|j: int| 0 <= j < w.len() && w[j] == b;
        lemma_walk_prefix(cfg, w, j);
        let x = w.take(j + 1);
        assert(x.contains(a));
        let i = choose|i: int| 0 <= i < x.len() && x[i] == a;
        assert(w[i] == a);
    }
}

/// Every block that the entry reaches, but the entry itself, has an
/// immediate dominator.
pub proof fn lemma_has_immediate(cfg: Cfg, v: i32) -> (a: i32)
    requires
        cfg.wf(),
        reaches(cfg, v),
        v != cfg.entry(),
    ensures
        immediate(cfg, a, v),
{
    let w = choose|w: Seq<i32>| is_walk(cfg, w) && w.last() == v;
    assert(cfg.is_block(w[w.len() - 1]));
    assert(cfg.is_block(w[0]));
    lemma_self_and_entry_dominate(cfg, v);
    let best = lemma_closest(cfg, v, cfg.size());
    assert(strictly(cfg, cfg.entry(), v));
    let a = best->0;
    assert forall|d: i32| #[trigger] strictly(cfg, d, v) implies !strictly(cfg, a, d) by {
        if strictly(cfg, a, d) {
            lemma_dominator_reached(cfg, d, v);
            assert(in_dom(cfg, d, a));
            lemma_dominance_antisymmetric(cfg, a, d);
        }
    }
    a
}

/// In the dominator tree, every block that the entry reaches, but the entry
/// itself, has a parent: the one block that is immediate to it.
pub proof fn lemma_tree_parent(cfg: Cfg, tree: DomTree, v: i32)
    requires
        cfg.wf(),
        is_dom_tree(cfg, tree),
        reaches(cfg, v),
        v != cfg.entry(),
    ensures
        tree.nodes()[v as int].parent is Some,
        immediate(cfg, tree.nodes()[v as int].parent->0 as i32, v),
        forall|a: i32| immediate(cfg, a, v) ==> a == tree.nodes()[v as int].parent->0,
{
    let a = lemma_has_immediate(cfg, v);
    let w = choose|w: Seq<i32>| is_walk(cfg, w) && w.last() == v;
    assert(cfg.is_block(w[w.len() - 1]));
    let parent = parent_num(tree.nodes()[v as int].parent);
    assert(is_idom(cfg, v, parent));
    lemma_idom_is_the_one(cfg, v, parent, a);
    assert forall|b: i32| immediate(cfg, b, v) implies b == tree.nodes()[v as int].parent->0 by {
        lemma_immediate_unique(cfg, v, a, b);
    }
}

} // verus!
