//! Validation of dominator sets against the simple paths of the graph.
use crate::cfg::Cfg;
use crate::dominators::{in_dom, is_walk, lemma_succ_is_block};
use crate::ordered::{numbered_get_index, numbered_len};
use std::collections::{HashMap, HashSet};
use vstd::prelude::*;

verus! {

broadcast use vstd::std_specs::hash::group_hash_axioms;

/// Whether no block occurs twice.
pub open spec fn is_simple(w: Seq<i32>) -> bool {
    forall|i: int, j: int| 0 <= i < j < w.len() ==> w[i] != w[j]
}

/// Whether `q` continues the path `prefix` along edges of the graph,
/// through blocks, without visiting a block twice.
pub open spec fn continues(cfg: Cfg, prefix: Seq<i32>, q: Seq<i32>) -> bool {
    &&& prefix.len() > 0
    &&& q.len() >= prefix.len()
    &&& q.take(prefix.len() as int) == prefix
    &&& is_simple(q)
    &&& forall|i: int| 0 <= i < q.len() ==> cfg.is_block(#[trigger] q[i])
    &&& forall|i: int|
        prefix.len() - 1 <= i < q.len() - 1 ==> cfg.succs(#[trigger] q[i]).contains(q[i + 1])
}

/// Whether `q` is a simple path of the graph from `start` to `end`.
pub open spec fn is_simple_path(cfg: Cfg, start: i32, end: i32, q: Seq<i32>) -> bool {
    continues(cfg, seq![start], q) && q.last() == end
}

/// Whether `a` lies on every simple path from `start` to `b`.
pub open spec fn on_all_paths(cfg: Cfg, start: i32, a: i32, b: i32) -> bool {
    forall|q: Seq<i32>| is_simple_path(cfg, start, b, q) ==> q.contains(a)
}

/// A simple sequence of blocks is no longer than the number of blocks.
pub proof fn lemma_simple_len(cfg: Cfg, w: Seq<i32>)
    requires
        is_simple(w),
        forall|i: int| 0 <= i < w.len() ==> cfg.is_block(#[trigger] w[i]),
    ensures
        w.len() <= cfg.size(),
{
    let ints = w.map_values(|x: i32| x as int);
    assert(ints.no_duplicates()) by {
        assert forall|i: int, j: int| 0 <= i < ints.len() && 0 <= j < ints.len() && i != j implies ints[i]
            != ints[j] by {
            if i < j {
                assert(w[i] != w[j]);
            } else {
                assert(w[j] != w[i]);
            }
        }
    }
    ints.unique_seq_to_set();
    let range = vstd::set_lib::set_int_range(0, cfg.size() as int);
    vstd::set_lib::lemma_int_range(0, cfg.size() as int);
    assert(ints.to_set().subset_of(range)) by {
        assert forall|x: int| ints.to_set().contains(x) implies range.contains(x) by {
            let i = choose|i: int| 0 <= i < ints.len() && ints[i] == x;
            assert(cfg.is_block(w[i]));
        }
    }
    vstd::set_lib::lemma_len_subset(ints.to_set(), range);
}

/// Whether a list holds a block number.
pub fn holds(list: &Vec<i32>, x: i32) -> (r: bool)
    ensures
        r == list@.contains(x),
{
    let mut i: usize = 0;
    while i < list.len()
        invariant
            i <= list.len(),
            forall|j: int| 0 <= j < i ==> list[j] != x,
        decreases list.len() - i,
    {
        if list[i] == x {
            return true;
        }
        i += 1;
    }
    false
}

/// A path that continues a longer prefix continues the shorter one, and
/// goes on with the step that the longer prefix takes.
pub proof fn lemma_continues_shorter(cfg: Cfg, prefix: Seq<i32>, s: i32, q: Seq<i32>)
    requires
        prefix.len() > 0,
        continues(cfg, prefix.push(s), q),
        cfg.succs(prefix.last()).contains(s),
    ensures
        continues(cfg, prefix, q),
        q.len() > prefix.len(),
        q[prefix.len() as int] == s,
{
    let longer = prefix.push(s);
    let n = prefix.len() as int;
    assert forall|i: int| 0 <= i <= n implies q[i] == longer[i] by {
        assert(q.take(n + 1)[i] == q[i]);
    }
    assert(q.take(n) =~= prefix);
    assert forall|i: int| n - 1 <= i < q.len() - 1 implies cfg.succs(#[trigger] q[i]).contains(
        q[i + 1],
    ) by {
        if i == n - 1 {
            assert(q[i] == longer[i]);
            assert(q[i + 1] == longer[i + 1]);
        }
    }
}

/// A path that continues a prefix and is longer continues the prefix with
/// its next step, which is an edge to a block not on the prefix.
pub proof fn lemma_continues_longer(cfg: Cfg, prefix: Seq<i32>, q: Seq<i32>)
    requires
        continues(cfg, prefix, q),
        q.len() > prefix.len(),
    ensures
        continues(cfg, prefix.push(q[prefix.len() as int]), q),
        !prefix.contains(q[prefix.len() as int]),
        cfg.succs(prefix.last()).contains(q[prefix.len() as int]),
{
    let n = prefix.len() as int;
    let s = q[n];
    assert forall|i: int| 0 <= i < n implies q[i] == prefix[i] by {
        assert(q.take(n)[i] == q[i]);
    }
    assert(q.take(n + 1) =~= prefix.push(s));
    if prefix.contains(s) {
        let i = choose|i: int| 0 <= i < n && prefix[i] == s;
        assert(q[i] != q[n]);
    }
    assert(cfg.succs(q[n - 1]).contains(q[n - 1 + 1]));
}

/// A path that continues a prefix and is no longer is the prefix.
pub proof fn lemma_continues_same(cfg: Cfg, prefix: Seq<i32>, q: Seq<i32>)
    requires
        continues(cfg, prefix, q),
        q.len() <= prefix.len(),
    ensures
        q == prefix,
{
    assert(q.take(prefix.len() as int) =~= q);
}

/// A simple path of blocks continues itself.
pub proof fn lemma_continues_self(cfg: Cfg, prefix: Seq<i32>)
    requires
        prefix.len() > 0,
        is_simple(prefix),
        forall|i: int| 0 <= i < prefix.len() ==> cfg.is_block(#[trigger] prefix[i]),
    ensures
        continues(cfg, prefix, prefix),
{
    assert(prefix.take(prefix.len() as int) =~= prefix);
}

/// Whether `q` continues the prefix to `node` with a next step that is one
/// of the first `j` of the given steps.
pub open spec fn goes_via(
    cfg: Cfg,
    prefix: Seq<i32>,
    node: i32,
    steps: Seq<i32>,
    j: int,
    q: Seq<i32>,
) -> bool {
    &&& continues(cfg, prefix, q)
    &&& q.last() == node
    &&& q.len() > prefix.len()
    &&& exists|k: int| 0 <= k < j && #[trigger] steps[k] == q[prefix.len() as int]
}

/// All simple paths that continue `path` through `entry_node` and end at
/// `node`.
pub fn get_paths_to_node(cfg: &Cfg, entry_node: i32, node: i32, path: &Vec<i32>) -> (paths: Vec<
    Vec<i32>,
>)
    requires
        cfg.wf(),
        cfg.is_block(entry_node),
        is_simple(path@.push(entry_node)),
        forall|i: int| 0 <= i < path.len() ==> cfg.is_block(#[trigger] path[i]),
    ensures
        forall|q: Seq<i32>|
            #[trigger] crate::cfg::id_lists(paths@).contains(q) <==> (continues(
                *cfg,
                path@.push(entry_node),
                q,
            ) && q.last() == node),
    decreases cfg.size() - path.len(),
{
    let mut new_path = crate::cfg::copy_ids(path);
    new_path.push(entry_node);
    let ghost prefix = new_path@;
    proof {
        assert forall|i: int| 0 <= i < prefix.len() implies cfg.is_block(#[trigger] prefix[i]) by {
            if i < path.len() {
                assert(prefix[i] == path[i]);
            }
        }
        lemma_simple_len(*cfg, prefix);
        lemma_continues_self(*cfg, prefix);
    }
    let mut paths: Vec<Vec<i32>> = Vec::new();
    if entry_node == node {
        paths.push(new_path);
        proof {
            let lists = crate::cfg::id_lists(paths@);
            assert(lists[0] == prefix);
            assert forall|q: Seq<i32>| #[trigger] lists.contains(q) <==> (continues(*cfg, prefix, q)
                && q.last() == node) by {
                if lists.contains(q) {
                    let i = choose|i: int| 0 <= i < lists.len() && lists[i] == q;
                    assert(q == prefix);
                }
                if continues(*cfg, prefix, q) && q.last() == node {
                    if q.len() > prefix.len() {
                        lemma_continues_longer(*cfg, prefix, q);
                        assert(q.take(prefix.len() as int)[prefix.len() - 1] == q[prefix.len()
                            - 1]);
                        assert(q[prefix.len() - 1] != q[q.len() - 1]);
                    }
                    lemma_continues_same(*cfg, prefix, q);
                    assert(lists[0] == q);
                }
            }
        }
        return paths;
    }
    let empty: Vec<i32> = Vec::new();
    assert(cfg.succ@.dom().contains(entry_node));
    let succ = match cfg.succ.get(&entry_node) {
        Some(l) => l,
        None => &empty,
    };
    let mut j: usize = 0;
    while j < succ.len()
        invariant
            j <= succ.len(),
            cfg.wf(),
            cfg.is_block(entry_node),
            entry_node != node,
            succ@ == cfg.succs(entry_node),
            prefix == new_path@,
            prefix == path@.push(entry_node),
            prefix.len() <= cfg.size(),
            is_simple(prefix),
            forall|i: int| 0 <= i < prefix.len() ==> cfg.is_block(#[trigger] prefix[i]),
            forall|q: Seq<i32>|
                #[trigger] crate::cfg::id_lists(paths@).contains(q) <==> goes_via(
                    *cfg,
                    prefix,
                    node,
                    succ@,
                    j as int,
                    q,
                ),
        decreases succ.len() - j,
    {
        let s = succ[j];
        let ghost before = crate::cfg::id_lists(paths@);
        proof {
            lemma_succ_is_block(*cfg, entry_node, j as int);
        }
        let mut more: Vec<Vec<i32>> = Vec::new();
        let on_path = holds(&new_path, s);
        if !on_path {
            proof {
                assert(is_simple(prefix.push(s))) by {
                    assert forall|a: int, b: int| 0 <= a < b < prefix.push(s).len() implies prefix.push(
                        s,
                    )[a] != prefix.push(s)[b] by {
                        if b < prefix.len() {
                            assert(prefix[a] != prefix[b]);
                        } else {
                            assert(prefix[a] != s);
                        }
                    }
                }
            }
            more = get_paths_to_node(cfg, s, node, &new_path);
        } else {
            assert(crate::cfg::id_lists(more@) =~= Seq::<Seq<i32>>::empty());
        }
        let ghost extra = crate::cfg::id_lists(more@);
        proof {
            assert(succ@[j as int] == s);
            assert(cfg.succs(prefix.last()).contains(s));
            assert forall|q: Seq<i32>| #[trigger] extra.contains(q) <==> (continues(*cfg, prefix, q)
                && q.last() == node && q.len() > prefix.len() && q[prefix.len() as int] == s) by {
                if extra.contains(q) {
                    let i = choose|i: int| 0 <= i < extra.len() && extra[i] == q;
                    assert(!on_path);
                    assert(crate::cfg::id_lists(more@).contains(q));
                    assert(continues(*cfg, new_path@.push(s), q));
                    lemma_continues_shorter(*cfg, prefix, s, q);
                }
                if continues(*cfg, prefix, q) && q.last() == node && q.len() > prefix.len()
                    && q[prefix.len() as int] == s {
                    lemma_continues_longer(*cfg, prefix, q);
                    assert(!on_path);
                    assert(continues(*cfg, new_path@.push(s), q));
                    assert(crate::cfg::id_lists(more@).contains(q));
                }
            }
        }
        let mut k: usize = 0;
        while k < more.len()
            invariant
                k <= more.len(),
                extra == crate::cfg::id_lists(more@),
                crate::cfg::id_lists(paths@) == before + extra.take(k as int),
            decreases more.len() - k,
        {
            let ghost cur = crate::cfg::id_lists(paths@);
            paths.push(crate::cfg::copy_ids(&more[k]));
            assert(crate::cfg::id_lists(paths@) =~= cur.push(extra[k as int]));
            assert(extra.take(k + 1) =~= extra.take(k as int).push(extra[k as int]));
            k += 1;
        }
        proof {
            assert(extra.take(k as int) =~= extra);
            let now = crate::cfg::id_lists(paths@);
            assert forall|q: Seq<i32>| #[trigger] now.contains(q) <==> goes_via(
                *cfg,
                prefix,
                node,
                succ@,
                j + 1,
                q,
            ) by {
                if now.contains(q) {
                    let i = choose|i: int| 0 <= i < now.len() && now[i] == q;
                    if i < before.len() {
                        assert(before[i] == q);
                        assert(before.contains(q));
                        assert(goes_via(*cfg, prefix, node, succ@, j as int, q));
                        let x = choose|x: int|
                            0 <= x < j && #[trigger] succ@[x] == q[prefix.len() as int];
                        assert(0 <= x < j + 1 && succ@[x] == q[prefix.len() as int]);
                    } else {
                        assert(extra[i - before.len()] == q);
                        assert(extra.contains(q));
                        assert(0 <= j < j + 1 && succ@[j as int] == q[prefix.len() as int]);
                    }
                }
                if goes_via(*cfg, prefix, node, succ@, j + 1, q) {
                    let x = choose|x: int|
                        0 <= x < j + 1 && #[trigger] succ@[x] == q[prefix.len() as int];
                    if x < j {
                        assert(goes_via(*cfg, prefix, node, succ@, j as int, q));
                        assert(before.contains(q));
                        let i = choose|i: int| 0 <= i < before.len() && before[i] == q;
                        assert(now[i] == q);
                    } else {
                        assert(extra.contains(q));
                        let i = choose|i: int| 0 <= i < extra.len() && extra[i] == q;
                        assert(now[before.len() + i] == q);
                    }
                }
            }
        }
        j += 1;
    }
    proof {
        let now = crate::cfg::id_lists(paths@);
        assert forall|q: Seq<i32>| #[trigger] now.contains(q) <==> (continues(*cfg, prefix, q)
            && q.last() == node) by {
            if now.contains(q) {
                assert(goes_via(*cfg, prefix, node, succ@, succ.len() as int, q));
            }
            if continues(*cfg, prefix, q) && q.last() == node {
                if q.len() <= prefix.len() {
                    lemma_continues_same(*cfg, prefix, q);
                }
                lemma_continues_longer(*cfg, prefix, q);
                let x = choose|x: int| 0 <= x < succ@.len() && succ@[x] == q[prefix.len() as int];
                assert(0 <= x < succ.len() && succ@[x] == q[prefix.len() as int]);
                assert(goes_via(*cfg, prefix, node, succ@, succ.len() as int, q));
            }
        }
    }
    paths
}

/// Whether `node_a` lies on every simple path from `entry_node` to
/// `node_b`.
pub fn dominates(cfg: &Cfg, entry_node: i32, node_a: i32, node_b: i32) -> (r: bool)
    requires
        cfg.wf(),
        cfg.is_block(entry_node),
    ensures
        r == on_all_paths(*cfg, entry_node, node_a, node_b),
{
    let empty: Vec<i32> = Vec::new();
    assert(empty@.push(entry_node) =~= seq![entry_node]);
    let paths = get_paths_to_node(cfg, entry_node, node_b, &empty);
    let ghost lists = crate::cfg::id_lists(paths@);
    proof {
        assert forall|q: Seq<i32>| #[trigger] lists.contains(q) <==> (continues(
            *cfg,
            seq![entry_node],
            q,
        ) && q.last() == node_b) by {
            assert(crate::cfg::id_lists(paths@).contains(q) <==> (continues(
                *cfg,
                empty@.push(entry_node),
                q,
            ) && q.last() == node_b));
        }
    }
    let mut i: usize = 0;
    while i < paths.len()
        invariant
            i <= paths.len(),
            lists == crate::cfg::id_lists(paths@),
            forall|q: Seq<i32>|
                #[trigger] lists.contains(q) <==> (continues(*cfg, seq![entry_node], q)
                    && q.last() == node_b),
            forall|k: int| 0 <= k < i ==> (#[trigger] lists[k]).contains(node_a),
        decreases paths.len() - i,
    {
        assert(lists[i as int] == paths[i as int]@);
        if !holds(&paths[i], node_a) {
            proof {
                let q = lists[i as int];
                assert(lists.contains(q));
                assert(is_simple_path(*cfg, entry_node, node_b, q));
                assert(!q.contains(node_a));
            }
            return false;
        }
        i += 1;
    }
    proof {
        assert forall|q: Seq<i32>| is_simple_path(*cfg, entry_node, node_b, q) implies q.contains(
            node_a,
        ) by {
            assert(lists.contains(q));
            let k = choose|k: int| 0 <= k < lists.len() && lists[k] == q;
            assert(lists[k].contains(node_a));
        }
    }
    true
}

/// Whether the sets are valid: every member of the set of a block
/// lies on every simple path from the entry to the block.
pub open spec fn is_valid(cfg: Cfg, dom: Map<i32, HashSet<i32>>) -> bool {
    forall|v: i32, d: i32|
        cfg.is_block(v) && cfg.is_block(d) && dom.contains_key(v) && #[trigger] dom[v]@.contains(d)
            ==> on_all_paths(cfg, cfg.entry(), d, v)
}

/// Validates dominator sets against the simple paths of the graph.
pub fn validate_dominators(cfg: &Cfg, dom: &HashMap<i32, HashSet<i32>>) -> (r: bool)
    requires
        cfg.wf(),
    ensures
        r == is_valid(*cfg, dom@),
{
    let n = numbered_len(&cfg.block_map);
    if n == 0 {
        return true;
    }
    let (entry_node, _) = numbered_get_index(&cfg.block_map, 0);
    assert(cfg.is_block(cfg.entries()[0].0));
    let mut v: usize = 0;
    while v < n
        invariant
            v <= n,
            n == cfg.size(),
            n <= i32::MAX,
            cfg.wf(),
            entry_node == cfg.entry(),
            cfg.is_block(entry_node),
            forall|x: i32, d: i32|
                0 <= x < v && cfg.is_block(d) && dom@.contains_key(x) && #[trigger] dom@[x]@.contains(
                    d,
                ) ==> on_all_paths(*cfg, cfg.entry(), d, x),
        decreases n - v,
    {
        if let Some(doms) = dom.get(&(v as i32)) {
            let mut d: usize = 0;
            while d < n
                invariant
                    d <= n,
                    v < n,
                    n == cfg.size(),
                    n <= i32::MAX,
                    cfg.wf(),
                    entry_node == cfg.entry(),
                    cfg.is_block(entry_node),
                    dom@.contains_key(v as i32),
                    *doms == dom@[v as i32],
                    forall|y: i32|
                        0 <= y < d && doms@.contains(y) ==> #[trigger] on_all_paths(
                            *cfg,
                            cfg.entry(),
                            y,
                            v as i32,
                        ),
                decreases n - d,
            {
                if doms.contains(&(d as i32)) {
                    if !dominates(cfg, entry_node, d as i32, v as i32) {
                        assert(cfg.is_block(v as i32) && cfg.is_block(d as i32));
                        assert(dom@[v as i32]@.contains(d as i32));
                        return false;
                    }
                }
                d += 1;
            }
        }
        v += 1;
    }
    true
}

/// A simple path from the entry is a walk.
pub proof fn lemma_simple_path_is_walk(cfg: Cfg, b: i32, q: Seq<i32>)
    requires
        is_simple_path(cfg, cfg.entry(), b, q),
    ensures
        is_walk(cfg, q),
{
    assert(q.take(1)[0] == q[0]);
}

/// The dominator sets are valid: a block in the dominator set of a
/// block lies on every simple path from the entry to it.
pub proof fn lemma_dominators_valid(cfg: Cfg, dom: Map<i32, HashSet<i32>>)
    requires
        forall|v: i32, d: i32|
            cfg.is_block(v) && dom.contains_key(v) && #[trigger] dom[v]@.contains(d) ==> in_dom(
                cfg,
                d,
                v,
            ),
    ensures
        is_valid(cfg, dom),
{
    assert forall|v: i32, d: i32|
        cfg.is_block(v) && cfg.is_block(d) && dom.contains_key(v) && #[trigger] dom[v]@.contains(
            d,
        ) implies on_all_paths(cfg, cfg.entry(), d, v) by {
        assert forall|q: Seq<i32>| is_simple_path(cfg, cfg.entry(), v, q) implies q.contains(d) by {
            lemma_simple_path_is_walk(cfg, v, q);
            assert(in_dom(cfg, d, v));
        }
    }
}

} // verus!
