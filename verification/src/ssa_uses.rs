//! A law of the conversion into static single assignment form: every use
//! of a name goes by a definition in a block that dominates the use.
use crate::cfg::Cfg;
use crate::ir::CodeView;
use crate::df::{args_of, dest_of};
use crate::dominators::{
    immediate, in_dom, lemma_dominance_transitive, lemma_self_and_entry_dominate, reaches,
};
use crate::ssa::{
    bodies_of, child_frames, count_of, enters, fill_list, fill_phis, finish, kid_nums, kid_table,
    lemma_visit_counts, param_stacks, placed_phis, rename_items, rename_phis, rename_step, renamed,
    start_state, top_of, unvisited, versioned, FrameView, PhiView, RenameState,
};
use crate::ssa_laws::{
    arg_used, grown, items_used, lemma_fill_keeps, lemma_finish_grown, lemma_items_named,
    lemma_items_unsaturated, lemma_items_used, lemma_made_grown, lemma_phis_named, lemma_phis_used,
    lemma_step_grown, lemma_step_named, lemma_unsaturated_before, made, named_before, named_by_phi,
    names_differ, names_made, shaped, stacks_hold, unsaturated,
};
use crate::bits::lemma_count_bound;
use vstd::prelude::*;
use vstd::string::*;

verus! {

/// Whether the name is the destination of a definition in the renamed
/// block `d`.
pub open spec fn defined_in(st: RenameState, d: int, x: Seq<char>) -> bool {
    &&& 0 <= d < st.visited.len() && d < st.bodies.len() && d < st.phis.len()
    &&& st.visited[d]
    &&& (named_before(st.bodies[d], st.bodies[d].len() as int, x) || named_by_phi(st.phis[d], x))
}

/// Whether the name was made by now, or is never made.
pub open spec fn known(fin: Map<Seq<char>, u64>, counters: Map<Seq<char>, u64>, x: Seq<char>) -> bool {
    made(counters, x) || !made(fin, x)
}

/// Whether every definition of the name is in a block that dominates `c`.
pub open spec fn defs_dominate(cfg: Cfg, st: RenameState, x: Seq<char>, c: int) -> bool {
    forall|d: int| #[trigger] defined_in(st, d, x) ==> in_dom(cfg, d as i32, c as i32)
}

/// Whether the name can be used in block `c`: it is known, and its
/// definitions are in blocks that dominate `c`.
pub open spec fn usable(
    cfg: Cfg,
    st: RenameState,
    fin: Map<Seq<char>, u64>,
    x: Seq<char>,
    c: int,
) -> bool {
    known(fin, st.counters, x) && defs_dominate(cfg, st, x, c)
}

/// Whether every name on the stacks can be used in block `c`.
pub open spec fn stacks_usable(
    cfg: Cfg,
    st: RenameState,
    fin: Map<Seq<char>, u64>,
    stacks: Map<Seq<char>, Seq<Seq<char>>>,
    c: int,
) -> bool {
    forall|v: Seq<char>, k: int|
        stacks.contains_key(v) && 0 <= k < stacks[v].len() ==> usable(
            cfg,
            st,
            fin,
            #[trigger] stacks[v][k],
            c,
        )
}

/// Whether argument `a` of item `i` of the renamed block `b` is used well:
/// the name is known, a definition of it in another block is in a block
/// that dominates `b`, and a definition of it in `b` is a phi node or an
/// earlier item.
pub open spec fn use_ok(
    cfg: Cfg,
    st: RenameState,
    fin: Map<Seq<char>, u64>,
    b: int,
    i: int,
    a: int,
) -> bool {
    let x = args_of(st.bodies[b][i])[a];
    &&& known(fin, st.counters, x)
    &&& forall|d: int| #[trigger]
        defined_in(st, d, x) ==> if d == b {
            named_by_phi(st.phis[b], x) || named_before(st.bodies[b], i, x)
        } else {
            in_dom(cfg, d as i32, b as i32)
        }
}

/// Whether the arguments of the items of all renamed blocks are used well.
pub open spec fn uses_ok(cfg: Cfg, st: RenameState, fin: Map<Seq<char>, u64>) -> bool {
    forall|b: int, i: int, a: int|
        0 <= b < st.bodies.len() && st.visited[b] && 0 <= i < st.bodies[b].len() && 0 <= a
            < args_of(st.bodies[b][i]).len() ==> #[trigger] use_ok(cfg, st, fin, b, i, a)
}

/// Whether argument `k` of phi node `i` of block `s` is used well: it comes
/// with the number of a block, and it can be used in that block.
pub open spec fn phi_use_ok(
    cfg: Cfg,
    st: RenameState,
    fin: Map<Seq<char>, u64>,
    s: int,
    i: int,
    k: int,
) -> bool {
    let p = st.phis[s][i];
    &&& k < p.labels.len()
    &&& 0 <= p.labels[k] < st.bodies.len()
    &&& usable(cfg, st, fin, p.vars[k], p.labels[k] as int)
}

/// Whether the arguments of all phi nodes are used well.
pub open spec fn phi_uses_ok(cfg: Cfg, st: RenameState, fin: Map<Seq<char>, u64>) -> bool {
    forall|s: int, i: int, k: int|
        0 <= s < st.phis.len() && 0 <= i < st.phis[s].len() && 0 <= k < st.phis[s][i].vars.len()
            ==> #[trigger] phi_use_ok(cfg, st, fin, s, i, k)
}

/// Whether the arguments of the items of the blocks not renamed yet are
/// names that are never made.
pub open spec fn rest_foreign(st: RenameState, fin: Map<Seq<char>, u64>) -> bool {
    forall|b: int, i: int, a: int|
        0 <= b < st.bodies.len() && !st.visited[b] && 0 <= i < st.bodies[b].len() && 0 <= a
            < args_of(st.bodies[b][i]).len() ==> !made(fin, #[trigger] args_of(st.bodies[b][i])[a])
}

/// Whether the tasks can be done with the stacks: every block that a task
/// asks to rename finds stacks whose names it can use; and a task to put
/// stacks back leaves the tasks before it with those stacks.
pub open spec fn work_usable(
    cfg: Cfg,
    st: RenameState,
    fin: Map<Seq<char>, u64>,
    work: Seq<FrameView>,
    stacks: Map<Seq<char>, Seq<Seq<char>>>,
) -> bool
    decreases work.len(),
{
    if work.len() == 0 {
        true
    } else {
        match work.last() {
            FrameView::Visit(c) => work_usable(cfg, st, fin, work.drop_last(), stacks) && (0 <= c
                < st.visited.len() && !st.visited[c as int] ==> stacks_usable(
                cfg,
                st,
                fin,
                stacks,
                c as int,
            )),
            FrameView::Restore(s) => work_usable(cfg, st, fin, work.drop_last(), s),
        }
    }
}

/// Whether the state `next` is the state `st` with more definitions, all
/// of them under names made since.
pub open spec fn extends(st: RenameState, next: RenameState, fin: Map<Seq<char>, u64>) -> bool {
    &&& grown(st.counters, next.counters)
    &&& grown(next.counters, fin)
    &&& st.visited.len() == next.visited.len()
    &&& st.bodies.len() == next.bodies.len()
    &&& forall|b: int| 0 <= b < st.visited.len() && st.visited[b] ==> next.visited[b]
    &&& forall|d: int, x: Seq<char>| #[trigger]
        defined_in(next, d, x) ==> defined_in(st, d, x) || (made(next.counters, x) && !made(
            st.counters,
            x,
        ))
    &&& forall|d: int, x: Seq<char>| #[trigger] defined_in(st, d, x) ==> defined_in(next, d, x)
}

/// A name that can be used in a block can still be used there when the
/// state has more definitions.
pub proof fn lemma_usable_stable(
    cfg: Cfg,
    st: RenameState,
    next: RenameState,
    fin: Map<Seq<char>, u64>,
    x: Seq<char>,
    c: int,
)
    requires
        extends(st, next, fin),
        usable(cfg, st, fin, x, c),
    ensures
        usable(cfg, next, fin, x, c),
{
    if made(st.counters, x) {
        lemma_made_grown(st.counters, next.counters, x);
    }
    assert forall|d: int| #[trigger] defined_in(next, d, x) implies in_dom(cfg, d as i32, c as i32) by {
        if !defined_in(st, d, x) {
            assert(made(next.counters, x) && !made(st.counters, x));
            lemma_made_grown(next.counters, fin, x);
        }
    }
}

/// Tasks that can be done can still be done when the state has more
/// definitions.
pub proof fn lemma_work_stable(
    cfg: Cfg,
    st: RenameState,
    next: RenameState,
    fin: Map<Seq<char>, u64>,
    work: Seq<FrameView>,
    stacks: Map<Seq<char>, Seq<Seq<char>>>,
)
    requires
        extends(st, next, fin),
        work_usable(cfg, st, fin, work, stacks),
    ensures
        work_usable(cfg, next, fin, work, stacks),
    decreases work.len(),
{
    if work.len() > 0 {
        match work.last() {
            FrameView::Visit(c) => {
                lemma_work_stable(cfg, st, next, fin, work.drop_last(), stacks);
                if 0 <= c < next.visited.len() && !next.visited[c as int] {
                    assert(!st.visited[c as int]);
                    assert forall|v: Seq<char>, k: int|
                        stacks.contains_key(v) && 0 <= k < stacks[v].len() implies usable(
                        cfg,
                        next,
                        fin,
                        #[trigger] stacks[v][k],
                        c as int,
                    ) by {
                        lemma_usable_stable(cfg, st, next, fin, stacks[v][k], c as int);
                    }
                }
            },
            FrameView::Restore(s) => {
                lemma_work_stable(cfg, st, next, fin, work.drop_last(), s);
            },
        }
    }
}

/// Two definitions of a name in renamed blocks are in the same block.
pub proof fn lemma_def_unique(st: RenameState, d1: int, d2: int, x: Seq<char>)
    requires
        names_differ(st),
        defined_in(st, d1, x),
        defined_in(st, d2, x),
    ensures
        d1 == d2,
{
    if d1 != d2 {
        if named_before(st.bodies[d1], st.bodies[d1].len() as int, x) {
            let j1 = choose|j: int|
                0 <= j < st.bodies[d1].len() && j < st.bodies[d1].len() && dest_of(
                    #[trigger] st.bodies[d1][j],
                ) == Some(x);
            if named_before(st.bodies[d2], st.bodies[d2].len() as int, x) {
                let j2 = choose|j: int|
                    0 <= j < st.bodies[d2].len() && j < st.bodies[d2].len() && dest_of(
                        #[trigger] st.bodies[d2][j],
                    ) == Some(x);
                assert(dest_of(st.bodies[d1][j1]) != dest_of(st.bodies[d2][j2]));
            } else {
                let j2 = choose|j: int| 0 <= j < st.phis[d2].len() && (#[trigger] st.phis[d2][j]).dest == x;
                assert(dest_of(st.bodies[d1][j1]) != Some(st.phis[d2][j2].dest));
            }
        } else {
            let j1 = choose|j: int| 0 <= j < st.phis[d1].len() && (#[trigger] st.phis[d1][j]).dest == x;
            if named_before(st.bodies[d2], st.bodies[d2].len() as int, x) {
                let j2 = choose|j: int|
                    0 <= j < st.bodies[d2].len() && j < st.bodies[d2].len() && dest_of(
                        #[trigger] st.bodies[d2][j],
                    ) == Some(x);
                assert(dest_of(st.bodies[d2][j2]) != Some(st.phis[d1][j1].dest));
            } else {
                let j2 = choose|j: int| 0 <= j < st.phis[d2].len() && (#[trigger] st.phis[d2][j]).dest == x;
                assert(st.phis[d1][j1].dest != st.phis[d2][j2].dest);
            }
        }
    }
}

/// A name defined in a renamed block is a name that was made.
pub proof fn lemma_defined_made(st: RenameState, d: int, x: Seq<char>)
    requires
        names_made(st),
        defined_in(st, d, x),
    ensures
        made(st.counters, x),
{
    if named_before(st.bodies[d], st.bodies[d].len() as int, x) {
        let j = choose|j: int|
            0 <= j < st.bodies[d].len() && j < st.bodies[d].len() && dest_of(
                #[trigger] st.bodies[d][j],
            ) == Some(x);
        assert(made(st.counters, dest_of(st.bodies[d][j])->0));
    } else {
        let j = choose|j: int| 0 <= j < st.phis[d].len() && (#[trigger] st.phis[d][j]).dest == x;
        assert(made(st.counters, st.phis[d][j].dest));
    }
}


/// Whether every argument of every phi node comes with the number of one
/// of `n` blocks and has the property for that block.
pub open spec fn phi_args_hold(
    phis: Seq<Seq<PhiView>>,
    q: spec_fn(Seq<char>, i32) -> bool,
    n: nat,
) -> bool {
    forall|s: int, i: int, k: int|
        0 <= s < phis.len() && 0 <= i < phis[s].len() && 0 <= k < phis[s][i].vars.len()
            ==> #[trigger] phi_arg_holds(phis, q, n, s, i, k)
}

/// Whether argument `k` of phi node `i` of block `s` comes with the number
/// of one of `n` blocks and has the property for that block.
pub open spec fn phi_arg_holds(
    phis: Seq<Seq<PhiView>>,
    q: spec_fn(Seq<char>, i32) -> bool,
    n: nat,
    s: int,
    i: int,
    k: int,
) -> bool {
    let p = phis[s][i];
    k < p.labels.len() && 0 <= p.labels[k] < n && q(p.vars[k], p.labels[k])
}

/// Whether the phi nodes have as many arguments as block numbers.
pub open spec fn phis_paired(phis: Seq<Seq<PhiView>>) -> bool {
    forall|s: int, i: int|
        0 <= s < phis.len() && 0 <= i < phis[s].len() ==> (#[trigger] phis[s][i]).vars.len()
            == phis[s][i].labels.len()
}

/// Handing names that have the property to the phi nodes of successors
/// keeps the property of the arguments of all phi nodes.
pub proof fn lemma_fill_holds(
    phis: Seq<Seq<PhiView>>,
    succs: Seq<i32>,
    k: nat,
    block: i32,
    stacks: Map<Seq<char>, Seq<Seq<char>>>,
    q: spec_fn(Seq<char>, i32) -> bool,
    n: nat,
)
    requires
        k <= succs.len(),
        0 <= block < n,
        phis_paired(phis),
        phi_args_hold(phis, q, n),
        q("__undefined"@, block),
        forall|v: Seq<char>, j: int|
            stacks.contains_key(v) && 0 <= j < stacks[v].len() ==> q(#[trigger] stacks[v][j], block),
    ensures
        phis_paired(fill_phis(phis, succs, k, block, stacks)),
        phi_args_hold(fill_phis(phis, succs, k, block, stacks), q, n),
    decreases k,
{
    if k > 0 {
        lemma_fill_holds(phis, succs, (k - 1) as nat, block, stacks, q, n);
        let prev = fill_phis(phis, succs, (k - 1) as nat, block, stacks);
        let now = fill_phis(phis, succs, k, block, stacks);
        let s = succs[k - 1];
        if 0 <= s < prev.len() {
            let list = fill_list(prev[s as int], block, stacks);
            assert(now == prev.update(s as int, list));
            assert forall|x: int, i: int| 0 <= x < now.len() && 0 <= i < now[x].len() implies (
            #[trigger] now[x][i]).vars.len() == now[x][i].labels.len() by {
                if x == s {
                    assert(prev[x][i].vars.len() == prev[x][i].labels.len());
                } else {
                    assert(now[x][i] == prev[x][i]);
                }
            }
            assert forall|x: int, i: int, a: int|
                0 <= x < now.len() && 0 <= i < now[x].len() && 0 <= a
                    < now[x][i].vars.len() implies #[trigger] phi_arg_holds(now, q, n, x, i, a) by {
                if x == s {
                    let before = prev[x][i];
                    assert(before.vars.len() == before.labels.len());
                    if a < before.vars.len() {
                        assert(phi_arg_holds(prev, q, n, x, i, a));
                    } else {
                        let v = before.orig_dest;
                        if top_of(stacks, v) is Some {
                            assert(stacks.contains_key(v));
                            assert(q(stacks[v][stacks[v].len() - 1], block));
                        }
                    }
                } else {
                    assert(now[x][i] == prev[x][i]);
                    assert(phi_arg_holds(prev, q, n, x, i, a));
                }
            }
        }
    }
}

/// A name without a dot is never made.
pub proof fn lemma_dotless_foreign(counters: Map<Seq<char>, u64>, x: Seq<char>)
    requires
        forall|i: int| 0 <= i < x.len() ==> x[i] != '.',
    ensures
        !made(counters, x),
{
    reveal_strlit(".");
    if made(counters, x) {
        let (v, k) = choose|v: Seq<char>, k: u64|
            x == #[trigger] versioned(v, k) && k < count_of(counters, v);
        let y = versioned(v, k);
        assert("."@.len() == 1);
        assert(y.len() == v.len() + 1 + crate::fresh::decimal(k as nat).len());
        assert(y[v.len() as int] == '.');
    }
}

/// The name that stands for a missing definition is never made.
pub proof fn lemma_undefined_foreign(counters: Map<Seq<char>, u64>)
    ensures
        !made(counters, "__undefined"@),
{
    reveal_strlit("__undefined");
    let u = "__undefined"@;
    assert(u.len() == 11);
    assert(u[0] != '.' && u[1] != '.' && u[2] != '.' && u[3] != '.' && u[4] != '.' && u[5] != '.'
        && u[6] != '.' && u[7] != '.' && u[8] != '.' && u[9] != '.' && u[10] != '.');
    lemma_dotless_foreign(counters, u);
}

/// The children of a block in the dominator tree are blocks that the block
/// dominates.
pub proof fn lemma_kid_dominated(cfg: Cfg, b: i32, k: nat, j: int)
    requires
        k <= i32::MAX,
        0 <= j < kid_nums(cfg, b, k).len(),
    ensures
        0 <= kid_nums(cfg, b, k)[j] < k,
        immediate(cfg, b, kid_nums(cfg, b, k)[j]),
        in_dom(cfg, b, kid_nums(cfg, b, k)[j]),
    decreases k,
{
    if k > 0 {
        let prev = kid_nums(cfg, b, (k - 1) as nat);
        if j < prev.len() {
            lemma_kid_dominated(cfg, b, (k - 1) as nat, j);
        }
    }
}

/// Tasks that can be done are still tasks that can be done when tasks to
/// rename blocks are added for which the stacks can be used.
pub proof fn lemma_children_usable(
    cfg: Cfg,
    st: RenameState,
    fin: Map<Seq<char>, u64>,
    base: Seq<FrameView>,
    kids: Seq<i32>,
    m: nat,
    stacks: Map<Seq<char>, Seq<Seq<char>>>,
)
    requires
        m <= kids.len(),
        work_usable(cfg, st, fin, base, stacks),
        forall|j: int|
            0 <= j < kids.len() && 0 <= kids[j] < st.visited.len() && !st.visited[kids[j] as int]
                ==> stacks_usable(cfg, st, fin, stacks, #[trigger] kids[j] as int),
    ensures
        work_usable(cfg, st, fin, base + child_frames(kids).take(m as int), stacks),
    decreases m,
{
    let frames = child_frames(kids);
    if m == 0 {
        assert(base + frames.take(0) =~= base);
    } else {
        lemma_children_usable(cfg, st, fin, base, kids, (m - 1) as nat, stacks);
        let work = base + frames.take(m as int);
        assert(work.drop_last() =~= base + frames.take(m - 1));
        assert(work.last() == frames[m - 1]);
        let c = kids[kids.len() - 1 - (m - 1)];
        assert(frames[m - 1] == FrameView::Visit(c));
        if 0 <= c < st.visited.len() && !st.visited[c as int] {
            assert(stacks_usable(cfg, st, fin, stacks, kids[kids.len() - 1 - (m - 1)] as int));
        }
    }
}


/// Phi nodes with the same destinations define the same names.
pub proof fn lemma_same_phi_names(a: Seq<PhiView>, b: Seq<PhiView>, x: Seq<char>)
    requires
        a.len() == b.len(),
        forall|i: int| 0 <= i < a.len() ==> (#[trigger] a[i]).dest == b[i].dest,
    ensures
        named_by_phi(a, x) == named_by_phi(b, x),
{
    if named_by_phi(a, x) {
        let j = choose|j: int| 0 <= j < a.len() && (#[trigger] a[j]).dest == x;
        assert(b[j].dest == x);
    }
    if named_by_phi(b, x) {
        let j = choose|j: int| 0 <= j < b.len() && (#[trigger] b[j]).dest == x;
        assert(a[j].dest == x);
    }
}

/// The phi nodes of the block that a step enters, once renamed.
pub open spec fn entered_phis(st: RenameState) -> Seq<PhiView> {
    let b = st.work.last()->Visit_0 as int;
    rename_phis(st.phis[b], st.phis[b].len(), st.stacks, st.counters).items
}

/// The items of the block that a step enters, once renamed.
pub open spec fn entered_items(st: RenameState) -> Seq<CodeView> {
    let b = st.work.last()->Visit_0 as int;
    let rp = rename_phis(st.phis[b], st.phis[b].len(), st.stacks, st.counters);
    rename_items(st.bodies[b], st.bodies[b].len(), rp.stacks, rp.counters).items
}

/// The step that enters a block adds the definitions of that block, under
/// names made in the step, and leaves the definitions of the other blocks
/// as they are.
pub proof fn lemma_enter_extends(
    st: RenameState,
    succs: Seq<Seq<i32>>,
    kids: Seq<Seq<i32>>,
    fin: Map<Seq<char>, u64>,
    n: nat,
)
    requires
        shaped(st, n),
        enters(st),
        unsaturated(fin),
        grown(rename_step(st, succs, kids).counters, fin),
    ensures
        extends(st, rename_step(st, succs, kids), fin),
        rename_step(st, succs, kids).bodies[st.work.last()->Visit_0 as int] == entered_items(st),
        rename_step(st, succs, kids).phis[st.work.last()->Visit_0 as int].len() == entered_phis(
            st,
        ).len(),
        forall|x: Seq<char>|
            named_by_phi(
                rename_step(st, succs, kids).phis[st.work.last()->Visit_0 as int],
                x,
            ) == named_by_phi(entered_phis(st), x),
        forall|x: Seq<char>|
            #![trigger made(st.counters, x)]
            (named_by_phi(entered_phis(st), x) || named_before(
                entered_items(st),
                entered_items(st).len() as int,
                x,
            )) ==> !made(st.counters, x) && made(rename_step(st, succs, kids).counters, x),
        forall|d: int, x: Seq<char>|
            d != st.work.last()->Visit_0 ==> (#[trigger] defined_in(
                rename_step(st, succs, kids),
                d,
                x,
            ) == defined_in(st, d, x)),
        forall|d: int|
            0 <= d < n && d != st.work.last()->Visit_0 ==> #[trigger] rename_step(
                st,
                succs,
                kids,
            ).bodies[d] == st.bodies[d],
{
    let next = rename_step(st, succs, kids);
    let b = st.work.last()->Visit_0 as int;
    let c0 = st.counters;
    let rp = rename_phis(st.phis[b], st.phis[b].len(), st.stacks, c0);
    let ri = rename_items(st.bodies[b], st.bodies[b].len(), rp.stacks, rp.counters);
    lemma_step_grown(st, succs, kids, n);
    lemma_unsaturated_before(next.counters, fin);
    lemma_items_unsaturated(st.bodies[b], st.bodies[b].len(), rp.stacks, rp.counters);
    lemma_unsaturated_before(rp.counters, ri.counters);
    lemma_phis_named(st.phis[b], st.phis[b].len(), st.stacks, c0);
    lemma_items_named(st.bodies[b], st.bodies[b].len(), rp.stacks, rp.counters);
    let targets = if (b as i32) < succs.len() {
        succs[b]
    } else {
        Seq::empty()
    };
    let table = st.phis.update(b, rp.items);
    lemma_fill_keeps(table, targets, targets.len(), b as i32, ri.stacks);
    assert(next.phis == fill_phis(table, targets, targets.len(), b as i32, ri.stacks));
    assert forall|d: int, i: int| 0 <= d < n && 0 <= i < table[d].len() implies (
    #[trigger] next.phis[d][i]).dest == table[d][i].dest by {}
    assert forall|x: Seq<char>|
        named_by_phi(next.phis[b], x) == named_by_phi(entered_phis(st), x) by {
        assert(next.phis[b].len() == table[b].len());
        lemma_same_phi_names(next.phis[b], rp.items, x);
    }
    assert forall|x: Seq<char>|
        #![trigger made(st.counters, x)]
        (named_by_phi(rp.items, x) || named_before(ri.items, ri.items.len() as int, x))
            implies !made(c0, x) && made(next.counters, x) by {
        if named_by_phi(rp.items, x) {
            let j = choose|j: int| 0 <= j < rp.items.len() && (#[trigger] rp.items[j]).dest == x;
            assert(made(rp.counters, rp.items[j].dest) && !made(c0, rp.items[j].dest));
            lemma_made_grown(rp.counters, ri.counters, x);
        } else {
            let j = choose|j: int|
                0 <= j < ri.items.len() && j < ri.items.len() && dest_of(#[trigger] ri.items[j])
                    == Some(x);
            assert(made(ri.counters, dest_of(ri.items[j])->0) && !made(
                rp.counters,
                dest_of(ri.items[j])->0,
            ));
            if made(c0, x) {
                lemma_made_grown(c0, rp.counters, x);
            }
        }
    }
    assert forall|d: int, x: Seq<char>| d != b implies (#[trigger] defined_in(next, d, x)
        == defined_in(st, d, x)) by {
        if 0 <= d < n {
            assert(next.bodies[d] == st.bodies[d]);
            assert(next.visited[d] == st.visited[d]);
            assert(table[d] == st.phis[d]);
            assert(next.phis[d].len() == table[d].len());
            lemma_same_phi_names(next.phis[d], st.phis[d], x);
        }
    }
    assert forall|d: int, x: Seq<char>| #[trigger] defined_in(next, d, x) implies defined_in(
        st,
        d,
        x,
    ) || (made(next.counters, x) && !made(st.counters, x)) by {
        if d == b {
            assert(next.bodies[b] == ri.items);
            assert(named_by_phi(next.phis[b], x) == named_by_phi(entered_phis(st), x));
            assert(!made(st.counters, x) && made(next.counters, x));
        } else {
            assert(defined_in(next, d, x) == defined_in(st, d, x));
        }
    }
    assert forall|d: int, x: Seq<char>| #[trigger] defined_in(st, d, x) implies defined_in(
        next,
        d,
        x,
    ) by {
        assert(d != b);
        assert(defined_in(next, d, x) == defined_in(st, d, x));
    }
}


/// A name defined in a renamed block can be used in that block.
pub proof fn lemma_local_usable(
    cfg: Cfg,
    st: RenameState,
    fin: Map<Seq<char>, u64>,
    b: int,
    y: Seq<char>,
)
    requires
        cfg.wf(),
        cfg.is_block(b as i32),
        names_differ(st),
        names_made(st),
        defined_in(st, b, y),
    ensures
        usable(cfg, st, fin, y, b),
        made(st.counters, y),
{
    lemma_defined_made(st, b, y);
    lemma_self_and_entry_dominate(cfg, b as i32);
    assert forall|d: int| #[trigger] defined_in(st, d, y) implies in_dom(cfg, d as i32, b as i32) by {
        lemma_def_unique(st, d, b, y);
    }
}

/// Whether the state has all that the law of uses needs: the tables are
/// for `n` blocks; the names of the renamed blocks are made and differ; the
/// arguments of items and phi nodes are used well; the blocks not renamed
/// yet use names that are never made; and the tasks can be done.
pub open spec fn uses_inv(cfg: Cfg, st: RenameState, fin: Map<Seq<char>, u64>, n: nat) -> bool {
    &&& shaped(st, n)
    &&& names_made(st)
    &&& names_differ(st)
    &&& uses_ok(cfg, st, fin)
    &&& phis_paired(st.phis)
    &&& phi_uses_ok(cfg, st, fin)
    &&& rest_foreign(st, fin)
    &&& work_usable(cfg, st, fin, st.work, st.stacks)
}

/// The step that enters a block uses names well in the items of the block,
/// and leaves stacks whose names can be used in the block.
pub proof fn lemma_enter_body(cfg: Cfg, st: RenameState, fin: Map<Seq<char>, u64>, n: nat)
    requires
        cfg.wf(),
        n == cfg.size(),
        uses_inv(cfg, st, fin, n),
        enters(st),
        unsaturated(fin),
        grown(rename_step(st, cfg.succ_lists(), kid_table(cfg)).counters, fin),
        names_made(rename_step(st, cfg.succ_lists(), kid_table(cfg))),
        names_differ(rename_step(st, cfg.succ_lists(), kid_table(cfg))),
    ensures
        uses_ok(cfg, rename_step(st, cfg.succ_lists(), kid_table(cfg)), fin),
        stacks_usable(
            cfg,
            rename_step(st, cfg.succ_lists(), kid_table(cfg)),
            fin,
            rename_step(st, cfg.succ_lists(), kid_table(cfg)).stacks,
            st.work.last()->Visit_0 as int,
        ),
{
    let succs = cfg.succ_lists();
    let kids = kid_table(cfg);
    let next = rename_step(st, succs, kids);
    let b = st.work.last()->Visit_0 as int;
    let c0 = st.counters;
    let rp = rename_phis(st.phis[b], st.phis[b].len(), st.stacks, c0);
    let ri = rename_items(st.bodies[b], st.bodies[b].len(), rp.stacks, rp.counters);
    let len = st.bodies[b].len();
    lemma_enter_extends(st, succs, kids, fin, n);
    lemma_step_grown(st, succs, kids, n);
    assert(cfg.is_block(b as i32));
    assert(next.visited[b]);
    assert(next.bodies[b] == ri.items);
    assert(next.stacks == ri.stacks);
    let p = |y: Seq<char>| known(fin, c0, y) && usable(cfg, next, fin, y, b);
    assert(stacks_usable(cfg, st, fin, st.stacks, b));
    assert forall|v: Seq<char>, k: int|
        st.stacks.contains_key(v) && 0 <= k < st.stacks[v].len() implies p(
        #[trigger] st.stacks[v][k],
    ) by {
        let y = st.stacks[v][k];
        assert(usable(cfg, st, fin, y, b));
        lemma_usable_stable(cfg, st, next, fin, y, b);
    }
    assert(stacks_hold(st.stacks, p));
    lemma_phis_used(st.phis[b], st.phis[b].len(), st.stacks, c0, p);
    let held = |y: Seq<char>| p(y) || named_by_phi(rp.items, y);
    assert forall|v: Seq<char>, k: int|
        rp.stacks.contains_key(v) && 0 <= k < rp.stacks[v].len() implies held(
        #[trigger] rp.stacks[v][k],
    ) by {}
    assert(stacks_hold(rp.stacks, held));
    lemma_items_used(st.bodies[b], len, rp.stacks, rp.counters, held);
    assert(items_used(st.bodies[b], len, ri, held));
    // a name of the block itself is defined in the block
    assert forall|y: Seq<char>|
        named_by_phi(rp.items, y) || #[trigger] named_before(
            ri.items,
            ri.items.len() as int,
            y,
        ) implies defined_in(next, b, y) by {
        assert(named_by_phi(next.phis[b], y) == named_by_phi(entered_phis(st), y));
    }
    assert forall|v: Seq<char>, k: int|
        ri.stacks.contains_key(v) && 0 <= k < ri.stacks[v].len() implies usable(
        cfg,
        next,
        fin,
        #[trigger] ri.stacks[v][k],
        b,
    ) by {
        let y = ri.stacks[v][k];
        assert(held(y) || named_before(ri.items, len as int, y));
        if !p(y) {
            assert(named_by_phi(rp.items, y) || named_before(ri.items, ri.items.len() as int, y));
            assert(named_by_phi(next.phis[b], y) == named_by_phi(entered_phis(st), y));
            assert(defined_in(next, b, y));
            lemma_local_usable(cfg, next, fin, b, y);
        }
    }
    assert forall|x: int, i: int, a: int|
        0 <= x < next.bodies.len() && next.visited[x] && 0 <= i < next.bodies[x].len() && 0 <= a
            < args_of(next.bodies[x][i]).len() implies #[trigger] use_ok(cfg, next, fin, x, i, a) by {
        let u = args_of(next.bodies[x][i])[a];
        if x != b {
            assert(next.bodies[x] == st.bodies[x]);
            assert(st.visited[x]);
            assert(use_ok(cfg, st, fin, x, i, a));
            if made(c0, u) {
                lemma_made_grown(c0, next.counters, u);
            }
            assert forall|d: int| #[trigger] defined_in(next, d, u) implies if d == x {
                named_by_phi(next.phis[x], u) || named_before(next.bodies[x], i, u)
            } else {
                in_dom(cfg, d as i32, x as i32)
            } by {
                if d == b {
                    assert(named_by_phi(next.phis[b], u) == named_by_phi(entered_phis(st), u));
                    assert(!made(c0, u) && made(next.counters, u));
                    lemma_made_grown(next.counters, fin, u);
                } else {
                    assert(defined_in(st, d, u));
                    if d == x {
                        assert(defined_in(next, x, u) == defined_in(st, x, u));
                        if named_by_phi(st.phis[x], u) {
                            // the phi nodes of the block keep their destinations
                            if !named_by_phi(next.phis[x], u) {
                                assert(!named_before(
                                    next.bodies[x],
                                    next.bodies[x].len() as int,
                                    u,
                                ));
                                let j = choose|j: int|
                                    0 <= j < st.phis[x].len() && (#[trigger] st.phis[x][j]).dest
                                        == u;
                                let m = choose|m: int|
                                    0 <= m < st.bodies[x].len() && m < st.bodies[x].len()
                                        && dest_of(#[trigger] st.bodies[x][m]) == Some(u);
                                assert(dest_of(st.bodies[x][m]) != Some(st.phis[x][j].dest));
                            }
                        }
                    }
                }
            }
        } else {
            assert(arg_used(st.bodies[b], ri.items, held, i, a));
            let old_arg = args_of(st.bodies[b][i])[a];
            if u == old_arg && !held(u) && !named_before(ri.items, i, u) {
                assert(!made(fin, args_of(st.bodies[b][i])[a]));
                assert forall|d: int| #[trigger] defined_in(next, d, u) implies false by {
                    lemma_defined_made(next, d, u);
                    lemma_made_grown(next.counters, fin, u);
                }
            } else if p(u) {
                assert forall|d: int| #[trigger] defined_in(next, d, u) implies d != b
                    && in_dom(cfg, d as i32, b as i32) by {
                    if d == b {
                        assert(named_by_phi(next.phis[b], u) == named_by_phi(entered_phis(st), u));
                        assert(!made(c0, u) && made(next.counters, u));
                        lemma_made_grown(next.counters, fin, u);
                    }
                }
                if made(c0, u) {
                    lemma_made_grown(c0, next.counters, u);
                }
            } else {
                if named_before(ri.items, i, u) {
                    let j = choose|j: int|
                        0 <= j < i && j < ri.items.len() && dest_of(#[trigger] ri.items[j])
                            == Some(u);
                    assert(named_before(ri.items, ri.items.len() as int, u));
                }
                assert(named_by_phi(next.phis[b], u) == named_by_phi(entered_phis(st), u));
                assert(defined_in(next, b, u));
                lemma_local_usable(cfg, next, fin, b, u);
                assert forall|d: int| #[trigger] defined_in(next, d, u) implies d == b by {
                    lemma_def_unique(next, d, b, u);
                }
            }
        }
    }
}


/// The step that enters a block uses names well in the arguments that it
/// hands to the phi nodes of the successors of the block.
pub proof fn lemma_enter_phis(cfg: Cfg, st: RenameState, fin: Map<Seq<char>, u64>, n: nat)
    requires
        cfg.wf(),
        n == cfg.size(),
        uses_inv(cfg, st, fin, n),
        enters(st),
        unsaturated(fin),
        grown(rename_step(st, cfg.succ_lists(), kid_table(cfg)).counters, fin),
        names_made(rename_step(st, cfg.succ_lists(), kid_table(cfg))),
        names_differ(rename_step(st, cfg.succ_lists(), kid_table(cfg))),
        stacks_usable(
            cfg,
            rename_step(st, cfg.succ_lists(), kid_table(cfg)),
            fin,
            rename_step(st, cfg.succ_lists(), kid_table(cfg)).stacks,
            st.work.last()->Visit_0 as int,
        ),
    ensures
        phis_paired(rename_step(st, cfg.succ_lists(), kid_table(cfg)).phis),
        phi_uses_ok(cfg, rename_step(st, cfg.succ_lists(), kid_table(cfg)), fin),
        rest_foreign(rename_step(st, cfg.succ_lists(), kid_table(cfg)), fin),
{
    let succs = cfg.succ_lists();
    let kids = kid_table(cfg);
    let next = rename_step(st, succs, kids);
    let b = st.work.last()->Visit_0 as int;
    let c0 = st.counters;
    let rp = rename_phis(st.phis[b], st.phis[b].len(), st.stacks, c0);
    let ri = rename_items(st.bodies[b], st.bodies[b].len(), rp.stacks, rp.counters);
    lemma_enter_extends(st, succs, kids, fin, n);
    lemma_step_grown(st, succs, kids, n);
    let any_name = |y: Seq<char>| true;
    assert(stacks_hold(st.stacks, any_name));
    lemma_phis_used(st.phis[b], st.phis[b].len(), st.stacks, c0, any_name);
    let targets = if (b as i32) < succs.len() {
        succs[b]
    } else {
        Seq::empty()
    };
    let table = st.phis.update(b, rp.items);
    assert(next.phis == fill_phis(table, targets, targets.len(), b as i32, ri.stacks));
    assert(next.stacks == ri.stacks);
    let q = |y: Seq<char>, l: i32| usable(cfg, next, fin, y, l as int);
    assert forall|s: int, i: int| 0 <= s < table.len() && 0 <= i < table[s].len() implies (
    #[trigger] table[s][i]).vars.len() == table[s][i].labels.len() by {
        if s == b {
            assert(rp.items[i].vars == st.phis[b][i].vars);
            assert(st.phis[b][i].vars.len() == st.phis[b][i].labels.len());
        } else {
            assert(st.phis[s][i].vars.len() == st.phis[s][i].labels.len());
        }
    }
    assert forall|s: int, i: int, k: int|
        0 <= s < table.len() && 0 <= i < table[s].len() && 0 <= k
            < table[s][i].vars.len() implies #[trigger] phi_arg_holds(table, q, n, s, i, k) by {
        if s == b {
            assert(rp.items[i].vars == st.phis[b][i].vars);
            assert(rp.items[i].labels == st.phis[b][i].labels);
        }
        assert(table[s][i].vars == st.phis[s][i].vars);
        assert(table[s][i].labels == st.phis[s][i].labels);
        assert(phi_use_ok(cfg, st, fin, s, i, k));
        lemma_usable_stable(
            cfg,
            st,
            next,
            fin,
            st.phis[s][i].vars[k],
            st.phis[s][i].labels[k] as int,
        );
    }
    lemma_undefined_foreign(fin);
    assert(usable(cfg, next, fin, "__undefined"@, b)) by {
        assert forall|d: int| #[trigger] defined_in(next, d, "__undefined"@) implies in_dom(
            cfg,
            d as i32,
            b as i32,
        ) by {
            lemma_defined_made(next, d, "__undefined"@);
            lemma_made_grown(next.counters, fin, "__undefined"@);
        }
    }
    assert(q("__undefined"@, b as i32));
    assert forall|v: Seq<char>, j: int|
        ri.stacks.contains_key(v) && 0 <= j < ri.stacks[v].len() implies q(
        #[trigger] ri.stacks[v][j],
        b as i32,
    ) by {
        assert(usable(cfg, next, fin, next.stacks[v][j], b));
    }
    lemma_fill_holds(table, targets, targets.len(), b as i32, ri.stacks, q, n);
    assert forall|s: int, i: int, k: int|
        0 <= s < next.phis.len() && 0 <= i < next.phis[s].len() && 0 <= k
            < next.phis[s][i].vars.len() implies #[trigger] phi_use_ok(cfg, next, fin, s, i, k) by {
        assert(phi_arg_holds(next.phis, q, n, s, i, k));
    }
    assert forall|x: int, i: int, a: int|
        0 <= x < next.bodies.len() && !next.visited[x] && 0 <= i < next.bodies[x].len() && 0 <= a
            < args_of(next.bodies[x][i]).len() implies !made(
        fin,
        #[trigger] args_of(next.bodies[x][i])[a],
    ) by {
        assert(x != b);
        assert(next.bodies[x] == st.bodies[x]);
        assert(!st.visited[x]);
    }
}

/// The step that enters a block leaves tasks that can be done: the
/// children of the block find stacks whose names they can use.
pub proof fn lemma_enter_work(cfg: Cfg, st: RenameState, fin: Map<Seq<char>, u64>, n: nat)
    requires
        cfg.wf(),
        n == cfg.size(),
        forall|v: i32| cfg.is_block(v) ==> reaches(cfg, v),
        uses_inv(cfg, st, fin, n),
        enters(st),
        unsaturated(fin),
        grown(rename_step(st, cfg.succ_lists(), kid_table(cfg)).counters, fin),
        stacks_usable(
            cfg,
            rename_step(st, cfg.succ_lists(), kid_table(cfg)),
            fin,
            rename_step(st, cfg.succ_lists(), kid_table(cfg)).stacks,
            st.work.last()->Visit_0 as int,
        ),
    ensures
        work_usable(
            cfg,
            rename_step(st, cfg.succ_lists(), kid_table(cfg)),
            fin,
            rename_step(st, cfg.succ_lists(), kid_table(cfg)).work,
            rename_step(st, cfg.succ_lists(), kid_table(cfg)).stacks,
        ),
{
    let succs = cfg.succ_lists();
    let kids = kid_table(cfg);
    let next = rename_step(st, succs, kids);
    let b = st.work.last()->Visit_0 as int;
    lemma_enter_extends(st, succs, kids, fin, n);
    lemma_step_grown(st, succs, kids, n);
    let children = kids[b];
    assert(children == kid_nums(cfg, b as i32, n));
    let base = st.work.drop_last().push(FrameView::Restore(st.stacks));
    assert(next.work == base + child_frames(children));
    assert(work_usable(cfg, st, fin, st.work.drop_last(), st.stacks));
    lemma_work_stable(cfg, st, next, fin, st.work.drop_last(), st.stacks);
    assert(base.drop_last() =~= st.work.drop_last());
    assert(work_usable(cfg, next, fin, base, next.stacks));
    assert forall|j: int|
        0 <= j < children.len() && 0 <= children[j] < next.visited.len()
            && !next.visited[children[j] as int] implies stacks_usable(
        cfg,
        next,
        fin,
        next.stacks,
        #[trigger] children[j] as int,
    ) by {
        let c = children[j];
        lemma_kid_dominated(cfg, b as i32, n, j);
        assert(cfg.is_block(c));
        assert forall|v: Seq<char>, k: int|
            next.stacks.contains_key(v) && 0 <= k < next.stacks[v].len() implies usable(
            cfg,
            next,
            fin,
            #[trigger] next.stacks[v][k],
            c as int,
        ) by {
            let y = next.stacks[v][k];
            assert(usable(cfg, next, fin, y, b));
            assert forall|d: int| #[trigger] defined_in(next, d, y) implies in_dom(
                cfg,
                d as i32,
                c,
            ) by {
                assert(in_dom(cfg, d as i32, b as i32));
                lemma_dominance_transitive(cfg, d as i32, b as i32, c);
            }
        }
    }
    lemma_children_usable(cfg, next, fin, base, children, children.len(), next.stacks);
    assert(child_frames(children).take(children.len() as int) =~= child_frames(children));
}

/// A step keeps all that the law of uses needs.
pub proof fn lemma_step_uses(cfg: Cfg, st: RenameState, fin: Map<Seq<char>, u64>, n: nat)
    requires
        cfg.wf(),
        n == cfg.size(),
        forall|v: i32| cfg.is_block(v) ==> reaches(cfg, v),
        uses_inv(cfg, st, fin, n),
        unsaturated(fin),
        grown(rename_step(st, cfg.succ_lists(), kid_table(cfg)).counters, fin),
    ensures
        uses_inv(cfg, rename_step(st, cfg.succ_lists(), kid_table(cfg)), fin, n),
{
    let succs = cfg.succ_lists();
    let kids = kid_table(cfg);
    let next = rename_step(st, succs, kids);
    lemma_step_grown(st, succs, kids, n);
    lemma_unsaturated_before(next.counters, fin);
    lemma_step_named(st, succs, kids, n);
    if st.work.len() > 0 {
        if enters(st) {
            lemma_enter_body(cfg, st, fin, n);
            lemma_enter_phis(cfg, st, fin, n);
            lemma_enter_work(cfg, st, fin, n);
        } else {
            assert(next.bodies == st.bodies);
            assert(next.phis == st.phis);
            assert(next.visited == st.visited);
            assert(next.counters == st.counters);
            assert forall|d: int, x: Seq<char>| #[trigger]
                defined_in(next, d, x) == defined_in(st, d, x) by {}
            assert forall|b: int, i: int, a: int|
                0 <= b < next.bodies.len() && next.visited[b] && 0 <= i < next.bodies[b].len()
                    && 0 <= a < args_of(next.bodies[b][i]).len() implies #[trigger] use_ok(
                cfg,
                next,
                fin,
                b,
                i,
                a,
            ) by {
                assert(use_ok(cfg, st, fin, b, i, a));
                let u = args_of(st.bodies[b][i])[a];
                assert forall|d: int| #[trigger] defined_in(next, d, u) implies if d == b {
                    named_by_phi(next.phis[b], u) || named_before(next.bodies[b], i, u)
                } else {
                    in_dom(cfg, d as i32, b as i32)
                } by {
                    assert(defined_in(st, d, u));
                }
            }
            assert forall|s: int, i: int, k: int|
                0 <= s < next.phis.len() && 0 <= i < next.phis[s].len() && 0 <= k
                    < next.phis[s][i].vars.len() implies #[trigger] phi_use_ok(
                cfg,
                next,
                fin,
                s,
                i,
                k,
            ) by {
                assert(phi_use_ok(cfg, st, fin, s, i, k));
                let y = st.phis[s][i].vars[k];
                let l = st.phis[s][i].labels[k] as int;
                assert forall|d: int| #[trigger] defined_in(next, d, y) implies in_dom(
                    cfg,
                    d as i32,
                    l as i32,
                ) by {
                    assert(defined_in(st, d, y));
                }
            }
            lemma_same_work(cfg, st, next, fin, st.work.drop_last(), st.stacks);
            match st.work.last() {
                FrameView::Restore(backup) => {
                    lemma_same_work(cfg, st, next, fin, st.work.drop_last(), backup);
                },
                FrameView::Visit(_) => {},
            }
        }
    }
}

/// Tasks that can be done can be done in a state with the same tables.
pub proof fn lemma_same_work(
    cfg: Cfg,
    st: RenameState,
    next: RenameState,
    fin: Map<Seq<char>, u64>,
    work: Seq<FrameView>,
    stacks: Map<Seq<char>, Seq<Seq<char>>>,
)
    requires
        next.bodies == st.bodies,
        next.phis == st.phis,
        next.visited == st.visited,
        next.counters == st.counters,
    ensures
        work_usable(cfg, st, fin, work, stacks) == work_usable(cfg, next, fin, work, stacks),
    decreases work.len(),
{
    assert forall|d: int, x: Seq<char>| #[trigger]
        defined_in(next, d, x) == defined_in(st, d, x) by {}
    if work.len() > 0 {
        match work.last() {
            FrameView::Visit(c) => {
                lemma_same_work(cfg, st, next, fin, work.drop_last(), stacks);
                if 0 <= c < st.visited.len() && !st.visited[c as int] {
                    assert(stacks_usable(cfg, st, fin, stacks, c as int) == stacks_usable(
                        cfg,
                        next,
                        fin,
                        stacks,
                        c as int,
                    )) by {
                        if stacks_usable(cfg, st, fin, stacks, c as int) {
                            assert forall|v: Seq<char>, k: int|
                                stacks.contains_key(v) && 0 <= k < stacks[v].len() implies usable(
                                cfg,
                                next,
                                fin,
                                #[trigger] stacks[v][k],
                                c as int,
                            ) by {
                                let y = stacks[v][k];
                                assert(usable(cfg, st, fin, y, c as int));
                                assert forall|d: int| #[trigger]
                                    defined_in(next, d, y) implies in_dom(
                                    cfg,
                                    d as i32,
                                    c,
                                ) by {
                                    assert(defined_in(st, d, y));
                                }
                            }
                        }
                        if stacks_usable(cfg, next, fin, stacks, c as int) {
                            assert forall|v: Seq<char>, k: int|
                                stacks.contains_key(v) && 0 <= k < stacks[v].len() implies usable(
                                cfg,
                                st,
                                fin,
                                #[trigger] stacks[v][k],
                                c as int,
                            ) by {
                                let y = stacks[v][k];
                                assert(usable(cfg, next, fin, y, c as int));
                                assert forall|d: int| #[trigger]
                                    defined_in(st, d, y) implies in_dom(cfg, d as i32, c) by {
                                    assert(defined_in(next, d, y));
                                }
                            }
                        }
                    }
                }
            },
            FrameView::Restore(s) => {
                lemma_same_work(cfg, st, next, fin, work.drop_last(), s);
            },
        }
    }
}


/// The run to the end keeps all that the law of uses needs.
pub proof fn lemma_finish_uses(cfg: Cfg, st: RenameState, fin: Map<Seq<char>, u64>, n: nat)
    requires
        cfg.wf(),
        n == cfg.size(),
        forall|v: i32| cfg.is_block(v) ==> reaches(cfg, v),
        uses_inv(cfg, st, fin, n),
        unsaturated(fin),
        fin == finish(st, cfg.succ_lists(), kid_table(cfg)).counters,
    ensures
        uses_inv(cfg, finish(st, cfg.succ_lists(), kid_table(cfg)), fin, n),
    decreases unvisited(st), st.work.len(),
{
    let succs = cfg.succ_lists();
    let kids = kid_table(cfg);
    if st.work.len() > 0 {
        if enters(st) {
            lemma_visit_counts(st.visited, st.work.last()->Visit_0 as int);
        }
        lemma_count_bound(st.visited);
        let next = rename_step(st, succs, kids);
        lemma_step_grown(st, succs, kids, n);
        lemma_finish_grown(next, succs, kids, n);
        lemma_step_uses(cfg, st, fin, n);
        lemma_finish_uses(cfg, next, fin, n);
    }
}

/// The names on the stacks at the start are the parameters.
pub proof fn lemma_param_stacks(params: Seq<Seq<char>>, v: Seq<char>, k: int)
    requires
        param_stacks(params).contains_key(v),
        0 <= k < param_stacks(params)[v].len(),
    ensures
        params.contains(param_stacks(params)[v][k]),
    decreases params.len(),
{
    if params.len() > 0 {
        if v == params.last() {
            assert(params[params.len() - 1] == params.last());
        } else {
            lemma_param_stacks(params.drop_last(), v, k);
            let x = param_stacks(params)[v][k];
            let j = choose|j: int| 0 <= j < params.drop_last().len() && params.drop_last()[j] == x;
            assert(params[j] == x);
        }
    }
}

/// Whether no parameter and no argument of an item of the graph is a name
/// that the counters stand for.
pub open spec fn names_apart(cfg: Cfg, params: Seq<Seq<char>>, counters: Map<Seq<char>, u64>) -> bool {
    &&& forall|k: int| 0 <= k < params.len() ==> !made(counters, #[trigger] params[k])
    &&& forall|b: int, i: int, a: int|
        0 <= b < cfg.size() && 0 <= i < cfg.body(b as i32).len() && 0 <= a < args_of(
            cfg.body(b as i32)[i],
        ).len() ==> !made(counters, #[trigger] args_of(cfg.body(b as i32)[i])[a])
}

/// In static single assignment form every use goes by a definition that
/// dominates it. Of the renamed blocks of a graph all of whose blocks the
/// entry reaches: every block is renamed; where an item of block `b` uses
/// a name, a definition of that name in `b` is a phi node of `b` or an
/// earlier item, and one in another block is in a block that dominates
/// `b`; and where a phi node takes a name from block `l`, every definition
/// of the name is in a block that dominates `l`. This holds as long as no
/// counter reaches the greatest number and neither a parameter nor an
/// argument in the graph is itself a name that the renaming makes.
pub proof fn lemma_uses_dominated(cfg: Cfg, params: Seq<Seq<char>>)
    requires
        cfg.wf(),
        cfg.size() > 0,
        forall|v: i32| cfg.is_block(v) ==> reaches(cfg, v),
        unsaturated(renamed(cfg, params).counters),
        names_apart(cfg, params, renamed(cfg, params).counters),
    ensures
        forall|b: int| 0 <= b < cfg.size() ==> #[trigger] renamed(cfg, params).visited[b],
        uses_ok(cfg, renamed(cfg, params), renamed(cfg, params).counters),
        phi_uses_ok(cfg, renamed(cfg, params), renamed(cfg, params).counters),
{
    let n = cfg.size();
    let table = placed_phis(cfg, params.to_set());
    let st = start_state(bodies_of(cfg), table, params, cfg.entry());
    let end = renamed(cfg, params);
    let fin = end.counters;
    assert forall|s: int, i: int| 0 <= s < table.len() && 0 <= i < table[s].len() implies (
    #[trigger] table[s][i]).vars.len() == 0 && table[s][i].labels.len() == 0 by {
        lemma_placed_bare(cfg, params.to_set(), crate::ssa::def_order(
            crate::ssa::all_items(cfg.entries()),
        ).len(), s, i);
    }
    assert forall|v: Seq<char>, k: int|
        st.stacks.contains_key(v) && 0 <= k < st.stacks[v].len() implies usable(
        cfg,
        st,
        fin,
        #[trigger] st.stacks[v][k],
        cfg.entry() as int,
    ) by {
        lemma_param_stacks(params, v, k);
        let x = st.stacks[v][k];
        let j = choose|j: int| 0 <= j < params.len() && params[j] == x;
        assert(!made(fin, params[j]));
    }
    assert(st.work.drop_last() =~= Seq::<FrameView>::empty());
    assert(work_usable(cfg, st, fin, st.work.drop_last(), st.stacks));
    assert(work_usable(cfg, st, fin, st.work, st.stacks));
    assert(rest_foreign(st, fin)) by {
        assert forall|b: int, i: int, a: int|
            0 <= b < st.bodies.len() && !st.visited[b] && 0 <= i < st.bodies[b].len() && 0 <= a
                < args_of(st.bodies[b][i]).len() implies !made(
            fin,
            #[trigger] args_of(st.bodies[b][i])[a],
        ) by {
            assert(st.bodies[b] == cfg.body(b as i32));
        }
    }
    assert(uses_inv(cfg, st, fin, n));
    lemma_finish_uses(cfg, st, fin, n);
    assert forall|b: int| 0 <= b < cfg.size() implies #[trigger] end.visited[b] by {
        assert(cfg.is_block(b as i32));
        crate::ssa_laws::lemma_reached_renamed(cfg, params, b as i32);
    }
}

/// A phi node has no arguments when it is placed.
pub proof fn lemma_placed_bare(cfg: Cfg, params: Set<Seq<char>>, j: nat, b: int, i: int)
    requires
        0 <= i < crate::ssa::phi_list(cfg, params, j, b).len(),
    ensures
        crate::ssa::phi_list(cfg, params, j, b)[i].vars.len() == 0,
        crate::ssa::phi_list(cfg, params, j, b)[i].labels.len() == 0,
    decreases j,
{
    if j > 0 {
        let prev = crate::ssa::phi_list(cfg, params, (j - 1) as nat, b);
        if i < prev.len() {
            lemma_placed_bare(cfg, params, (j - 1) as nat, b, i);
        }
    }
}

} // verus!
