//! Laws of the conversion into static single assignment form: every block
//! that the entry reaches is renamed, and no two definitions of the renamed
//! blocks have the same destination.
use crate::cfg::Cfg;
use crate::df::{args_of, dest_of};
use crate::dominators::{
    immediate, is_idom, is_walk, lemma_entry_reaches, lemma_has_immediate,
    lemma_immediate_unique, lemma_walk_prefix, reaches, strictly,
};
use crate::ssa::{
    bodies_of, kid_nums, kid_table, label_name, laid_out, phi_instr, phi_instrs, placed_phis,
    renamed, ssa_body, start_state, with_phis,
};
use crate::form_blocks::{blocks_of, flat, lemma_blocks_partition};
use crate::ordered::distinct_keys;
use crate::tdce::{
    dce_body, dce_rounds, dce_step, is_unused_def, killed, local_swept, unkilled, used_args,
    without_unused,
};
use crate::ir::CodeView;
use crate::bits::lemma_count_bound;
use crate::ssa::{current_names, top_of};
use crate::ssa::{
    child_frames, count_of, counted, enters, fill_list, fill_phis, finish,
    lemma_versioned_injective, lemma_visit_counts, rename_items, rename_phis, rename_step,
    unvisited, versioned, FrameView, PhiView, RenameState, RenamedItems, RenamedPhis,
};
use vstd::prelude::*;

verus! {

/// Whether the name is one that was made: the name of a variable's
/// definition number `k`, for a `k` below the counter of the variable.
pub open spec fn made(counters: Map<Seq<char>, u64>, x: Seq<char>) -> bool {
    exists|v: Seq<char>, k: u64| x == #[trigger] versioned(v, k) && k < count_of(counters, v)
}

/// Whether no counter went down.
pub open spec fn grown(before: Map<Seq<char>, u64>, after: Map<Seq<char>, u64>) -> bool {
    forall|v: Seq<char>| count_of(before, v) <= #[trigger] count_of(after, v)
}

/// Whether no counter has reached the greatest number.
pub open spec fn unsaturated(counters: Map<Seq<char>, u64>) -> bool {
    forall|v: Seq<char>| #[trigger] count_of(counters, v) < u64::MAX
}

/// A name that was made stays made while the counters grow.
pub proof fn lemma_made_grown(before: Map<Seq<char>, u64>, after: Map<Seq<char>, u64>, x: Seq<char>)
    requires
        grown(before, after),
        made(before, x),
    ensures
        made(after, x),
{
    let (v, k) = choose|v: Seq<char>, k: u64| x == #[trigger] versioned(v, k) && k < count_of(before, v);
    assert(count_of(before, v) <= count_of(after, v));
    assert(x == versioned(v, k) && k < count_of(after, v));
}

/// The next name of a variable was not made before, and is made once the
/// counter of the variable has gone up.
pub proof fn lemma_next_name(counters: Map<Seq<char>, u64>, d: Seq<char>)
    requires
        count_of(counted(counters, d), d) < u64::MAX,
    ensures
        !made(counters, versioned(d, count_of(counters, d))),
        made(counted(counters, d), versioned(d, count_of(counters, d))),
        grown(counters, counted(counters, d)),
        count_of(counters, d) < u64::MAX,
{
    let c = count_of(counters, d);
    let x = versioned(d, c);
    if made(counters, x) {
        let (v, k) = choose|v: Seq<char>, k: u64|
            x == #[trigger] versioned(v, k) && k < count_of(counters, v);
        lemma_versioned_injective(d, c, v, k);
    }
    assert(c < u64::MAX);
    assert(x == versioned(d, c) && c < count_of(counted(counters, d), d));
    assert forall|v: Seq<char>| count_of(counters, v) <= #[trigger] count_of(
        counted(counters, d),
        v,
    ) by {}
}

/// What holds of the items that renaming made of the first `k` items of a
/// block: there are `k` of them; an item defines a variable exactly when
/// the item it was made of does; every destination is a name that was made
/// in the course of it and not before; and no two destinations are the
/// same.
pub open spec fn items_named(
    body: Seq<CodeView>,
    k: nat,
    c0: Map<Seq<char>, u64>,
    r: RenamedItems,
) -> bool {
    &&& r.items.len() == k
    &&& grown(c0, r.counters)
    &&& forall|i: int| 0 <= i < k ==> (dest_of(#[trigger] r.items[i]) is Some) == (dest_of(body[i]) is Some)
    &&& forall|i: int|
        0 <= i < k && dest_of(#[trigger] r.items[i]) is Some ==> made(
            r.counters,
            dest_of(r.items[i])->0,
        ) && !made(c0, dest_of(r.items[i])->0)
    &&& forall|i: int, j: int|
        0 <= i < j < k && dest_of(#[trigger] r.items[i]) is Some ==> dest_of(r.items[i])
            != dest_of(#[trigger] r.items[j])
}

/// Counters that end below the greatest number were below it all along.
pub proof fn lemma_items_unsaturated(
    body: Seq<CodeView>,
    k: nat,
    stacks: Map<Seq<char>, Seq<Seq<char>>>,
    c0: Map<Seq<char>, u64>,
)
    requires
        k <= body.len(),
    ensures
        grown(c0, rename_items(body, k, stacks, c0).counters),
    decreases k,
{
    if k > 0 {
        lemma_items_unsaturated(body, (k - 1) as nat, stacks, c0);
        let r = rename_items(body, (k - 1) as nat, stacks, c0);
        let after = rename_items(body, k, stacks, c0).counters;
        assert forall|v: Seq<char>| count_of(c0, v) <= #[trigger] count_of(after, v) by {
            assert(count_of(c0, v) <= count_of(r.counters, v));
        }
    }
}

/// Renaming the items of a block gives each definition a name of its own.
pub proof fn lemma_items_named(
    body: Seq<CodeView>,
    k: nat,
    stacks: Map<Seq<char>, Seq<Seq<char>>>,
    c0: Map<Seq<char>, u64>,
)
    requires
        k <= body.len(),
        unsaturated(rename_items(body, k, stacks, c0).counters),
    ensures
        items_named(body, k, c0, rename_items(body, k, stacks, c0)),
    decreases k,
{
    let now = rename_items(body, k, stacks, c0);
    if k == 0 {
        assert forall|v: Seq<char>| count_of(c0, v) <= #[trigger] count_of(now.counters, v) by {}
    } else {
        let r = rename_items(body, (k - 1) as nat, stacks, c0);
        assert(unsaturated(r.counters)) by {
            assert forall|v: Seq<char>| #[trigger] count_of(r.counters, v) < u64::MAX by {
                assert(count_of(now.counters, v) < u64::MAX);
            }
        }
        lemma_items_named(body, (k - 1) as nat, stacks, c0);
        lemma_items_unsaturated(body, k, stacks, c0);
        match body[k - 1] {
            CodeView::Label { .. } => {
                assert forall|i: int| 0 <= i < k implies (dest_of(#[trigger] now.items[i]) is Some)
                    == (dest_of(body[i]) is Some) by {
                    if i < k - 1 {
                        assert(now.items[i] == r.items[i]);
                    }
                }
                assert forall|i: int| 0 <= i < k && dest_of(#[trigger] now.items[i]) is Some implies made(
                    now.counters,
                    dest_of(now.items[i])->0,
                ) && !made(c0, dest_of(now.items[i])->0) by {
                    assert(now.items[i] == r.items[i]);
                }
                assert forall|i: int, j: int|
                    0 <= i < j < k && dest_of(#[trigger] now.items[i]) is Some implies dest_of(
                    now.items[i],
                ) != dest_of(#[trigger] now.items[j]) by {
                    assert(now.items[i] == r.items[i]);
                    if j < k - 1 {
                        assert(now.items[j] == r.items[j]);
                    }
                }
            },
            CodeView::Instruction(instr) => match instr.dest() {
                Some(d) => {
                    let x = versioned(d, count_of(r.counters, d));
                    assert(now.counters == counted(r.counters, d));
                    lemma_next_name(r.counters, d);
                    assert(dest_of(now.items[k - 1]) == Some(x));
                    assert forall|i: int| 0 <= i < k implies (dest_of(#[trigger] now.items[i])
                        is Some) == (dest_of(body[i]) is Some) by {
                        if i < k - 1 {
                            assert(now.items[i] == r.items[i]);
                        }
                    }
                    assert forall|i: int|
                        0 <= i < k && dest_of(#[trigger] now.items[i]) is Some implies made(
                        now.counters,
                        dest_of(now.items[i])->0,
                    ) && !made(c0, dest_of(now.items[i])->0) by {
                        if i < k - 1 {
                            assert(now.items[i] == r.items[i]);
                            lemma_made_grown(r.counters, now.counters, dest_of(r.items[i])->0);
                        } else {
                            if made(c0, x) {
                                lemma_made_grown(c0, r.counters, x);
                            }
                        }
                    }
                    assert forall|i: int, j: int|
                        0 <= i < j < k && dest_of(#[trigger] now.items[i]) is Some implies dest_of(
                        now.items[i],
                    ) != dest_of(#[trigger] now.items[j]) by {
                        assert(now.items[i] == r.items[i]);
                        if j < k - 1 {
                            assert(now.items[j] == r.items[j]);
                        } else {
                            assert(made(r.counters, dest_of(r.items[i])->0));
                        }
                    }
                },
                None => {
                    assert forall|i: int| 0 <= i < k implies (dest_of(#[trigger] now.items[i])
                        is Some) == (dest_of(body[i]) is Some) by {
                        if i < k - 1 {
                            assert(now.items[i] == r.items[i]);
                        }
                    }
                    assert forall|i: int|
                        0 <= i < k && dest_of(#[trigger] now.items[i]) is Some implies made(
                        now.counters,
                        dest_of(now.items[i])->0,
                    ) && !made(c0, dest_of(now.items[i])->0) by {
                        assert(now.items[i] == r.items[i]);
                    }
                    assert forall|i: int, j: int|
                        0 <= i < j < k && dest_of(#[trigger] now.items[i]) is Some implies dest_of(
                        now.items[i],
                    ) != dest_of(#[trigger] now.items[j]) by {
                        assert(now.items[i] == r.items[i]);
                        if j < k - 1 {
                            assert(now.items[j] == r.items[j]);
                        }
                    }
                },
            },
        }
    }
}

/// What holds of the phi nodes that renaming made of the first `k` phi
/// nodes of a block: there are `k` of them, each for the variable it was
/// for; every destination is a name that was made in the course of it and
/// not before; and no two destinations are the same.
pub open spec fn phis_named(
    phis: Seq<PhiView>,
    k: nat,
    c0: Map<Seq<char>, u64>,
    r: RenamedPhis,
) -> bool {
    &&& r.items.len() == k
    &&& grown(c0, r.counters)
    &&& forall|i: int|
        0 <= i < k ==> made(r.counters, (#[trigger] r.items[i]).dest) && !made(c0, r.items[i].dest)
    &&& forall|i: int, j: int|
        0 <= i < j < k ==> (#[trigger] r.items[i]).dest != (#[trigger] r.items[j]).dest
}

/// Renaming the phi nodes of a block never lowers a counter.
pub proof fn lemma_phis_grown(
    phis: Seq<PhiView>,
    k: nat,
    stacks: Map<Seq<char>, Seq<Seq<char>>>,
    c0: Map<Seq<char>, u64>,
)
    requires
        k <= phis.len(),
    ensures
        grown(c0, rename_phis(phis, k, stacks, c0).counters),
    decreases k,
{
    if k > 0 {
        lemma_phis_grown(phis, (k - 1) as nat, stacks, c0);
        let r = rename_phis(phis, (k - 1) as nat, stacks, c0);
        let after = rename_phis(phis, k, stacks, c0).counters;
        assert forall|v: Seq<char>| count_of(c0, v) <= #[trigger] count_of(after, v) by {
            assert(count_of(c0, v) <= count_of(r.counters, v));
        }
    }
}

/// Renaming the phi nodes of a block gives each a name of its own.
pub proof fn lemma_phis_named(
    phis: Seq<PhiView>,
    k: nat,
    stacks: Map<Seq<char>, Seq<Seq<char>>>,
    c0: Map<Seq<char>, u64>,
)
    requires
        k <= phis.len(),
        unsaturated(rename_phis(phis, k, stacks, c0).counters),
    ensures
        phis_named(phis, k, c0, rename_phis(phis, k, stacks, c0)),
    decreases k,
{
    let now = rename_phis(phis, k, stacks, c0);
    if k == 0 {
        assert forall|v: Seq<char>| count_of(c0, v) <= #[trigger] count_of(now.counters, v) by {}
    } else {
        let r = rename_phis(phis, (k - 1) as nat, stacks, c0);
        assert(unsaturated(r.counters)) by {
            assert forall|v: Seq<char>| #[trigger] count_of(r.counters, v) < u64::MAX by {
                assert(count_of(now.counters, v) < u64::MAX);
            }
        }
        lemma_phis_named(phis, (k - 1) as nat, stacks, c0);
        lemma_phis_grown(phis, k, stacks, c0);
        let d = phis[k - 1].dest;
        let x = versioned(d, count_of(r.counters, d));
        lemma_next_name(r.counters, d);
        assert(now.items[k - 1].dest == x);
        assert forall|i: int| 0 <= i < k implies made(now.counters, (#[trigger] now.items[i]).dest)
            && !made(c0, now.items[i].dest) by {
            if i < k - 1 {
                assert(now.items[i] == r.items[i]);
                lemma_made_grown(r.counters, now.counters, r.items[i].dest);
            } else {
                if made(c0, x) {
                    lemma_made_grown(c0, r.counters, x);
                }
            }
        }
        assert forall|i: int, j: int| 0 <= i < j < k implies (#[trigger] now.items[i]).dest != (
        #[trigger] now.items[j]).dest by {
            assert(now.items[i] == r.items[i]);
            if j < k - 1 {
                assert(now.items[j] == r.items[j]);
            } else {
                assert(made(r.counters, r.items[i].dest));
            }
        }
    }
}


/// Handing names to the phi nodes of successors changes no destination and
/// adds or drops no phi node.
pub proof fn lemma_fill_keeps(
    phis: Seq<Seq<PhiView>>,
    succs: Seq<i32>,
    k: nat,
    block: i32,
    stacks: Map<Seq<char>, Seq<Seq<char>>>,
)
    requires
        k <= succs.len(),
    ensures
        fill_phis(phis, succs, k, block, stacks).len() == phis.len(),
        forall|x: int|
            0 <= x < phis.len() ==> (#[trigger] fill_phis(phis, succs, k, block, stacks)[x]).len()
                == phis[x].len(),
        forall|x: int, i: int|
            0 <= x < phis.len() && 0 <= i < phis[x].len() ==> (#[trigger] fill_phis(
                phis,
                succs,
                k,
                block,
                stacks,
            )[x][i]).dest == phis[x][i].dest,
    decreases k,
{
    if k > 0 {
        lemma_fill_keeps(phis, succs, (k - 1) as nat, block, stacks);
        let prev = fill_phis(phis, succs, (k - 1) as nat, block, stacks);
        let now = fill_phis(phis, succs, k, block, stacks);
        let s = succs[k - 1];
        assert forall|x: int, i: int| 0 <= x < phis.len() && 0 <= i < phis[x].len() implies (
        #[trigger] now[x][i]).dest == phis[x][i].dest by {
            assert(prev[x].len() == phis[x].len());
            assert(prev[x][i].dest == phis[x][i].dest);
            if 0 <= s < prev.len() && x == s {
                assert(now[x] == fill_list(prev[x], block, stacks));
                assert(now[x][i].dest == prev[x][i].dest);
            }
        }
        assert forall|x: int| 0 <= x < phis.len() implies (#[trigger] now[x]).len() == phis[x].len() by {
            assert(prev[x].len() == phis[x].len());
        }
    }
}

/// Whether the tables and the flags of the state are for `n` blocks.
pub open spec fn shaped(st: RenameState, n: nat) -> bool {
    st.bodies.len() == n && st.phis.len() == n && st.visited.len() == n
}

/// Whether every destination in a renamed block is a name that was made.
pub open spec fn names_made(st: RenameState) -> bool {
    &&& forall|b: int, i: int|
        0 <= b < st.bodies.len() && st.visited[b] && 0 <= i < st.bodies[b].len() && dest_of(
            #[trigger] st.bodies[b][i],
        ) is Some ==> made(st.counters, dest_of(st.bodies[b][i])->0)
    &&& forall|b: int, i: int|
        0 <= b < st.phis.len() && st.visited[b] && 0 <= i < st.phis[b].len() ==> made(
            st.counters,
            (#[trigger] st.phis[b][i]).dest,
        )
}

/// Whether no two definitions in renamed blocks have the same destination,
/// be they instructions or phi nodes.
pub open spec fn names_differ(st: RenameState) -> bool {
    &&& forall|b1: int, i1: int, b2: int, i2: int|
        0 <= b1 < st.bodies.len() && st.visited[b1] && 0 <= i1 < st.bodies[b1].len() && 0 <= b2
            < st.bodies.len() && st.visited[b2] && 0 <= i2 < st.bodies[b2].len() && (b1 != b2 || i1
            != i2) && dest_of(#[trigger] st.bodies[b1][i1]) is Some ==> dest_of(st.bodies[b1][i1])
            != dest_of(#[trigger] st.bodies[b2][i2])
    &&& forall|b1: int, i1: int, b2: int, i2: int|
        0 <= b1 < st.phis.len() && st.visited[b1] && 0 <= i1 < st.phis[b1].len() && 0 <= b2
            < st.phis.len() && st.visited[b2] && 0 <= i2 < st.phis[b2].len() && (b1 != b2 || i1
            != i2) ==> (#[trigger] st.phis[b1][i1]).dest != (#[trigger] st.phis[b2][i2]).dest
    &&& forall|b1: int, i1: int, b2: int, i2: int|
        0 <= b1 < st.bodies.len() && st.visited[b1] && 0 <= i1 < st.bodies[b1].len() && 0 <= b2
            < st.phis.len() && st.visited[b2] && 0 <= i2 < st.phis[b2].len() ==> dest_of(
            #[trigger] st.bodies[b1][i1],
        ) != Some((#[trigger] st.phis[b2][i2]).dest)
}

/// A step never lowers a counter, and keeps the tables for as many blocks.
pub proof fn lemma_step_grown(st: RenameState, succs: Seq<Seq<i32>>, kids: Seq<Seq<i32>>, n: nat)
    requires
        shaped(st, n),
    ensures
        shaped(rename_step(st, succs, kids), n),
        grown(st.counters, rename_step(st, succs, kids).counters),
        forall|b: int| 0 <= b < n && st.visited[b] ==> rename_step(st, succs, kids).visited[b],
{
    let next = rename_step(st, succs, kids);
    if st.work.len() > 0 && enters(st) {
        let b = st.work.last()->Visit_0;
        let rp = rename_phis(st.phis[b as int], st.phis[b as int].len(), st.stacks, st.counters);
        let ri = rename_items(
            st.bodies[b as int],
            st.bodies[b as int].len(),
            rp.stacks,
            rp.counters,
        );
        lemma_phis_grown(st.phis[b as int], st.phis[b as int].len(), st.stacks, st.counters);
        lemma_items_unsaturated(
            st.bodies[b as int],
            st.bodies[b as int].len(),
            rp.stacks,
            rp.counters,
        );
        let targets = if b < succs.len() {
            succs[b as int]
        } else {
            Seq::empty()
        };
        lemma_fill_keeps(st.phis.update(b as int, rp.items), targets, targets.len(), b, ri.stacks);
        assert forall|v: Seq<char>| count_of(st.counters, v) <= #[trigger] count_of(
            next.counters,
            v,
        ) by {
            assert(count_of(st.counters, v) <= count_of(rp.counters, v));
            assert(count_of(rp.counters, v) <= count_of(ri.counters, v));
        }
    } else {
        assert forall|v: Seq<char>| count_of(st.counters, v) <= #[trigger] count_of(
            next.counters,
            v,
        ) by {}
    }
}

/// The run never lowers a counter, keeps the tables for as many blocks, and
/// leaves a renamed block renamed.
pub proof fn lemma_finish_grown(st: RenameState, succs: Seq<Seq<i32>>, kids: Seq<Seq<i32>>, n: nat)
    requires
        shaped(st, n),
    ensures
        shaped(finish(st, succs, kids), n),
        grown(st.counters, finish(st, succs, kids).counters),
        forall|b: int| 0 <= b < n && st.visited[b] ==> finish(st, succs, kids).visited[b],
        finish(st, succs, kids).work.len() == 0,
    decreases unvisited(st), st.work.len(),
{
    if st.work.len() == 0 {
        assert forall|v: Seq<char>| count_of(st.counters, v) <= #[trigger] count_of(
            st.counters,
            v,
        ) by {}
    } else {
        if enters(st) {
            lemma_visit_counts(st.visited, st.work.last()->Visit_0 as int);
        }
        lemma_count_bound(st.visited);
        let next = rename_step(st, succs, kids);
        lemma_step_grown(st, succs, kids, n);
        lemma_finish_grown(next, succs, kids, n);
        let end = finish(st, succs, kids);
        assert forall|v: Seq<char>| count_of(st.counters, v) <= #[trigger] count_of(
            end.counters,
            v,
        ) by {
            assert(count_of(st.counters, v) <= count_of(next.counters, v));
            assert(count_of(next.counters, v) <= count_of(end.counters, v));
        }
    }
}

/// Counters that grow into counters below the greatest number are below
/// it.
pub proof fn lemma_unsaturated_before(before: Map<Seq<char>, u64>, after: Map<Seq<char>, u64>)
    requires
        grown(before, after),
        unsaturated(after),
    ensures
        unsaturated(before),
{
    assert forall|v: Seq<char>| #[trigger] count_of(before, v) < u64::MAX by {
        assert(count_of(before, v) <= count_of(after, v));
        assert(count_of(after, v) < u64::MAX);
    }
}

/// A step keeps the names of the renamed blocks made and different, as
/// long as no counter reaches the greatest number.
pub proof fn lemma_step_named(st: RenameState, succs: Seq<Seq<i32>>, kids: Seq<Seq<i32>>, n: nat)
    requires
        shaped(st, n),
        names_made(st),
        names_differ(st),
        unsaturated(rename_step(st, succs, kids).counters),
    ensures
        names_made(rename_step(st, succs, kids)),
        names_differ(rename_step(st, succs, kids)),
{
    let next = rename_step(st, succs, kids);
    lemma_step_grown(st, succs, kids, n);
    if st.work.len() > 0 && enters(st) {
        let b = st.work.last()->Visit_0 as int;
        let c0 = st.counters;
        let rp = rename_phis(st.phis[b], st.phis[b].len(), st.stacks, c0);
        let ri = rename_items(st.bodies[b], st.bodies[b].len(), rp.stacks, rp.counters);
        lemma_items_unsaturated(st.bodies[b], st.bodies[b].len(), rp.stacks, rp.counters);
        lemma_unsaturated_before(rp.counters, ri.counters);
        lemma_phis_named(st.phis[b], st.phis[b].len(), st.stacks, c0);
        lemma_items_named(st.bodies[b], st.bodies[b].len(), rp.stacks, rp.counters);
        let targets = if (b as i32) < succs.len() {
            succs[b]
        } else {
            Seq::empty()
        };
        let table = st.phis.update(b, rp.items);
        lemma_fill_keeps(table, targets, targets.len(), b as i32, ri.stacks);
        let c2 = ri.counters;
        assert(next.counters == c2);
        assert(grown(c0, rp.counters));
        assert(grown(rp.counters, c2));
        assert(grown(c0, c2));
        // the destination of every site of the next state
        assert forall|x: int, i: int|
            0 <= x < n && next.visited[x] && 0 <= i < next.bodies[x].len() && dest_of(
                #[trigger] next.bodies[x][i],
            ) is Some implies made(c2, dest_of(next.bodies[x][i])->0) && (x == b ==> !made(
            rp.counters,
            dest_of(next.bodies[x][i])->0,
        )) && (x != b ==> made(c0, dest_of(next.bodies[x][i])->0)) by {
            if x == b {
                assert(next.bodies[x] == ri.items);
            } else {
                assert(next.bodies[x] == st.bodies[x]);
                assert(st.visited[x]);
                lemma_made_grown(c0, c2, dest_of(st.bodies[x][i])->0);
            }
        }
        assert forall|x: int, i: int|
            0 <= x < n && next.visited[x] && 0 <= i < next.phis[x].len() implies made(
            c2,
            (#[trigger] next.phis[x][i]).dest,
        ) && (x == b ==> !made(c0, next.phis[x][i].dest) && made(rp.counters, next.phis[x][i].dest))
            && (x != b ==> made(c0, next.phis[x][i].dest)) by {
            assert(next.phis[x].len() == table[x].len());
            assert(next.phis[x][i].dest == table[x][i].dest);
            if x == b {
                assert(table[x] == rp.items);
                lemma_made_grown(rp.counters, c2, rp.items[i].dest);
            } else {
                assert(table[x] == st.phis[x]);
                assert(st.visited[x]);
                lemma_made_grown(c0, c2, st.phis[x][i].dest);
            }
        }
        assert(names_made(next));
        assert forall|b1: int, i1: int, b2: int, i2: int|
            0 <= b1 < next.bodies.len() && next.visited[b1] && 0 <= i1 < next.bodies[b1].len() && 0
                <= b2 < next.bodies.len() && next.visited[b2] && 0 <= i2 < next.bodies[b2].len()
                && (b1 != b2 || i1 != i2) && dest_of(
                #[trigger] next.bodies[b1][i1],
            ) is Some implies dest_of(next.bodies[b1][i1]) != dest_of(
            #[trigger] next.bodies[b2][i2],
        ) by {
            if dest_of(next.bodies[b2][i2]) is Some {
                let x1 = dest_of(next.bodies[b1][i1])->0;
                let x2 = dest_of(next.bodies[b2][i2])->0;
                if b1 == b && b2 == b {
                    assert(next.bodies[b] == ri.items);
                } else if b1 == b {
                    assert(!made(rp.counters, x1));
                    assert(made(c0, x2));
                    lemma_made_grown(c0, rp.counters, x2);
                } else if b2 == b {
                    assert(!made(rp.counters, x2));
                    assert(made(c0, x1));
                    lemma_made_grown(c0, rp.counters, x1);
                } else {
                    assert(next.bodies[b1] == st.bodies[b1]);
                    assert(next.bodies[b2] == st.bodies[b2]);
                }
            }
        }
        assert forall|b1: int, i1: int, b2: int, i2: int|
            0 <= b1 < next.phis.len() && next.visited[b1] && 0 <= i1 < next.phis[b1].len() && 0
                <= b2 < next.phis.len() && next.visited[b2] && 0 <= i2 < next.phis[b2].len() && (b1
                != b2 || i1 != i2) implies (#[trigger] next.phis[b1][i1]).dest != (
        #[trigger] next.phis[b2][i2]).dest by {
            assert(next.phis[b1].len() == table[b1].len());
            assert(next.phis[b2].len() == table[b2].len());
            assert(next.phis[b1][i1].dest == table[b1][i1].dest);
            assert(next.phis[b2][i2].dest == table[b2][i2].dest);
            if b1 == b && b2 == b {
                assert(table[b] == rp.items);
                if i1 < i2 {
                    assert(rp.items[i1].dest != rp.items[i2].dest);
                } else {
                    assert(rp.items[i2].dest != rp.items[i1].dest);
                }
            } else if b1 != b && b2 != b {
                assert(table[b1] == st.phis[b1]);
                assert(table[b2] == st.phis[b2]);
            }
        }
        assert forall|b1: int, i1: int, b2: int, i2: int|
            0 <= b1 < next.bodies.len() && next.visited[b1] && 0 <= i1 < next.bodies[b1].len() && 0
                <= b2 < next.phis.len() && next.visited[b2] && 0 <= i2
                < next.phis[b2].len() implies dest_of(#[trigger] next.bodies[b1][i1]) != Some(
            (#[trigger] next.phis[b2][i2]).dest,
        ) by {
            if dest_of(next.bodies[b1][i1]) is Some {
                let x1 = dest_of(next.bodies[b1][i1])->0;
                let x2 = next.phis[b2][i2].dest;
                assert(next.phis[b2].len() == table[b2].len());
                assert(x2 == table[b2][i2].dest);
                if b1 == b {
                    assert(!made(rp.counters, x1));
                    if b2 != b {
                        lemma_made_grown(c0, rp.counters, x2);
                    }
                } else if b2 == b {
                    assert(made(c0, x1));
                    assert(!made(c0, x2));
                } else {
                    assert(next.bodies[b1] == st.bodies[b1]);
                    assert(table[b2] == st.phis[b2]);
                }
            }
        }
    } else {
        assert(next.bodies == st.bodies);
        assert(next.phis == st.phis);
        assert(next.visited == st.visited);
        assert(next.counters == st.counters);
    }
}

/// The run keeps the names of the renamed blocks made and different, as
/// long as no counter reaches the greatest number.
pub proof fn lemma_finish_named(st: RenameState, succs: Seq<Seq<i32>>, kids: Seq<Seq<i32>>, n: nat)
    requires
        shaped(st, n),
        names_made(st),
        names_differ(st),
        unsaturated(finish(st, succs, kids).counters),
    ensures
        names_made(finish(st, succs, kids)),
        names_differ(finish(st, succs, kids)),
    decreases unvisited(st), st.work.len(),
{
    if st.work.len() > 0 {
        if enters(st) {
            lemma_visit_counts(st.visited, st.work.last()->Visit_0 as int);
        }
        lemma_count_bound(st.visited);
        let next = rename_step(st, succs, kids);
        lemma_step_grown(st, succs, kids, n);
        lemma_finish_grown(next, succs, kids, n);
        lemma_unsaturated_before(next.counters, finish(next, succs, kids).counters);
        lemma_step_named(st, succs, kids, n);
        lemma_finish_named(next, succs, kids, n);
    }
}


/// Whether the frame is a task to rename the block `b`.
pub open spec fn visits(f: FrameView, b: int) -> bool {
    match f {
        FrameView::Visit(x) => x == b,
        FrameView::Restore(_) => false,
    }
}

/// At the end of the run, every block is renamed that a task of the state
/// asks to rename; and for every block renamed in the course of the run,
/// its children in the dominator tree are renamed too.
pub proof fn lemma_finish_visits(st: RenameState, succs: Seq<Seq<i32>>, kids: Seq<Seq<i32>>, n: nat)
    requires
        shaped(st, n),
        kids.len() == n,
    ensures
        forall|i: int, b: int|
            0 <= i < st.work.len() && 0 <= b < n && visits(#[trigger] st.work[i], b) ==> #[trigger] finish(
                st,
                succs,
                kids,
            ).visited[b],
        forall|b: int, j: int|
            0 <= b < n && finish(st, succs, kids).visited[b] && !st.visited[b] && 0 <= j
                < kids[b].len() && 0 <= kids[b][j] < n ==> finish(st, succs, kids).visited[
            #[trigger] kids[b][j] as int],
    decreases unvisited(st), st.work.len(),
{
    let end = finish(st, succs, kids);
    if st.work.len() > 0 {
        if enters(st) {
            lemma_visit_counts(st.visited, st.work.last()->Visit_0 as int);
        }
        lemma_count_bound(st.visited);
        let next = rename_step(st, succs, kids);
        lemma_step_grown(st, succs, kids, n);
        lemma_finish_grown(next, succs, kids, n);
        lemma_finish_visits(next, succs, kids, n);
        let last = st.work.len() - 1;
        assert forall|i: int, b: int|
            0 <= i < st.work.len() && 0 <= b < n && visits(
                #[trigger] st.work[i],
                b,
            ) implies #[trigger] end.visited[b] by {
            if i < last {
                assert(next.work[i] == st.work[i]);
            } else {
                if enters(st) {
                    assert(next.visited[b]);
                } else {
                    assert(st.visited[b]);
                    assert(next.visited[b]);
                }
            }
        }
        assert forall|b: int, j: int|
            0 <= b < n && end.visited[b] && !st.visited[b] && 0 <= j < kids[b].len() && 0
                <= kids[b][j] < n implies end.visited[#[trigger] kids[b][j] as int] by {
            if next.visited[b] {
                assert(enters(st));
                let x = st.work.last()->Visit_0;
                assert(x == b);
                let frames = child_frames(kids[b]);
                let at = st.work.len() + (kids[b].len() - 1 - j);
                assert(next.work[at] == frames[kids[b].len() - 1 - j]);
                assert(visits(next.work[at], kids[b][j] as int));
            }
        }
    }
}

/// A block whose immediate dominator is `a` is among the children of `a`.
pub proof fn lemma_kid_listed(cfg: Cfg, a: i32, v: i32, k: nat)
    requires
        0 <= v < k,
        k <= i32::MAX,
        is_idom(cfg, v, Some(a)),
    ensures
        kid_nums(cfg, a, k).contains(v),
    decreases k,
{
    if v == k - 1 {
        let list = kid_nums(cfg, a, k);
        assert(list[list.len() - 1] == v);
    } else {
        lemma_kid_listed(cfg, a, v, (k - 1) as nat);
        let prev = kid_nums(cfg, a, (k - 1) as nat);
        let i = choose|i: int| 0 <= i < prev.len() && prev[i] == v;
        assert(kid_nums(cfg, a, k)[i] == v);
    }
}

/// The children of a block are blocks.
pub proof fn lemma_kids_are_blocks(cfg: Cfg, a: i32, k: nat, j: int)
    requires
        k <= i32::MAX,
        0 <= j < kid_nums(cfg, a, k).len(),
    ensures
        0 <= kid_nums(cfg, a, k)[j] < k,
    decreases k,
{
    if k > 0 {
        let prev = kid_nums(cfg, a, (k - 1) as nat);
        if j < prev.len() {
            lemma_kids_are_blocks(cfg, a, (k - 1) as nat, j);
        }
    }
}

/// Where the entry block is renamed, and with every renamed block its
/// children in the dominator tree, the end of every walk is renamed.
pub proof fn lemma_walk_visited(cfg: Cfg, visited: Seq<bool>, w: Seq<i32>)
    requires
        cfg.wf(),
        cfg.size() > 0,
        visited.len() == cfg.size(),
        visited[cfg.entry() as int],
        forall|b: int, j: int|
            0 <= b < cfg.size() && visited[b] && 0 <= j < kid_table(cfg)[b].len() ==> visited[
            #[trigger] kid_table(cfg)[b][j] as int],
        is_walk(cfg, w),
    ensures
        visited[w.last() as int],
    decreases w.len(),
{
    let v = w.last();
    assert(cfg.is_block(w[w.len() - 1]));
    if v != cfg.entry() {
        assert(reaches(cfg, v));
        let a = lemma_has_immediate(cfg, v);
        assert(strictly(cfg, a, v));
        assert(w.contains(a));
        let j = choose|j: int| 0 <= j < w.len() && w[j] == a;
        assert(j < w.len() - 1);
        lemma_walk_prefix(cfg, w, j);
        lemma_walk_visited(cfg, visited, w.take(j + 1));
        assert(visited[a as int]);
        assert(is_idom(cfg, v, Some(a))) by {
            assert forall|b: i32| a < b implies !immediate(cfg, b, v) by {
                if immediate(cfg, b, v) {
                    lemma_immediate_unique(cfg, v, a, b);
                }
            }
        }
        lemma_kid_listed(cfg, a, v, cfg.size());
        let list = kid_table(cfg)[a as int];
        assert(list == kid_nums(cfg, a as int as i32, cfg.size()));
        let i = choose|i: int| 0 <= i < list.len() && list[i] == v;
        assert(visited[kid_table(cfg)[a as int][i] as int]);
    }
}

/// The renaming renames every block that the entry reaches.
pub proof fn lemma_reached_renamed(cfg: Cfg, params: Seq<Seq<char>>, v: i32)
    requires
        cfg.wf(),
        cfg.size() > 0,
        reaches(cfg, v),
    ensures
        cfg.is_block(v),
        renamed(cfg, params).visited[v as int],
{
    let n = cfg.size();
    let st = start_state(bodies_of(cfg), placed_phis(cfg, params.to_set()), params, cfg.entry());
    let end = renamed(cfg, params);
    lemma_entry_reaches(cfg);
    lemma_finish_grown(st, cfg.succ_lists(), kid_table(cfg), n);
    lemma_finish_visits(st, cfg.succ_lists(), kid_table(cfg), n);
    assert(visits(st.work[0], cfg.entry() as int));
    assert(end.visited[cfg.entry() as int]);
    assert forall|b: int, j: int|
        0 <= b < n && end.visited[b] && 0 <= j < kid_table(cfg)[b].len() implies end.visited[
    #[trigger] kid_table(cfg)[b][j] as int] by {
        lemma_kids_are_blocks(cfg, b as i32, n, j);
        assert(!st.visited[b]);
    }
    let w = choose|w: Seq<i32>| is_walk(cfg, w) && w.last() == v;
    assert(cfg.is_block(w[w.len() - 1]));
    lemma_walk_visited(cfg, end.visited, w);
}

/// In the renamed blocks, every destination is a name that the renaming
/// made, and no two definitions have the same destination, as long as no
/// counter reaches the greatest number.
pub proof fn lemma_renamed_names(cfg: Cfg, params: Seq<Seq<char>>)
    requires
        unsaturated(renamed(cfg, params).counters),
    ensures
        shaped(renamed(cfg, params), cfg.size()),
        names_made(renamed(cfg, params)),
        names_differ(renamed(cfg, params)),
{
    let n = cfg.size();
    let st = start_state(bodies_of(cfg), placed_phis(cfg, params.to_set()), params, cfg.entry());
    lemma_finish_grown(st, cfg.succ_lists(), kid_table(cfg), n);
    lemma_finish_named(st, cfg.succ_lists(), kid_table(cfg), n);
}


/// The number of items among the first `k` that define the variable `x`.
pub open spec fn def_count(code: Seq<CodeView>, x: Seq<char>, k: nat) -> nat
    decreases k,
{
    if k == 0 {
        0
    } else {
        def_count(code, x, (k - 1) as nat) + if dest_of(code[k - 1]) == Some(x) {
            1nat
        } else {
            0nat
        }
    }
}

/// The number of items that define the variable `x`.
pub open spec fn defs_of(code: Seq<CodeView>, x: Seq<char>) -> nat {
    def_count(code, x, code.len())
}

/// The count among the first items depends on those items alone.
pub proof fn lemma_count_prefix(a: Seq<CodeView>, b: Seq<CodeView>, x: Seq<char>, k: nat)
    requires
        k <= a.len(),
        k <= b.len(),
        forall|i: int| 0 <= i < k ==> a[i] == b[i],
    ensures
        def_count(a, x, k) == def_count(b, x, k),
    decreases k,
{
    if k > 0 {
        lemma_count_prefix(a, b, x, (k - 1) as nat);
    }
}

/// The count of two bodies, one after the other, is the sum of their
/// counts.
pub proof fn lemma_count_concat(a: Seq<CodeView>, b: Seq<CodeView>, x: Seq<char>, k: nat)
    requires
        k <= b.len(),
    ensures
        def_count(a + b, x, a.len() + k) == defs_of(a, x) + def_count(b, x, k),
    decreases k,
{
    if k == 0 {
        lemma_count_prefix(a + b, a, x, a.len());
    } else {
        lemma_count_concat(a, b, x, (k - 1) as nat);
        assert((a + b)[a.len() + k - 1] == b[k - 1]);
    }
}

/// The count of a body that ends with an item.
pub proof fn lemma_count_push(a: Seq<CodeView>, item: CodeView, x: Seq<char>)
    ensures
        defs_of(a.push(item), x) == defs_of(a, x) + if dest_of(item) == Some(x) {
            1nat
        } else {
            0nat
        },
{
    lemma_count_prefix(a.push(item), a, x, a.len());
}

/// A variable that is counted is the destination of an item.
pub proof fn lemma_counted_site(code: Seq<CodeView>, x: Seq<char>, k: nat) -> (i: int)
    requires
        k <= code.len(),
        def_count(code, x, k) >= 1,
    ensures
        0 <= i < k,
        dest_of(code[i]) == Some(x),
    decreases k,
{
    if dest_of(code[k - 1]) == Some(x) {
        k - 1
    } else {
        lemma_counted_site(code, x, (k - 1) as nat)
    }
}

/// A variable that is counted twice is the destination of two items.
pub proof fn lemma_counted_twice(code: Seq<CodeView>, x: Seq<char>, k: nat) -> (sites: (int, int))
    requires
        k <= code.len(),
        def_count(code, x, k) >= 2,
    ensures
        0 <= sites.0 < sites.1 < k,
        dest_of(code[sites.0]) == Some(x),
        dest_of(code[sites.1]) == Some(x),
    decreases k,
{
    if dest_of(code[k - 1]) == Some(x) {
        let i = lemma_counted_site(code, x, (k - 1) as nat);
        (i, k - 1)
    } else {
        lemma_counted_twice(code, x, (k - 1) as nat)
    }
}

/// Whether no two items of the blocks of a table define the same variable.
pub open spec fn sites_differ(table: Seq<Seq<CodeView>>) -> bool {
    forall|b1: int, i1: int, b2: int, i2: int|
        0 <= b1 < table.len() && 0 <= i1 < table[b1].len() && 0 <= b2 < table.len() && 0 <= i2
            < table[b2].len() && (b1 != b2 || i1 != i2) && dest_of(#[trigger] table[b1][i1])
            is Some ==> dest_of(table[b1][i1]) != dest_of(#[trigger] table[b2][i2])
}

/// The number of definitions of `x` in the blocks of the first `p` entries.
pub open spec fn table_defs(
    entries: Seq<(i32, Seq<CodeView>)>,
    table: Seq<Seq<CodeView>>,
    x: Seq<char>,
    p: nat,
) -> nat
    decreases p,
{
    if p == 0 {
        0
    } else {
        let num = entries[p - 1].0;
        table_defs(entries, table, x, (p - 1) as nat) + if 0 <= num < table.len() {
            defs_of(table[num as int], x)
        } else {
            0
        }
    }
}

/// A variable that is counted in the blocks of entries is defined in the
/// block of one of them.
pub proof fn lemma_table_site(
    entries: Seq<(i32, Seq<CodeView>)>,
    table: Seq<Seq<CodeView>>,
    x: Seq<char>,
    p: nat,
) -> (q: int)
    requires
        p <= entries.len(),
        table_defs(entries, table, x, p) >= 1,
    ensures
        0 <= q < p,
        0 <= entries[q].0 < table.len(),
        defs_of(table[entries[q].0 as int], x) >= 1,
    decreases p,
{
    let num = entries[p - 1].0;
    if 0 <= num < table.len() && defs_of(table[num as int], x) >= 1 {
        p - 1
    } else {
        lemma_table_site(entries, table, x, (p - 1) as nat)
    }
}

/// Where no two items of the blocks define the same variable, no variable
/// is defined more than once in the blocks of entries with distinct
/// numbers.
pub proof fn lemma_table_single(
    entries: Seq<(i32, Seq<CodeView>)>,
    table: Seq<Seq<CodeView>>,
    x: Seq<char>,
    p: nat,
)
    requires
        p <= entries.len(),
        distinct_keys(entries),
        sites_differ(table),
    ensures
        table_defs(entries, table, x, p) <= 1,
    decreases p,
{
    if p > 0 {
        lemma_table_single(entries, table, x, (p - 1) as nat);
        let num = entries[p - 1].0;
        if 0 <= num < table.len() {
            let block = table[num as int];
            if defs_of(block, x) >= 2 {
                let (i, j) = lemma_counted_twice(block, x, block.len());
                assert(dest_of(table[num as int][i]) != dest_of(table[num as int][j]));
            }
            if defs_of(block, x) >= 1 && table_defs(entries, table, x, (p - 1) as nat) >= 1 {
                let q = lemma_table_site(entries, table, x, (p - 1) as nat);
                let other = entries[q].0;
                assert(entries[q].0 != entries[p - 1].0);
                let i = lemma_counted_site(block, x, block.len());
                let j = lemma_counted_site(table[other as int], x, table[other as int].len());
                assert(dest_of(table[num as int][i]) != dest_of(table[other as int][j]));
            }
        }
    }
}

/// The definitions of a laid-out body are those of the blocks of its
/// entries.
pub proof fn lemma_laid_out_defs(
    entries: Seq<(i32, Seq<CodeView>)>,
    pairs: Map<i32, Seq<char>>,
    table: Seq<Seq<CodeView>>,
    x: Seq<char>,
    p: nat,
)
    requires
        p <= entries.len(),
    ensures
        defs_of(laid_out(entries.take(p as int), pairs, table), x) == table_defs(
            entries,
            table,
            x,
            p,
        ),
    decreases p,
{
    if p > 0 {
        lemma_laid_out_defs(entries, pairs, table, x, (p - 1) as nat);
        let front = entries.take(p as int).drop_last();
        assert(front =~= entries.take(p - 1));
        assert(entries.take(p as int).last() == entries[p - 1]);
        let num = entries[p - 1].0;
        let head = laid_out(front, pairs, table);
        let label = CodeView::Label { label: label_name(pairs, num) };
        let block = if 0 <= num < table.len() {
            table[num as int]
        } else {
            Seq::empty()
        };
        lemma_count_push(head, label, x);
        lemma_count_concat(head.push(label), block, x, block.len());
    } else {
        assert(entries.take(0) =~= Seq::<(i32, Seq<CodeView>)>::empty());
    }
}

/// In a state in which every block is renamed and the names differ, no two
/// items of the blocks, with their phi instructions before them, define the
/// same variable.
pub proof fn lemma_sites_differ(st: RenameState, pairs: Map<i32, Seq<char>>, n: nat)
    requires
        shaped(st, n),
        names_differ(st),
        forall|b: int| 0 <= b < n ==> st.visited[b],
    ensures
        sites_differ(with_phis(st.bodies, st.phis, pairs)),
{
    let table = with_phis(st.bodies, st.phis, pairs);
    assert forall|b1: int, i1: int, b2: int, i2: int|
        0 <= b1 < table.len() && 0 <= i1 < table[b1].len() && 0 <= b2 < table.len() && 0 <= i2
            < table[b2].len() && (b1 != b2 || i1 != i2) && dest_of(#[trigger] table[b1][i1])
            is Some implies dest_of(table[b1][i1]) != dest_of(#[trigger] table[b2][i2]) by {
        let len1 = st.phis[b1].len() as int;
        let len2 = st.phis[b2].len() as int;
        let list1 = phi_instrs(st.phis[b1], pairs);
        let list2 = phi_instrs(st.phis[b2], pairs);
        assert(table[b1] == list1 + st.bodies[b1]);
        assert(table[b2] == list2 + st.bodies[b2]);
        if i1 < len1 {
            let k1 = len1 - 1 - i1;
            assert(table[b1][i1] == phi_instr(st.phis[b1][k1], pairs));
            if i2 < len2 {
                let k2 = len2 - 1 - i2;
                assert(table[b2][i2] == phi_instr(st.phis[b2][k2], pairs));
                assert(st.phis[b1][k1].dest != st.phis[b2][k2].dest);
            } else {
                assert(table[b2][i2] == st.bodies[b2][i2 - len2]);
                assert(dest_of(st.bodies[b2][i2 - len2]) != Some(st.phis[b1][k1].dest));
            }
        } else {
            assert(table[b1][i1] == st.bodies[b1][i1 - len1]);
            if i2 < len2 {
                let k2 = len2 - 1 - i2;
                assert(table[b2][i2] == phi_instr(st.phis[b2][k2], pairs));
                assert(dest_of(st.bodies[b1][i1 - len1]) != Some(st.phis[b2][k2].dest));
            } else {
                assert(table[b2][i2] == st.bodies[b2][i2 - len2]);
                assert(dest_of(st.bodies[b1][i1 - len1]) != dest_of(st.bodies[b2][i2 - len2]));
            }
        }
    }
}

/// The global sweep adds no definition.
pub proof fn lemma_global_defs(code: Seq<CodeView>, used: Set<Seq<char>>, x: Seq<char>)
    ensures
        defs_of(without_unused(code, used), x) <= defs_of(code, x),
    decreases code.len(),
{
    if code.len() > 0 {
        let front = code.drop_last();
        lemma_global_defs(front, used, x);
        assert(code =~= front.push(code.last()));
        lemma_count_push(front, code.last(), x);
        if !is_unused_def(code.last(), used) {
            lemma_count_push(without_unused(front, used), code.last(), x);
        }
    }
}

/// The local sweep of a block adds no definition.
pub proof fn lemma_unkilled_defs(b: Seq<CodeView>, i: nat, x: Seq<char>)
    requires
        i <= b.len(),
    ensures
        defs_of(unkilled(b, i), x) <= def_count(b, x, i),
    decreases i,
{
    if i > 0 {
        lemma_unkilled_defs(b, (i - 1) as nat, x);
        if !killed(b, i - 1) {
            lemma_count_push(unkilled(b, (i - 1) as nat), b[i - 1], x);
        }
    }
}

/// The number of definitions of `x` in the first `k` blocks.
pub open spec fn blocks_defs(blocks: Seq<Seq<CodeView>>, x: Seq<char>, k: nat) -> nat
    decreases k,
{
    if k == 0 {
        0
    } else {
        blocks_defs(blocks, x, (k - 1) as nat) + defs_of(blocks[k - 1], x)
    }
}

/// The definitions of blocks laid end to end are those of the blocks.
pub proof fn lemma_flat_defs(blocks: Seq<Seq<CodeView>>, x: Seq<char>, k: nat)
    requires
        k <= blocks.len(),
    ensures
        defs_of(flat(blocks.take(k as int)), x) == blocks_defs(blocks, x, k),
    decreases k,
{
    if k == 0 {
        assert(blocks.take(0) =~= Seq::<Seq<CodeView>>::empty());
    } else {
        lemma_flat_defs(blocks, x, (k - 1) as nat);
        assert(blocks.take(k as int).drop_last() =~= blocks.take(k - 1));
        assert(blocks.take(k as int).last() == blocks[k - 1]);
        lemma_count_concat(flat(blocks.take(k - 1)), blocks[k - 1], x, blocks[k - 1].len());
    }
}

/// The local sweep of blocks adds no definition.
pub proof fn lemma_swept_blocks_defs(all: Seq<Seq<CodeView>>, x: Seq<char>, k: nat)
    requires
        k <= all.len(),
    ensures
        blocks_defs(all.map_values(|b: Seq<CodeView>| unkilled(b, b.len())), x, k) <= blocks_defs(
            all,
            x,
            k,
        ),
    decreases k,
{
    if k > 0 {
        lemma_swept_blocks_defs(all, x, (k - 1) as nat);
        lemma_unkilled_defs(all[k - 1], all[k - 1].len(), x);
    }
}

/// The local sweep adds no definition.
pub proof fn lemma_local_defs(code: Seq<CodeView>, x: Seq<char>)
    ensures
        defs_of(local_swept(code), x) <= defs_of(code, x),
{
    let all = blocks_of(code);
    let swept = all.map_values(|b: Seq<CodeView>| unkilled(b, b.len()));
    lemma_blocks_partition(code);
    lemma_flat_defs(all, x, all.len());
    lemma_flat_defs(swept, x, swept.len());
    assert(all.take(all.len() as int) =~= all);
    assert(swept.take(swept.len() as int) =~= swept);
    lemma_swept_blocks_defs(all, x, all.len());
}

/// Elimination adds no definition.
pub proof fn lemma_dce_defs(code: Seq<CodeView>, x: Seq<char>, n: nat)
    ensures
        defs_of(dce_rounds(code, n), x) <= defs_of(code, x),
    decreases n,
{
    if n > 0 {
        lemma_global_defs(code, used_args(code), x);
        lemma_local_defs(code, x);
        lemma_dce_defs(dce_step(code), x, (n - 1) as nat);
    }
}

/// Single definition: in the body that the conversion into static single
/// assignment form makes of a graph in which the entry reaches every block,
/// no variable is the destination of more than one instruction, phi
/// instructions counted, as long as no counter of the renaming reaches the
/// greatest number.
pub proof fn lemma_single_definition(cfg: Cfg, params: Seq<Seq<char>>, x: Seq<char>)
    requires
        cfg.wf(),
        forall|b: i32| cfg.is_block(b) ==> reaches(cfg, b),
        unsaturated(renamed(cfg, params).counters),
    ensures
        defs_of(ssa_body(cfg, params), x) <= 1,
        defs_of(dce_body(ssa_body(cfg, params)), x) <= 1,
{
    let body = ssa_body(cfg, params);
    if cfg.size() > 0 {
        let end = renamed(cfg, params);
        let n = cfg.size();
        lemma_renamed_names(cfg, params);
        assert forall|b: int| 0 <= b < n implies end.visited[b] by {
            assert(cfg.is_block(b as i32));
            lemma_reached_renamed(cfg, params, b as i32);
        }
        lemma_sites_differ(end, cfg.labels(), n);
        let table = with_phis(end.bodies, end.phis, cfg.labels());
        lemma_table_single(cfg.entries(), table, x, n);
        lemma_laid_out_defs(cfg.entries(), cfg.labels(), table, x, n);
        assert(cfg.entries().take(n as int) =~= cfg.entries());
    }
    lemma_dce_defs(body, x, body.len());
}


/// Whether every name on the stacks has the property.
pub open spec fn stacks_hold(
    stacks: Map<Seq<char>, Seq<Seq<char>>>,
    p: spec_fn(Seq<char>) -> bool,
) -> bool {
    forall|v: Seq<char>, k: int|
        stacks.contains_key(v) && 0 <= k < stacks[v].len() ==> p(#[trigger] stacks[v][k])
}

/// Whether a name is the destination of one of the first `k` items.
pub open spec fn named_before(items: Seq<CodeView>, k: int, x: Seq<char>) -> bool {
    exists|j: int| 0 <= j < k && j < items.len() && dest_of(#[trigger] items[j]) == Some(x)
}

/// Whether a name is the destination of one of the phi nodes.
pub open spec fn named_by_phi(phis: Seq<PhiView>, x: Seq<char>) -> bool {
    exists|j: int| 0 <= j < phis.len() && (#[trigger] phis[j]).dest == x
}

/// Whether every name on the stacks has the property or is the destination
/// of one of the first `k` items.
pub open spec fn stacks_from_items(
    stacks: Map<Seq<char>, Seq<Seq<char>>>,
    p: spec_fn(Seq<char>) -> bool,
    items: Seq<CodeView>,
    k: int,
) -> bool {
    forall|v: Seq<char>, j: int|
        stacks.contains_key(v) && 0 <= j < stacks[v].len() ==> p(#[trigger] stacks[v][j])
            || named_before(items, k, stacks[v][j])
}

/// Whether every name on the stacks has the property or is the destination
/// of one of the phi nodes.
pub open spec fn stacks_from_phis(
    stacks: Map<Seq<char>, Seq<Seq<char>>>,
    p: spec_fn(Seq<char>) -> bool,
    phis: Seq<PhiView>,
) -> bool {
    forall|v: Seq<char>, j: int|
        stacks.contains_key(v) && 0 <= j < stacks[v].len() ==> p(#[trigger] stacks[v][j])
            || named_by_phi(phis, stacks[v][j])
}

/// What holds of the uses in the items that renaming made of the first `k`
/// items of a block: every name on the stacks after it was on the stacks
/// before it or is the destination of one of the items; and every argument
/// of an item is the argument it was, or was on the stacks before, or is the
/// destination of an earlier item.
pub open spec fn items_used(
    body: Seq<CodeView>,
    k: nat,
    r: RenamedItems,
    p: spec_fn(Seq<char>) -> bool,
) -> bool {
    &&& r.items.len() == k
    &&& stacks_from_items(r.stacks, p, r.items, k as int)
    &&& forall|i: int, a: int|
        0 <= i < k && 0 <= a < args_of(r.items[i]).len() ==> #[trigger] arg_used(
            body,
            r.items,
            p,
            i,
            a,
        )
}

/// Whether argument `a` of item `i` is the argument it was, or has the
/// property, or is the destination of an earlier item.
pub open spec fn arg_used(
    body: Seq<CodeView>,
    items: Seq<CodeView>,
    p: spec_fn(Seq<char>) -> bool,
    i: int,
    a: int,
) -> bool {
    let x = args_of(items[i])[a];
    &&& args_of(items[i]).len() == args_of(body[i]).len()
    &&& (x == args_of(body[i])[a] || p(x) || named_before(items, i, x))
}

/// The uses in the renamed items of a block go by names that were current
/// when the block was entered, or by names that earlier items of the block
/// define.
pub proof fn lemma_items_used(
    body: Seq<CodeView>,
    k: nat,
    stacks: Map<Seq<char>, Seq<Seq<char>>>,
    counters: Map<Seq<char>, u64>,
    p: spec_fn(Seq<char>) -> bool,
)
    requires
        k <= body.len(),
        stacks_hold(stacks, p),
    ensures
        items_used(body, k, rename_items(body, k, stacks, counters), p),
    decreases k,
{
    let now = rename_items(body, k, stacks, counters);
    if k > 0 {
        lemma_items_used(body, (k - 1) as nat, stacks, counters, p);
        let r = rename_items(body, (k - 1) as nat, stacks, counters);
        assert forall|i: int| 0 <= i < k - 1 implies now.items[i] == r.items[i] by {}
        // a name that an item before the last defines is still defined by it
        assert forall|y: Seq<char>, m: int|
            0 <= m <= k - 1 && #[trigger] named_before(r.items, m, y) implies named_before(
            now.items,
            m,
            y,
        ) by {
            let j = choose|j: int|
                0 <= j < m && j < r.items.len() && dest_of(#[trigger] r.items[j]) == Some(y);
            assert(dest_of(now.items[j]) == Some(y));
        }
        assert forall|v: Seq<char>, j: int|
            now.stacks.contains_key(v) && 0 <= j < now.stacks[v].len() implies p(
            #[trigger] now.stacks[v][j],
        ) || named_before(now.items, k as int, now.stacks[v][j]) by {
            let y = now.stacks[v][j];
            let last = dest_of(now.items[k - 1]);
            if r.stacks.contains_key(v) && j < r.stacks[v].len() && r.stacks[v][j] == y {
                if !p(y) {
                    assert(named_before(r.items, k - 1, y));
                    let m = choose|m: int|
                        0 <= m < k - 1 && m < r.items.len() && dest_of(#[trigger] r.items[m])
                            == Some(y);
                    assert(dest_of(now.items[m]) == Some(y));
                }
            } else {
                assert(last == Some(y));
            }
        }
        assert forall|i: int, a: int|
            0 <= i < k && 0 <= a < args_of(now.items[i]).len() implies #[trigger] arg_used(
            body,
            now.items,
            p,
            i,
            a,
        ) by {
            let x = args_of(now.items[i])[a];
            if i < k - 1 {
                assert(now.items[i] == r.items[i]);
                assert(arg_used(body, r.items, p, i, a));
                if named_before(r.items, i, x) {
                    assert(named_before(now.items, i, x));
                }
            } else {
                match body[k - 1] {
                    CodeView::Label { .. } => {},
                    CodeView::Instruction(instr) => {
                        let old_arg = args_of(body[k - 1])[a];
                        assert(args_of(now.items[k - 1]) == current_names(
                            r.stacks,
                            args_of(body[k - 1]),
                        ));
                        if top_of(r.stacks, old_arg) is Some {
                            assert(r.stacks.contains_key(old_arg));
                            let top = r.stacks[old_arg][r.stacks[old_arg].len() - 1];
                            assert(x == top);
                            if !p(x) {
                                assert(named_before(r.items, k - 1, x));
                                assert(named_before(now.items, k - 1, x));
                            }
                        }
                    },
                }
            }
        }
        assert(now.items.len() == k);
        assert(stacks_from_items(now.stacks, p, now.items, k as int));
        assert(items_used(body, k, now, p));
    } else {
        assert forall|v: Seq<char>, j: int|
            now.stacks.contains_key(v) && 0 <= j < now.stacks[v].len() implies p(
            #[trigger] now.stacks[v][j],
        ) || named_before(now.items, 0, now.stacks[v][j]) by {
            assert(p(stacks[v][j]));
        }
        assert(items_used(body, k, now, p));
    }
}

/// The names on the stacks after the phi nodes of a block were renamed
/// were on the stacks before, or are destinations of the phi nodes; and the
/// phi nodes keep their arguments.
pub proof fn lemma_phis_used(
    phis: Seq<PhiView>,
    k: nat,
    stacks: Map<Seq<char>, Seq<Seq<char>>>,
    counters: Map<Seq<char>, u64>,
    p: spec_fn(Seq<char>) -> bool,
)
    requires
        k <= phis.len(),
        stacks_hold(stacks, p),
    ensures
        rename_phis(phis, k, stacks, counters).items.len() == k,
        forall|i: int|
            0 <= i < k ==> (#[trigger] rename_phis(phis, k, stacks, counters).items[i]).vars
                == phis[i].vars && rename_phis(phis, k, stacks, counters).items[i].labels
                == phis[i].labels,
        stacks_from_phis(
            rename_phis(phis, k, stacks, counters).stacks,
            p,
            rename_phis(phis, k, stacks, counters).items,
        ),
    decreases k,
{
    let now = rename_phis(phis, k, stacks, counters);
    if k > 0 {
        lemma_phis_used(phis, (k - 1) as nat, stacks, counters, p);
        let r = rename_phis(phis, (k - 1) as nat, stacks, counters);
        assert forall|i: int| 0 <= i < k - 1 implies now.items[i] == r.items[i] by {}
        assert forall|v: Seq<char>, j: int|
            now.stacks.contains_key(v) && 0 <= j < now.stacks[v].len() implies p(
            #[trigger] now.stacks[v][j],
        ) || named_by_phi(now.items, now.stacks[v][j]) by {
            let y = now.stacks[v][j];
            if r.stacks.contains_key(v) && j < r.stacks[v].len() && r.stacks[v][j] == y {
                if !p(y) {
                    assert(named_by_phi(r.items, y));
                    let i = choose|i: int| 0 <= i < r.items.len() && (#[trigger] r.items[i]).dest == y;
                    assert(now.items[i].dest == y);
                }
            } else {
                assert(now.items[k - 1].dest == y);
            }
        }
        assert forall|i: int| 0 <= i < k implies (#[trigger] now.items[i]).vars == phis[i].vars
            && now.items[i].labels == phis[i].labels by {
            if i < k - 1 {
                assert(now.items[i] == r.items[i]);
            }
        }
    }
}

} // verus!
