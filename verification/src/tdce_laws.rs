//! Laws of dead-code elimination: a sweep leaves out definitions whose
//! values nothing reads, and the program that lacks them runs as the
//! program with them does.
use crate::cfg::{closed, jump_labels};
use crate::df::{args_of, dest_of};
use crate::form_blocks::{
    blocks_of, ends_block, flat, is_label, lemma_blocks_partition, lemma_scan, scan, well_shaped,
};
use crate::interp::explicit::{runs_well, shown};
use crate::interp::machine::{started, Input};
use crate::interp::numify::{
    as_num, block_instrs, block_matches, block_named, ends_in_jump, ends_in_ret, function_table,
    instr_matches, is_numified, label_of, name_place, nums_match, value_op_named, var_num,
    with_item, with_var, with_vars,
};
use crate::interp::ops::is_pure;
use crate::interp::program::{BBFunction, BBProgram, BasicBlock, Instr, ValueOp};
use crate::interp::thinned::{
    block_thin, dies_at, function_thin, gone, instr_of, kept_before, labels_same,
    lemma_kept_before, lemma_run_thin, lemma_start_thin, may_go, never_collects, never_read,
    nums_thin, place, plain, program_thin, reads, run_thin, thin_instr, will_die, writes, Thin,
};
use crate::ir::{codes, CodeView, Function, InstrView, Program, Type};
use crate::roundtrip::{
    flat_upto, instr_at, lemma_block_instrs_stripped, lemma_flat_upto, lemma_named_at,
    lemma_named_none, lemma_scan_run, lemma_var_table_is, made_ready, stripped, tabled,
};
use crate::ssa::param_names;
use crate::tdce::{
    dce_body, dce_rounds, dce_step, global_swept, is_clean, is_unused_def, killed, kills,
    lemma_flat_swept, lemma_rounds_add, lemma_rounds_clean, lemma_without_unused_len,
    local_swept, unkilled, used_args, without_unused,
};
use vstd::prelude::*;
use vstd::string::*;

verus! {

/// The items among the first `i` of a block that are kept, in order.
pub open spec fn picked(b: Seq<CodeView>, flags: Seq<bool>, i: nat) -> Seq<CodeView>
    decreases i,
{
    if i == 0 {
        Seq::empty()
    } else {
        let r = picked(b, flags, (i - 1) as nat);
        if flags[i - 1] {
            r.push(b[i - 1])
        } else {
            r
        }
    }
}

/// The blocks, each with the items that are kept.
pub open spec fn thinned(bs: Seq<Seq<CodeView>>, flags: Seq<Seq<bool>>) -> Seq<Seq<CodeView>> {
    Seq::new(bs.len(), |k: int| picked(bs[k], flags[k], bs[k].len()))
}

/// The blocks among the first `k` that hold an item, in order.
pub open spec fn solid(ts: Seq<Seq<CodeView>>, k: nat) -> Seq<Seq<CodeView>>
    decreases k,
{
    if k == 0 {
        Seq::empty()
    } else {
        let r = solid(ts, (k - 1) as nat);
        if ts[k - 1].len() > 0 {
            r.push(ts[k - 1])
        } else {
            r
        }
    }
}

/// Whether the flags say of every item of every block whether it is kept,
/// and every item that is not kept is an instruction with a destination
/// that is no terminator.
pub open spec fn flags_fit(bs: Seq<Seq<CodeView>>, flags: Seq<Seq<bool>>) -> bool {
    &&& flags.len() == bs.len()
    &&& forall|k: int| 0 <= k < bs.len() ==> (#[trigger] flags[k]).len() == bs[k].len()
    &&& forall|k: int, i: int|
        0 <= k < bs.len() && 0 <= i < bs[k].len() && !flags[k][i] ==> dest_of(
            #[trigger] bs[k][i],
        ) is Some && !ends_block(bs[k][i])
}

/// Whether the kept item `i` of the block stands at its place among the
/// kept items.
pub open spec fn picked_at(b: Seq<CodeView>, flags: Seq<bool>, n: nat, i: int) -> bool {
    0 <= kept_before(flags, i) < picked(b, flags, n).len() && picked(b, flags, n)[kept_before(
        flags,
        i,
    )] == b[i]
}

/// Whether the kept item at place `j` is item `i` of the block.
pub open spec fn picked_from(b: Seq<CodeView>, flags: Seq<bool>, n: nat, j: int, i: int) -> bool {
    0 <= i < n && flags[i] && kept_before(flags, i) == j && picked(b, flags, n)[j] == b[i]
}

/// Whether the kept item at place `j` is an item of the block.
pub open spec fn has_source(b: Seq<CodeView>, flags: Seq<bool>, n: nat, j: int) -> bool {
    exists|i: int| #[trigger] picked_from(b, flags, n, j, i)
}

/// The kept items of a block stand in the order of the block, each at the
/// place that the number of kept items before it gives.
pub proof fn lemma_picked(b: Seq<CodeView>, flags: Seq<bool>, n: nat)
    requires
        n <= b.len(),
        flags.len() == b.len(),
    ensures
        picked(b, flags, n).len() == kept_before(flags, n as int),
        forall|i: int| 0 <= i < n && flags[i] ==> #[trigger] picked_at(b, flags, n, i),
        forall|j: int| 0 <= j < picked(b, flags, n).len() ==> #[trigger] has_source(b, flags, n, j),
    decreases n,
{
    if n > 0 {
        let m = (n - 1) as nat;
        lemma_picked(b, flags, m);
        let prev = picked(b, flags, m);
        let now = picked(b, flags, n);
        assert(kept_before(flags, n as int) == kept_before(flags, n - 1) + if flags[n - 1] {
            1int
        } else {
            0int
        });
        assert forall|i: int| 0 <= i < n && flags[i] implies #[trigger] picked_at(
            b,
            flags,
            n,
            i,
        ) by {
            if i < n - 1 {
                assert(picked_at(b, flags, m, i));
                assert(now[kept_before(flags, i)] == prev[kept_before(flags, i)]);
            } else {
                assert(now[prev.len() as int] == b[n - 1]);
            }
        }
        assert forall|j: int| 0 <= j < now.len() implies #[trigger] has_source(b, flags, n, j) by {
            if j < prev.len() {
                assert(has_source(b, flags, m, j));
                let i = choose|i: int| #[trigger] picked_from(b, flags, m, j, i);
                assert(now[j] == prev[j]);
                assert(picked_from(b, flags, n, j, i));
            } else {
                assert(now[j] == b[n - 1]);
                assert(picked_from(b, flags, n, j, n - 1));
            }
        }
    }
}

/// The kept items of a well-shaped block make a well-shaped block, unless
/// none is kept; a label at the start and a terminator at the end stay.
pub proof fn lemma_picked_shape(b: Seq<CodeView>, flags: Seq<bool>)
    requires
        well_shaped(b),
        flags.len() == b.len(),
        forall|i: int|
            0 <= i < b.len() && !flags[i] ==> dest_of(#[trigger] b[i]) is Some && !ends_block(b[i]),
    ensures
        picked(b, flags, b.len()).len() == 0 || well_shaped(picked(b, flags, b.len())),
        is_label(b[0]) ==> picked(b, flags, b.len()).len() > 0 && picked(b, flags, b.len())[0]
            == b[0],
        !is_label(b[0]) && picked(b, flags, b.len()).len() > 0 ==> !is_label(
            picked(b, flags, b.len())[0],
        ),
        closed(b) ==> closed(picked(b, flags, b.len())) && picked(b, flags, b.len()).last()
            == b.last(),
        !closed(b) && picked(b, flags, b.len()).len() > 0 ==> !closed(picked(b, flags, b.len())),
{
    let n = b.len();
    let r = picked(b, flags, n);
    lemma_picked(b, flags, n);
    crate::interp::thinned::lemma_kept_before(flags, 0, n as int);
    if is_label(b[0]) {
        assert(flags[0]);
        assert(kept_before(flags, 0) == 0);
        assert(picked_at(b, flags, n, 0));
    }
    if closed(b) {
        assert(flags[n - 1]);
        crate::interp::thinned::lemma_kept_before(flags, n - 1, n as int);
        assert(kept_before(flags, n as int) == kept_before(flags, n - 1) + 1);
        assert(picked_at(b, flags, n, n - 1));
    }
    if r.len() > 0 {
        assert forall|j: int| 0 < j < r.len() implies !is_label(#[trigger] r[j]) by {
            assert(has_source(b, flags, n, j));
            let i = choose|i: int| #[trigger] picked_from(b, flags, n, j, i);
            if i == 0 {
                assert(kept_before(flags, 0) == 0);
            }
        }
        assert forall|j: int| 0 <= j < r.len() - 1 implies !ends_block(#[trigger] r[j]) by {
            assert(has_source(b, flags, n, j));
            let i = choose|i: int| #[trigger] picked_from(b, flags, n, j, i);
            if i == n - 1 {
                crate::interp::thinned::lemma_kept_before(flags, n - 1, n as int);
                assert(kept_before(flags, n as int) == kept_before(flags, n - 1) + 1);
            }
        }
        if !is_label(b[0]) {
            assert(has_source(b, flags, n, 0));
            let i = choose|i: int| #[trigger] picked_from(b, flags, n, 0, i);
            if i > 0 {
            }
        }
        if !closed(b) {
            assert(has_source(b, flags, n, r.len() - 1));
            let i = choose|i: int| #[trigger] picked_from(b, flags, n, r.len() - 1, i);
            if i < n - 1 {
            }
        }
    }
}

/// Whether every block after the first follows a block that ends with a
/// terminator, or starts with a label.
pub open spec fn adjacent(bs: Seq<Seq<CodeView>>) -> bool {
    forall|k: int| 0 < k < bs.len() ==> closed(bs[k - 1]) || is_label(#[trigger] bs[k][0])
}

/// In the scan of a body, every block follows a block that ends with a
/// terminator, or starts with a label; and so does the open block.
pub proof fn lemma_scan_adjacent(code: Seq<CodeView>)
    ensures
        adjacent(scan(code).0),
        scan(code).0.len() > 0 && scan(code).1.len() > 0 ==> closed(scan(code).0.last()) || is_label(
            scan(code).1[0],
        ),
    decreases code.len(),
{
    if code.len() > 0 {
        let prev = code.drop_last();
        lemma_scan_adjacent(prev);
        lemma_scan(prev);
        lemma_scan(code);
        let (done, cur) = scan(prev);
        let item = code.last();
        let (d2, c2) = scan(code);
        assert forall|k: int| 0 < k < d2.len() implies closed(d2[k - 1]) || is_label(
            #[trigger] d2[k][0],
        ) by {
            if k < done.len() {
                assert(d2[k] == done[k]);
                assert(d2[k - 1] == done[k - 1]);
            } else {
                assert(d2[k - 1] == done[k - 1]);
                if is_label(item) {
                    assert(d2[k] == cur);
                } else {
                    assert(d2[k] == cur.push(item));
                    if cur.len() == 0 {
                        if done.len() > 0 {
                            lemma_scan_closed(prev);
                        }
                    }
                }
            }
        }
        if d2.len() > 0 && c2.len() > 0 {
            if !is_label(item) {
                assert(c2 == cur.push(item));
                if cur.len() == 0 {
                    lemma_scan_closed(prev);
                }
            }
        }
    }
}

/// Where the scan of a body leaves no block open, the last block that it
/// emitted ends with a terminator.
pub proof fn lemma_scan_closed(code: Seq<CodeView>)
    ensures
        scan(code).1.len() == 0 && scan(code).0.len() > 0 ==> closed(scan(code).0.last()),
    decreases code.len(),
{
    if code.len() > 0 {
        lemma_scan_closed(code.drop_last());
        lemma_scan(code.drop_last());
    }
}

/// Every block of a body follows a block that ends with a terminator, or
/// starts with a label.
pub proof fn lemma_blocks_adjacent(code: Seq<CodeView>)
    ensures
        adjacent(blocks_of(code)),
{
    lemma_scan_adjacent(code);
    let (done, cur) = scan(code);
    let bs = blocks_of(code);
    assert forall|k: int| 0 < k < bs.len() implies closed(bs[k - 1]) || is_label(
        #[trigger] bs[k][0],
    ) by {
        if k < done.len() {
            assert(bs[k] == done[k]);
            assert(bs[k - 1] == done[k - 1]);
        }
    }
}


/// Whether every block that holds an item and does not start with a label
/// follows none that holds an item, or one whose last such ends with a
/// terminator.
pub open spec fn joined(ts: Seq<Seq<CodeView>>) -> bool {
    forall|i: int|
        0 <= i < ts.len() && (#[trigger] ts[i]).len() > 0 && !is_label(ts[i][0]) ==> solid(
            ts,
            i as nat,
        ).len() == 0 || closed(solid(ts, i as nat).last())
}

/// Whether every block holds no item or is well shaped.
pub open spec fn shaped(ts: Seq<Seq<CodeView>>) -> bool {
    forall|i: int| 0 <= i < ts.len() ==> (#[trigger] ts[i]).len() == 0 || well_shaped(ts[i])
}

/// The scan of the items of the first `k` blocks emits the blocks among
/// them that hold an item, but for the last if it does not end with a
/// terminator, which it leaves open.
pub proof fn lemma_scan_solid(ts: Seq<Seq<CodeView>>, k: nat)
    requires
        k <= ts.len(),
        shaped(ts),
        joined(ts),
    ensures
        scan(flat_upto(ts, k)).1.len() == 0 ==> scan(flat_upto(ts, k)).0 == solid(ts, k) && (solid(
            ts,
            k,
        ).len() == 0 || closed(solid(ts, k).last())),
        scan(flat_upto(ts, k)).1.len() > 0 ==> scan(flat_upto(ts, k)).0.push(
            scan(flat_upto(ts, k)).1,
        ) == solid(ts, k) && !closed(scan(flat_upto(ts, k)).1),
    decreases k,
{
    if k > 0 {
        lemma_scan_solid(ts, (k - 1) as nat);
        let code = flat_upto(ts, (k - 1) as nat);
        let (done, cur) = scan(code);
        let w = ts[k - 1];
        let before = solid(ts, (k - 1) as nat);
        if w.len() == 0 {
            assert(code + w =~= code);
        } else {
            assert(well_shaped(w));
            if is_label(w[0]) {
                let c1 = code.push(w[0]);
                assert(c1.drop_last() =~= code);
                let rest = w.drop_first();
                assert(c1 + rest =~= code + w);
                assert(scan(c1) == (before, seq![w[0]]));
                if closed(w) && rest.len() > 0 {
                    let mid = rest.drop_last();
                    assert forall|i: int| 0 <= i < mid.len() implies !is_label(#[trigger] mid[i])
                        && !ends_block(mid[i]) by {
                        assert(mid[i] == w[i + 1]);
                    }
                    lemma_scan_run(c1, mid);
                    assert((c1 + rest).drop_last() =~= c1 + mid);
                    assert((c1 + rest).last() == w[w.len() - 1]);
                    assert((seq![w[0]] + mid).push(w.last()) =~= w);
                } else {
                    assert forall|i: int| 0 <= i < rest.len() implies !is_label(
                        #[trigger] rest[i],
                    ) && !ends_block(rest[i]) by {
                        assert(rest[i] == w[i + 1]);
                    }
                    lemma_scan_run(c1, rest);
                    assert(seq![w[0]] + rest =~= w);
                }
            } else {
                assert(ts[k - 1].len() > 0 && !is_label(ts[k - 1][0]));
                assert(before.len() == 0 || closed(before.last()));
                if cur.len() > 0 {
                    assert(done.push(cur).last() == cur);
                }
                assert(cur.len() == 0);
                if closed(w) {
                    let mid = w.drop_last();
                    assert forall|i: int| 0 <= i < mid.len() implies !is_label(#[trigger] mid[i])
                        && !ends_block(mid[i]) by {
                        assert(mid[i] == w[i]);
                        if i > 0 {
                        }
                    }
                    lemma_scan_run(code, mid);
                    assert((code + w).drop_last() =~= code + mid);
                    assert((code + w).last() == w[w.len() - 1]);
                    assert((cur + mid).push(w.last()) =~= w);
                } else {
                    assert forall|i: int| 0 <= i < w.len() implies !is_label(#[trigger] w[i])
                        && !ends_block(w[i]) by {
                        if i > 0 {
                        }
                        if i < w.len() - 1 {
                        }
                    }
                    lemma_scan_run(code, w);
                    assert(cur + w =~= w);
                }
            }
        }
    }
}

/// The items of blocks that are well shaped and joined fall into the
/// blocks among them that hold an item.
pub proof fn lemma_blocks_of_solid(ts: Seq<Seq<CodeView>>)
    requires
        shaped(ts),
        joined(ts),
    ensures
        blocks_of(flat(ts)) == solid(ts, ts.len()),
{
    lemma_flat_upto(ts);
    lemma_scan_solid(ts, ts.len());
}

/// The blocks among the first `k` that are left when some items go hold
/// none, or end with a terminator, if the block before block `k` does.
pub proof fn lemma_solid_closed(bs: Seq<Seq<CodeView>>, flags: Seq<Seq<bool>>, k: nat)
    requires
        flags_fit(bs, flags),
        forall|i: int| 0 <= i < bs.len() ==> well_shaped(#[trigger] bs[i]),
        adjacent(bs),
        k <= bs.len(),
        k == 0 || closed(bs[k - 1]),
    ensures
        solid(thinned(bs, flags), k).len() == 0 || closed(solid(thinned(bs, flags), k).last()),
    decreases k,
{
    if k > 0 {
        let ts = thinned(bs, flags);
        let b = bs[k - 1];
        assert(well_shaped(b));
        assert forall|i: int| 0 <= i < b.len() && !flags[k - 1][i] implies dest_of(
            #[trigger] b[i],
        ) is Some && !ends_block(b[i]) by {
            assert(dest_of(bs[k - 1][i]) is Some);
        }
        lemma_picked_shape(b, flags[k - 1]);
        if ts[k - 1].len() == 0 {
            assert(!is_label(b[0]));
            if k - 1 > 0 {
                assert(closed(bs[k - 2]) || is_label(bs[k - 1][0]));
            }
            lemma_solid_closed(bs, flags, (k - 1) as nat);
        }
    }
}

/// The blocks that are left when some items go are well shaped and
/// joined.
pub proof fn lemma_thinned_joined(bs: Seq<Seq<CodeView>>, flags: Seq<Seq<bool>>)
    requires
        flags_fit(bs, flags),
        forall|i: int| 0 <= i < bs.len() ==> well_shaped(#[trigger] bs[i]),
        adjacent(bs),
    ensures
        shaped(thinned(bs, flags)),
        joined(thinned(bs, flags)),
{
    let ts = thinned(bs, flags);
    assert forall|i: int| 0 <= i < ts.len() implies (#[trigger] ts[i]).len() == 0 || well_shaped(
        ts[i],
    ) by {
        let b = bs[i];
        assert(well_shaped(b));
        assert forall|j: int| 0 <= j < b.len() && !flags[i][j] implies dest_of(#[trigger] b[j])
            is Some && !ends_block(b[j]) by {
            assert(dest_of(bs[i][j]) is Some);
        }
        lemma_picked_shape(b, flags[i]);
    }
    assert forall|i: int| 0 <= i < ts.len() && (#[trigger] ts[i]).len() > 0 && !is_label(
        ts[i][0],
    ) implies solid(ts, i as nat).len() == 0 || closed(solid(ts, i as nat).last()) by {
        let b = bs[i];
        assert(well_shaped(b));
        assert forall|j: int| 0 <= j < b.len() && !flags[i][j] implies dest_of(#[trigger] b[j])
            is Some && !ends_block(b[j]) by {
            assert(dest_of(bs[i][j]) is Some);
        }
        lemma_picked_shape(b, flags[i]);
        assert(!is_label(b[0]));
        if i > 0 {
            assert(closed(bs[i - 1]) || is_label(bs[i][0]));
        }
        lemma_solid_closed(bs, flags, i as nat);
    }
}


/// The place of a name in a table is the first place that holds it.
pub proof fn lemma_place_is(table: Seq<Seq<char>>, name: Seq<char>, k: nat)
    requires
        k <= table.len(),
    ensures
        match name_place(table, name, k) {
            Some(i) => 0 <= i < k && table[i] == name,
            None => forall|j: int| 0 <= j < k ==> #[trigger] table[j] != name,
        },
    decreases k,
{
    if k > 0 {
        lemma_place_is(table, name, (k - 1) as nat);
        if name_place(table, name, (k - 1) as nat) is None && table[k - 1] != name {
            assert forall|j: int| 0 <= j < k implies #[trigger] table[j] != name by {
                if j < k - 1 {
                }
            }
        }
    }
}

/// Whether no name stands twice in the table.
pub open spec fn no_dups(t: Seq<Seq<char>>) -> bool {
    forall|i: int, j: int| 0 <= i < t.len() && 0 <= j < t.len() && i != j ==> #[trigger] t[i]
        != #[trigger] t[j]
}

/// A table with a name added holds the name and all that it held, and no
/// name twice if it held none twice.
pub proof fn lemma_with_var(t: Seq<Seq<char>>, x: Seq<char>)
    ensures
        with_var(t, x).contains(x),
        forall|y: Seq<char>| t.contains(y) ==> #[trigger] with_var(t, x).contains(y),
        forall|y: Seq<char>| #[trigger] with_var(t, x).contains(y) ==> t.contains(y) || y == x,
        no_dups(t) ==> no_dups(with_var(t, x)),
        t.len() <= with_var(t, x).len(),
{
    lemma_place_is(t, x, t.len());
    let r = with_var(t, x);
    if var_num(t, x) is Some {
        let i = var_num(t, x)->0;
        assert(t[i] == x);
    } else {
        assert(r[t.len() as int] == x);
        assert forall|y: Seq<char>| t.contains(y) implies #[trigger] r.contains(y) by {
            let i = choose|i: int| 0 <= i < t.len() && t[i] == y;
            assert(r[i] == y);
        }
        assert forall|y: Seq<char>| #[trigger] r.contains(y) implies t.contains(y) || y == x by {
            let i = choose|i: int| 0 <= i < r.len() && r[i] == y;
            if i < t.len() {
                assert(t[i] == y);
            }
        }
        if no_dups(t) {
            assert forall|i: int, j: int|
                0 <= i < r.len() && 0 <= j < r.len() && i != j implies #[trigger] r[i]
                != #[trigger] r[j] by {
                if i < t.len() && j < t.len() {
                    assert(t[i] != t[j]);
                } else if i < t.len() {
                    assert(t[i] != x);
                } else {
                    assert(t[j] != x);
                }
            }
        }
    }
}

/// A table with names added holds those names and all that it held, and
/// no others; and no name twice if it held none twice.
pub proof fn lemma_with_vars(t: Seq<Seq<char>>, list: Seq<Seq<char>>, k: nat)
    requires
        k <= list.len(),
    ensures
        forall|i: int| 0 <= i < k ==> with_vars(t, list, k).contains(#[trigger] list[i]),
        forall|y: Seq<char>| t.contains(y) ==> #[trigger] with_vars(t, list, k).contains(y),
        forall|y: Seq<char>| #[trigger]
            with_vars(t, list, k).contains(y) ==> t.contains(y) || list.contains(y),
        no_dups(t) ==> no_dups(with_vars(t, list, k)),
    decreases k,
{
    if k > 0 {
        lemma_with_vars(t, list, (k - 1) as nat);
        let prev = with_vars(t, list, (k - 1) as nat);
        lemma_with_var(prev, list[k - 1]);
        let r = with_vars(t, list, k);
        assert forall|y: Seq<char>| #[trigger] r.contains(y) implies t.contains(y)
            || list.contains(y) by {
            if !prev.contains(y) {
                assert(list[k - 1] == y);
            }
        }
        assert forall|i: int| 0 <= i < k implies r.contains(#[trigger] list[i]) by {
            if i < k - 1 {
                assert(prev.contains(list[i]));
            }
        }
    }
}

/// Whether the item names the variable.
pub open spec fn names_var(c: CodeView, x: Seq<char>) -> bool {
    args_of(c).contains(x) || dest_of(c) == Some(x)
}

/// A table with the variables of an item added holds those and all that it
/// held, and no others; and no name twice if it held none twice.
pub proof fn lemma_with_item(t: Seq<Seq<char>>, c: CodeView)
    ensures
        forall|y: Seq<char>| t.contains(y) || names_var(c, y) ==> #[trigger] with_item(t, c).contains(y),
        forall|y: Seq<char>| #[trigger] with_item(t, c).contains(y) ==> t.contains(y) || names_var(
            c,
            y,
        ),
        no_dups(t) ==> no_dups(with_item(t, c)),
{
    let args = args_of(c);
    lemma_with_vars(t, args, args.len());
    let read = with_vars(t, args, args.len());
    assert forall|y: Seq<char>| args.contains(y) implies read.contains(y) by {
        let i = choose|i: int| 0 <= i < args.len() && args[i] == y;
        assert(read.contains(args[i]));
    }
    match dest_of(c) {
        Some(d) => {
            lemma_with_var(read, d);
        },
        None => {},
    }
}

/// The table after the first `k` items holds the names of the table
/// before and the variables of those items, and no others; and no name
/// twice if the table before held none twice.
pub proof fn lemma_tabled_names(t: Seq<Seq<char>>, items: Seq<CodeView>, k: nat)
    requires
        k <= items.len(),
    ensures
        forall|y: Seq<char>| t.contains(y) ==> #[trigger] tabled(t, items, k).contains(y),
        forall|i: int, y: Seq<char>|
            0 <= i < k && #[trigger] names_var(items[i], y) ==> tabled(t, items, k).contains(y),
        forall|y: Seq<char>| #[trigger]
            tabled(t, items, k).contains(y) ==> t.contains(y) || exists|i: int|
                0 <= i < k && #[trigger] names_var(items[i], y),
        no_dups(t) ==> no_dups(tabled(t, items, k)),
    decreases k,
{
    if k > 0 {
        lemma_tabled_names(t, items, (k - 1) as nat);
        let prev = tabled(t, items, (k - 1) as nat);
        lemma_with_item(prev, items[k - 1]);
        let r = tabled(t, items, k);
        assert forall|i: int, y: Seq<char>| 0 <= i < k && #[trigger] names_var(
            items[i],
            y,
        ) implies r.contains(y) by {
            if i < k - 1 {
                assert(prev.contains(y));
            }
        }
        assert forall|y: Seq<char>| #[trigger] r.contains(y) implies t.contains(y) || exists|
            i: int,
        |
            0 <= i < k && #[trigger] names_var(items[i], y) by {
            if !prev.contains(y) {
                assert(names_var(items[k - 1], y));
            } else if !t.contains(y) {
                let i = choose|i: int| 0 <= i < k - 1 && #[trigger] names_var(items[i], y);
                assert(names_var(items[i], y));
            }
        }
    }
}

/// A name that a table of no more names than numbers holds has a number,
/// and the table holds the name at that place.
pub proof fn lemma_as_num(table: Seq<Seq<char>>, x: Seq<char>)
    requires
        table.len() <= u32::MAX,
    ensures
        table.contains(x) <==> as_num(table, x) is Some,
        as_num(table, x) is Some ==> as_num(table, x)->0 < table.len() && table[as_num(
            table,
            x,
        )->0 as int] == x,
{
    lemma_place_is(table, x, table.len());
    if table.contains(x) {
        let i = choose|i: int| 0 <= i < table.len() && table[i] == x;
        assert(table[i] == x);
    }
}


/// Every item of the first `k` blocks is an item of their items laid end
/// to end, and the other way round.
pub proof fn lemma_flat_items(bs: Seq<Seq<CodeView>>, k: nat)
    requires
        k <= bs.len(),
    ensures
        forall|j: int, i: int|
            0 <= j < k && 0 <= i < bs[j].len() ==> flat_upto(bs, k).contains(#[trigger] bs[j][i]),
        forall|c: CodeView| #[trigger]
            flat_upto(bs, k).contains(c) ==> exists|j: int, i: int|
                0 <= j < k && 0 <= i < bs[j].len() && #[trigger] bs[j][i] == c,
    decreases k,
{
    if k > 0 {
        lemma_flat_items(bs, (k - 1) as nat);
        let prev = flat_upto(bs, (k - 1) as nat);
        let now = flat_upto(bs, k);
        let b = bs[k - 1];
        assert forall|j: int, i: int| 0 <= j < k && 0 <= i < bs[j].len() implies now.contains(
            #[trigger] bs[j][i],
        ) by {
            if j < k - 1 {
                let x = choose|x: int| 0 <= x < prev.len() && prev[x] == bs[j][i];
                assert(now[x] == bs[j][i]);
            } else {
                assert(now[prev.len() + i] == b[i]);
            }
        }
        assert forall|c: CodeView| #[trigger] now.contains(c) implies exists|j: int, i: int|
            0 <= j < k && 0 <= i < bs[j].len() && #[trigger] bs[j][i] == c by {
            let x = choose|x: int| 0 <= x < now.len() && now[x] == c;
            if x < prev.len() {
                assert(prev[x] == c);
                assert(prev.contains(c));
                let (j, i) = choose|j: int, i: int|
                    0 <= j < k - 1 && 0 <= i < bs[j].len() && #[trigger] bs[j][i] == c;
                assert(bs[j][i] == c);
            } else {
                assert(bs[k - 1][x - prev.len()] == c);
            }
        }
    }
}

/// The number of labels at the start of a block.
pub open spec fn off(b: Seq<CodeView>) -> int {
    if b.len() > 0 && b[0] is Label {
        1
    } else {
        0
    }
}

/// Which of the instructions of a block are kept, given which of its
/// items are.
pub open spec fn keep_of(b: Seq<CodeView>, fl: Seq<bool>) -> Seq<bool> {
    Seq::new((b.len() - off(b)) as nat, |i: int| fl[i + off(b)])
}

/// The number of every variable of the second table in the first.
pub open spec fn rho_of(table: Seq<Seq<char>>, table2: Seq<Seq<char>>) -> Seq<u32> {
    Seq::new(table2.len(), |y: int| as_num(table, table2[y])->0)
}

/// How the function that the interpreter runs after a sweep lacks
/// definitions of the function that it runs before.
pub open spec fn thin_for(
    bs: Seq<Seq<CodeView>>,
    flags: Seq<Seq<bool>>,
    table: Seq<Seq<char>>,
    table2: Seq<Seq<char>>,
) -> Thin {
    Thin {
        keep: Seq::new(bs.len(), |k: int| keep_of(bs[k], flags[k])),
        rho: rho_of(table, table2),
    }
}

/// The kept items before an item are the label, if the block starts with
/// one, and the kept instructions before it.
pub proof fn lemma_kept_shift(b: Seq<CodeView>, fl: Seq<bool>, i: int)
    requires
        fl.len() == b.len(),
        0 <= i <= b.len() - off(b),
        off(b) == 1 ==> fl[0],
    ensures
        kept_before(fl, i + off(b)) == off(b) + kept_before(keep_of(b, fl), i),
    decreases i,
{
    if i > 0 {
        lemma_kept_shift(b, fl, i - 1);
        assert(keep_of(b, fl)[i - 1] == fl[i - 1 + off(b)]);
    } else {
        if off(b) == 1 {
            assert(kept_before(fl, 1) == kept_before(fl, 0) + 1);
        }
    }
}

/// Whether the second table numbers its names as `rho` says: a name with
/// the number `y` in it has the number `rho[y]` in the first table.
pub open spec fn renumbers(table: Seq<Seq<char>>, table2: Seq<Seq<char>>, rho: Seq<u32>) -> bool {
    &&& rho.len() == table2.len()
    &&& forall|x: Seq<char>| #[trigger]
        as_num(table2, x) is Some ==> as_num(table2, x)->0 < rho.len() && as_num(table, x) == Some(
            rho[as_num(table2, x)->0 as int],
        )
    &&& forall|y: int| 0 <= y < rho.len() ==> (#[trigger] rho[y]) < table.len()
    &&& forall|y: int, z: int|
        0 <= y < rho.len() && 0 <= z < rho.len() && y != z ==> #[trigger] rho[y] != #[trigger] rho[z]
}

/// A table whose names another table holds numbers its names as the
/// numbers of its names in that table say.
pub proof fn lemma_renumbers(table: Seq<Seq<char>>, table2: Seq<Seq<char>>)
    requires
        table.len() <= u32::MAX,
        table2.len() <= u32::MAX,
        no_dups(table2),
        forall|y: Seq<char>| table2.contains(y) ==> #[trigger] table.contains(y),
    ensures
        renumbers(table, table2, rho_of(table, table2)),
{
    let rho = rho_of(table, table2);
    assert forall|x: Seq<char>| #[trigger] as_num(table2, x) is Some implies as_num(table2, x)->0
        < rho.len() && as_num(table, x) == Some(rho[as_num(table2, x)->0 as int]) by {
        lemma_as_num(table2, x);
        lemma_as_num(table, x);
        assert(table2.contains(x));
        assert(table.contains(x));
    }
    assert forall|y: int| 0 <= y < rho.len() implies (#[trigger] rho[y]) < table.len() by {
        assert(table2.contains(table2[y]));
        assert(table.contains(table2[y]));
        lemma_as_num(table, table2[y]);
    }
    assert forall|y: int, z: int|
        0 <= y < rho.len() && 0 <= z < rho.len() && y != z implies #[trigger] rho[y]
        != #[trigger] rho[z] by {
        assert(table2.contains(table2[y]));
        assert(table.contains(table2[y]));
        assert(table2.contains(table2[z]));
        assert(table.contains(table2[z]));
        lemma_as_num(table, table2[y]);
        lemma_as_num(table, table2[z]);
        assert(table2[y] != table2[z]);
    }
}

/// The numbers of names in the second table are their numbers in the
/// first, in the numbering of the second.
pub proof fn lemma_nums_thin(
    table: Seq<Seq<char>>,
    table2: Seq<Seq<char>>,
    rho: Seq<u32>,
    list: Seq<Seq<char>>,
    xs: Seq<u32>,
    ys: Seq<u32>,
)
    requires
        renumbers(table, table2, rho),
        nums_match(table, list, xs),
        nums_match(table2, list, ys),
    ensures
        nums_thin(xs, ys, rho),
{
    assert forall|i: int| 0 <= i < ys.len() implies (#[trigger] ys[i]) < rho.len() && rho[ys[i] as int]
        == xs[i] by {
        assert(as_num(table2, list[i]) == Some(ys[i]));
        assert(as_num(table, list[i]) == Some(xs[i]));
    }
}

/// An instruction made ready under the second table is the instruction
/// made ready under the first, in the numbering of the second.
pub proof fn lemma_thin_instr(
    table: Seq<Seq<char>>,
    table2: Seq<Seq<char>>,
    rho: Seq<u32>,
    iv: InstrView,
    x: Instr,
    y: Instr,
)
    requires
        renumbers(table, table2, rho),
        instr_matches(table, iv, x),
        instr_matches(table2, iv, y),
    ensures
        thin_instr(x, y, rho),
{
    match iv {
        InstrView::Constant { dest, .. } => {
            assert(as_num(table2, dest) is Some);
        },
        InstrView::Value { dest, args, .. } => {
            assert(as_num(table2, dest) is Some);
            match (x, y) {
                (Instr::Value { args: xa, .. }, Instr::Value { args: ya, .. }) => {
                    lemma_nums_thin(table, table2, rho, args, xa@, ya@);
                },
                _ => {},
            }
        },
        InstrView::Effect { args, .. } => {
            match (x, y) {
                (Instr::Effect { args: xa, .. }, Instr::Effect { args: ya, .. }) => {
                    lemma_nums_thin(table, table2, rho, args, xa@, ya@);
                },
                _ => {},
            }
        },
    }
}


/// Whether the block at place `j` among the blocks that hold an item is
/// block `k`.
pub open spec fn solid_from(ts: Seq<Seq<CodeView>>, m: nat, j: int, k: int) -> bool {
    0 <= k < m && ts[k].len() > 0 && solid(ts, k as nat).len() == j && solid(ts, m)[j] == ts[k]
}

/// Whether the block at place `j` among the blocks that hold an item is
/// one of the blocks.
pub open spec fn solid_source(ts: Seq<Seq<CodeView>>, m: nat, j: int) -> bool {
    exists|k: int| #[trigger] solid_from(ts, m, j, k)
}

/// Whether block `k`, which holds an item, stands at its place among the
/// blocks that hold an item.
pub open spec fn solid_at(ts: Seq<Seq<CodeView>>, m: nat, k: int) -> bool {
    solid(ts, k as nat).len() < solid(ts, m).len() && solid(ts, m)[solid(ts, k as nat).len() as int]
        == ts[k]
}

/// The blocks that hold an item stand in order, each at the place that
/// the number of such blocks before it gives.
pub proof fn lemma_solid(ts: Seq<Seq<CodeView>>, m: nat)
    requires
        m <= ts.len(),
    ensures
        forall|k: int| 0 <= k < m && ts[k].len() > 0 ==> #[trigger] solid_at(ts, m, k),
        forall|j: int| 0 <= j < solid(ts, m).len() ==> #[trigger] solid_source(ts, m, j),
        forall|k: int| 0 <= k <= m ==> (#[trigger] solid(ts, k as nat)).len() <= solid(ts, m).len(),
        solid(ts, m).len() <= m,
    decreases m,
{
    if m > 0 {
        let n = (m - 1) as nat;
        lemma_solid(ts, n);
        let prev = solid(ts, n);
        let now = solid(ts, m);
        assert forall|k: int| 0 <= k < m && ts[k].len() > 0 implies #[trigger] solid_at(
            ts,
            m,
            k,
        ) by {
            if k < m - 1 {
                assert(solid_at(ts, n, k));
                assert(now[solid(ts, k as nat).len() as int] == prev[solid(ts, k as nat).len() as int]);
            }
        }
        assert forall|j: int| 0 <= j < now.len() implies #[trigger] solid_source(ts, m, j) by {
            if j < prev.len() {
                assert(solid_source(ts, n, j));
                let k = choose|k: int| #[trigger] solid_from(ts, n, j, k);
                assert(now[j] == prev[j]);
                assert(solid_from(ts, m, j, k));
            } else {
                assert(solid_from(ts, m, j, m - 1));
            }
        }
        assert forall|k: int| 0 <= k <= m implies (#[trigger] solid(ts, k as nat)).len()
            <= now.len() by {
            if k < m {
                assert(solid(ts, k as nat).len() <= prev.len());
            }
        }
    }
}

/// Whether the blocks `ts` are the blocks `bs` with some items left out,
/// labels and terminators kept.
pub open spec fn thins(bs: Seq<Seq<CodeView>>, flags: Seq<Seq<bool>>) -> bool {
    &&& flags_fit(bs, flags)
    &&& forall|i: int| 0 <= i < bs.len() ==> well_shaped(#[trigger] bs[i])
    &&& adjacent(bs)
}

/// A block with some items left out starts with the label that it starts
/// with, if it holds an item: the label is kept.
pub proof fn lemma_thinned_label(bs: Seq<Seq<CodeView>>, flags: Seq<Seq<bool>>, k: int)
    requires
        thins(bs, flags),
        0 <= k < bs.len(),
    ensures
        thinned(bs, flags)[k].len() > 0 ==> label_of(thinned(bs, flags)[k]) == label_of(bs[k])
            && well_shaped(thinned(bs, flags)[k]),
        label_of(bs[k]) is Some ==> thinned(bs, flags)[k].len() > 0,
        closed(bs[k]) ==> thinned(bs, flags)[k].len() > 0 && closed(thinned(bs, flags)[k])
            && thinned(bs, flags)[k].last() == bs[k].last(),
        thinned(bs, flags)[k].len() > 0 && !closed(bs[k]) ==> !closed(thinned(bs, flags)[k]),
{
    let b = bs[k];
    assert(well_shaped(b));
    assert forall|j: int| 0 <= j < b.len() && !flags[k][j] implies dest_of(#[trigger] b[j])
        is Some && !ends_block(b[j]) by {
        assert(dest_of(bs[k][j]) is Some);
    }
    lemma_picked_shape(b, flags[k]);
}

/// A block found under a label among the first blocks is the one found
/// among more.
pub proof fn lemma_named_stays(bs: Seq<Seq<CodeView>>, l: Seq<char>, k: nat, n: nat)
    requires
        k <= n <= bs.len(),
    ensures
        block_named(bs, l, k) is Some ==> block_named(bs, l, n) == block_named(bs, l, k),
    decreases n,
{
    if n > k {
        lemma_named_stays(bs, l, k, (n - 1) as nat);
    }
}

/// Among the blocks that are left, a label names the block that it named
/// before, at its place.
pub proof fn lemma_named_thin(bs: Seq<Seq<CodeView>>, flags: Seq<Seq<bool>>, l: Seq<char>, e: int)
    requires
        thins(bs, flags),
        block_named(bs, l, bs.len()) == Some(e),
    ensures
        0 <= e < bs.len(),
        thinned(bs, flags)[e].len() > 0,
        block_named(
            solid(thinned(bs, flags), bs.len()),
            l,
            solid(thinned(bs, flags), bs.len()).len(),
        ) == Some(solid(thinned(bs, flags), e as nat).len() as int),
{
    let ts = thinned(bs, flags);
    let n = bs.len();
    let ss = solid(ts, n);
    lemma_named_none(bs, l, n);
    lemma_solid(ts, n);
    lemma_thinned_label(bs, flags, e);
    let j = solid(ts, e as nat).len() as int;
    assert(solid_at(ts, n, e));
    assert(ss[j] == ts[e]);
    lemma_named_none(bs, l, e as nat);
    lemma_named_stays(bs, l, e as nat, n);
    assert forall|i: int| 0 <= i < j implies label_of(#[trigger] ss[i]) != Some(l) by {
        assert(solid_source(ts, n, i));
        let k = choose|k: int| #[trigger] solid_from(ts, n, i, k);
        if k >= e {
            lemma_solid(ts, k as nat);
            assert(solid(ts, e as nat).len() <= solid(ts, k as nat).len());
        }
        lemma_thinned_label(bs, flags, k);
        assert(label_of(bs[k]) != Some(l));
    }
    lemma_named_at(ss, l, j);
}


/// Whether the exits `ys` are the exits `xs` among the blocks that are
/// left: each of them holds an item, and has its place.
pub open spec fn exits_left(ts: Seq<Seq<CodeView>>, xs: Seq<usize>, ys: Seq<usize>) -> bool {
    ys.len() == xs.len() && forall|i: int|
        0 <= i < xs.len() ==> (#[trigger] xs[i]) < ts.len() && ts[xs[i] as int].len() > 0 && ys[i]
            == solid(ts, xs[i] as nat).len()
}

/// A block made ready after some items went is the block made ready
/// before, without the instructions that went: the same label, the kept
/// instructions in order and in the other numbering, and the same exits
/// among the blocks that are left.
pub proof fn lemma_block_thinned(
    table: Seq<Seq<char>>,
    table2: Seq<Seq<char>>,
    rho: Seq<u32>,
    bs: Seq<Seq<CodeView>>,
    flags: Seq<Seq<bool>>,
    k: int,
    x: BasicBlock,
    y: BasicBlock,
)
    requires
        thins(bs, flags),
        renumbers(table, table2, rho),
        0 <= k < bs.len(),
        bs.len() <= usize::MAX,
        thinned(bs, flags)[k].len() > 0,
        block_matches(table, bs, k, x),
        block_matches(
            table2,
            solid(thinned(bs, flags), bs.len()),
            solid(thinned(bs, flags), k as nat).len() as int,
            y,
        ),
    ensures
        labels_same(x.label, y.label),
        x.instrs.len() == bs[k].len() - off(bs[k]),
        y.instrs.len() == kept_before(keep_of(bs[k], flags[k]), x.instrs.len() as int),
        forall|i: int|
            0 <= i < x.instrs.len() && keep_of(bs[k], flags[k])[i] ==> thin_instr(
                #[trigger] x.instrs[i],
                y.instrs[kept_before(keep_of(bs[k], flags[k]), i)],
                rho,
            ),
        exits_left(thinned(bs, flags), x.exit@, y.exit@),
{
    let ts = thinned(bs, flags);
    let n = bs.len();
    let ss = solid(ts, n);
    let b = bs[k];
    let fl = flags[k];
    let w = ts[k];
    let keep = keep_of(b, fl);
    let p = solid(ts, k as nat).len() as int;
    lemma_solid(ts, n);
    assert(solid_at(ts, n, k));
    assert(ss[p] == w);
    lemma_thinned_label(bs, flags, k);
    assert(well_shaped(b));
    lemma_picked(b, fl, b.len());
    assert(off(w) == off(b));
    if off(b) == 1 {
        assert(fl[0]);
    }
    lemma_block_instrs_stripped(b);
    lemma_block_instrs_stripped(w);
    let wx = block_instrs(b, b.len());
    let wy = block_instrs(w, w.len());
    lemma_kept_shift(b, fl, b.len() - off(b));
    assert forall|i: int| 0 <= i < x.instrs.len() && keep[i] implies thin_instr(
        #[trigger] x.instrs[i],
        y.instrs[kept_before(keep, i)],
        rho,
    ) by {
        lemma_kept_shift(b, fl, i);
        lemma_kept_before(keep, i, keep.len() as int);
        assert(picked_at(b, fl, b.len(), i + off(b)));
        let j = kept_before(keep, i);
        assert(w[off(b) + j] == b[i + off(b)]);
        assert(stripped(w)[j] == w[j + off(w)]);
        assert(stripped(b)[i] == b[i + off(b)]);
        assert(wy[j] == wx[i]);
        assert(instr_matches(table, wx[i], x.instrs[i]));
        assert(instr_matches(table2, wy[j], y.instrs[j]));
        lemma_thin_instr(table, table2, rho, wx[i], x.instrs[i], y.instrs[j]);
    }
    if ends_in_jump(b) {
        let labels = jump_labels(b);
        assert(w.last() == b.last());
        assert(jump_labels(w) == labels);
        assert forall|i: int| 0 <= i < x.exit@.len() implies (#[trigger] x.exit@[i]) < ts.len()
            && ts[x.exit@[i] as int].len() > 0 && y.exit@[i] == solid(
            ts,
            x.exit@[i] as nat,
        ).len() by {
            let e = x.exit@[i] as int;
            assert(block_named(bs, labels[i], n) == Some(e));
            lemma_named_thin(bs, flags, labels[i], e);
            assert(block_named(ss, labels[i], ss.len()) == Some(y.exit@[i] as int));
        }
    } else if ends_in_ret(b) {
        assert(w.last() == b.last());
    } else {
        assert(!closed(b));
        assert(!closed(w));
        if k + 1 < n {
            assert(closed(bs[k]) || is_label(bs[k + 1][0]));
            lemma_thinned_label(bs, flags, k + 1);
            assert(solid_at(ts, n, k + 1));
            assert(solid(ts, (k + 1) as nat).len() == p + 1);
            assert(y.exit@ == seq![(p + 1) as usize]);
            assert(x.exit@ == seq![(k + 1) as usize]);
            assert forall|i: int| 0 <= i < x.exit@.len() implies (#[trigger] x.exit@[i])
                < ts.len() && ts[x.exit@[i] as int].len() > 0 && y.exit@[i] == solid(
                ts,
                x.exit@[i] as nat,
            ).len() by {
                assert(p + 1 <= solid(ts, n).len());
                assert(x.exit@[i] == (k + 1) as usize);
                assert(y.exit@[i] == (p + 1) as usize);
                assert(x.exit@[i] as nat == (k + 1) as nat);
            }
        } else {
            assert(solid(ts, n).len() == p + 1);
        }
    }
}


/// Whether an item is a plain definition: a constant that needs no
/// conversion, or an operation that only computes, copies or reads.
pub open spec fn plain_item(c: CodeView) -> bool {
    match c {
        CodeView::Instruction(InstrView::Constant { const_type, value, .. }) => !(const_type
            == Some(Type::Float) && value is Int),
        CodeView::Instruction(InstrView::Value { op, .. }) => match value_op_named(op) {
            Some(o) => is_pure(o) || o == ValueOp::Phi || o == ValueOp::Load,
            None => false,
        },
        _ => false,
    }
}

/// A plain definition made ready is a plain instruction that writes the
/// number of its destination.
pub proof fn lemma_plain(table: Seq<Seq<char>>, iv: InstrView, x: Instr)
    requires
        instr_matches(table, iv, x),
        plain_item(CodeView::Instruction(iv)),
    ensures
        plain(x),
        writes(x) is Some,
        as_num(table, iv.dest()->0) == writes(x),
{
}

/// An instruction made ready reads the number of a variable only if the
/// instruction names the variable among its arguments.
pub proof fn lemma_reads(table: Seq<Seq<char>>, iv: InstrView, x: Instr, d: Seq<char>, num: u32)
    requires
        table.len() <= u32::MAX,
        instr_matches(table, iv, x),
        as_num(table, d) == Some(num),
        reads(x, num),
    ensures
        iv.args().contains(d),
{
    let list = iv.args();
    let nums = match x {
        Instr::Value { args, .. } => args@,
        Instr::Effect { args, .. } => args@,
        _ => Seq::empty(),
    };
    let j = choose|j: int| 0 <= j < nums.len() && nums[j] == num;
    assert(nums_match(table, list, nums));
    assert(as_num(table, list[j]) == Some(nums[j]));
    lemma_as_num(table, list[j]);
    lemma_as_num(table, d);
    assert(list[j] == d);
}

/// Whether every block of the function is the block of the list made
/// ready.
pub open spec fn blocks_match(table: Seq<Seq<char>>, bs: Seq<Seq<CodeView>>, bf: BBFunction) -> bool {
    &&& bf.blocks.len() == bs.len()
    &&& forall|k: int| 0 <= k < bs.len() ==> block_matches(table, bs, k, #[trigger] bf.blocks[k])
}

/// The instruction made ready at a place of a block is the item of the
/// block at that place, after the label.
pub proof fn lemma_instr_item(table: Seq<Seq<char>>, bs: Seq<Seq<CodeView>>, bf: BBFunction, k: int, i: int)
    requires
        blocks_match(table, bs, bf),
        0 <= k < bs.len(),
        well_shaped(bs[k]),
        0 <= i < bf.blocks[k].instrs.len(),
    ensures
        i + off(bs[k]) < bs[k].len(),
        bs[k][i + off(bs[k])] is Instruction,
        instr_matches(table, instr_at(bs[k][i + off(bs[k])]), bf.blocks[k].instrs[i]),
        bf.blocks[k].instrs.len() == bs[k].len() - off(bs[k]),
{
    let b = bs[k];
    assert(block_matches(table, bs, k, bf.blocks[k]));
    lemma_block_instrs_stripped(b);
    let wx = block_instrs(b, b.len());
    assert(wx[i] == instr_at(stripped(b)[i]));
    assert(stripped(b)[i] == b[i + off(b)]);
    assert(!is_label(b[i + off(b)])) by {
        if i + off(b) > 0 {
        }
    }
    assert(instr_matches(table, wx[i], bf.blocks[k].instrs[i]));
}

/// No instruction of a function made ready reads the number of a variable
/// that no item of the body reads.
pub proof fn lemma_never_read(
    table: Seq<Seq<char>>,
    code: Seq<CodeView>,
    bf: BBFunction,
    d: Seq<char>,
    num: u32,
)
    requires
        table.len() <= u32::MAX,
        blocks_match(table, blocks_of(code), bf),
        as_num(table, d) == Some(num),
        !used_args(code).contains(d),
    ensures
        never_read(bf, num),
{
    let bs = blocks_of(code);
    crate::form_blocks::lemma_blocks_partition(code);
    lemma_flat_upto(bs);
    lemma_flat_items(bs, bs.len());
    assert forall|k: int, i: int|
        0 <= k < bf.blocks.len() && 0 <= i < bf.blocks[k].instrs.len() implies !reads(
        #[trigger] instr_of(bf, k, i),
        num,
    ) by {
        if reads(instr_of(bf, k, i), num) {
            assert(well_shaped(bs[k]));
            lemma_instr_item(table, bs, bf, k, i);
            let item = bs[k][i + off(bs[k])];
            lemma_reads(table, instr_at(item), bf.blocks[k].instrs[i], d, num);
            assert(args_of(item).contains(d));
            assert(flat_upto(bs, bs.len()).contains(bs[k][i + off(bs[k])]));
            let x = choose|x: int| 0 <= x < code.len() && code[x] == item;
            assert(args_of(code[x]).contains(d));
        }
    }
}

/// A definition that is killed in its block writes a variable that will
/// die after it.
pub proof fn lemma_will_die(
    table: Seq<Seq<char>>,
    bs: Seq<Seq<CodeView>>,
    bf: BBFunction,
    k: int,
    i: int,
    num: u32,
)
    requires
        table.len() <= u32::MAX,
        blocks_match(table, bs, bf),
        0 <= k < bs.len(),
        well_shaped(bs[k]),
        0 <= i < bf.blocks[k].instrs.len(),
        killed(bs[k], i + off(bs[k])),
        as_num(table, dest_of(bs[k][i + off(bs[k])])->0) == Some(num),
    ensures
        will_die(bf.blocks[k], i + 1, num),
{
    let b = bs[k];
    let o = off(b);
    let d = dest_of(b[i + o])->0;
    let m = choose|m: int| #[trigger] kills(b, i + o, m);
    let j = m - o;
    let blk = bf.blocks[k];
    lemma_instr_item(table, bs, bf, k, i);
    assert(dest_of(b[m]) == Some(d));
    assert(b.len() - o == blk.instrs.len());
    lemma_instr_item(table, bs, bf, k, j);
    assert(writes(blk.instrs[j]) == Some(num));
    assert forall|x: int| i + 1 <= x <= j implies !reads(#[trigger] blk.instrs[x], num) by {
        if reads(blk.instrs[x], num) {
            lemma_instr_item(table, bs, bf, k, x);
            lemma_reads(table, instr_at(b[x + o]), blk.instrs[x], d, num);
            assert(args_of(b[x + o]).contains(d));
        }
    }
    assert(dies_at(blk, i + 1, num, j));
}


/// Whether the item may go: it is a plain definition of a variable that no
/// item of the body reads, or that is killed in its block.
pub open spec fn goes(code: Seq<CodeView>, b: Seq<CodeView>, i: int) -> bool {
    plain_item(b[i]) && (!used_args(code).contains(dest_of(b[i])->0) || killed(b, i))
}

/// Whether item `i` of block `k` is kept or may go.
pub open spec fn kept_or_goes(
    code: Seq<CodeView>,
    bs: Seq<Seq<CodeView>>,
    flags: Seq<Seq<bool>>,
    k: int,
    i: int,
) -> bool {
    flags[k][i] || goes(code, bs[k], i)
}

/// Whether the function `g` is the function `f` after a sweep that keeps
/// the items which the flags say: the same but for the body, which lacks
/// the items that are not kept; every such item may go; and some block is
/// left if there was one.
pub open spec fn sweeps(f: Function, g: Function, flags: Seq<Seq<bool>>) -> bool {
    let code = codes(f.instrs@);
    let bs = blocks_of(code);
    &&& g.name@ == f.name@
    &&& g.return_type == f.return_type
    &&& g.args.len() == f.args.len()
    &&& forall|i: int|
        0 <= i < f.args.len() ==> (#[trigger] g.args[i]).name@ == f.args[i].name@
            && g.args[i].arg_type == f.args[i].arg_type
    &&& flags_fit(bs, flags)
    &&& codes(g.instrs@) == flat(thinned(bs, flags))
    &&& bs.len() > 0 ==> solid(thinned(bs, flags), bs.len()).len() > 0
    &&& forall|k: int, i: int|
        0 <= k < bs.len() && 0 <= i < bs[k].len() ==> #[trigger] kept_or_goes(code, bs, flags, k, i)
}

/// Whether block `j` holds no item just when it is gone.
pub open spec fn gone_same(bf: BBFunction, t: Thin, ts: Seq<Seq<CodeView>>, j: int) -> bool {
    (ts[j].len() == 0) == gone(bf, t, j)
}

/// The blocks that hold an item are counted as the blocks that are not
/// gone, where a block holds no item just when it is gone.
pub proof fn lemma_place_solid(bf: BBFunction, t: Thin, ts: Seq<Seq<CodeView>>, k: nat)
    requires
        k <= ts.len(),
        forall|j: int| 0 <= j < ts.len() ==> #[trigger] gone_same(bf, t, ts, j),
    ensures
        place(bf, t, k as int) == solid(ts, k).len(),
    decreases k,
{
    if k > 0 {
        lemma_place_solid(bf, t, ts, (k - 1) as nat);
        assert(gone_same(bf, t, ts, k - 1));
    }
}

/// After a sweep, the body falls into the blocks that are left, and the
/// function names its variables as the numbers of their names before the
/// sweep say.
pub proof fn lemma_sweep_tables(f: Function, g: Function, flags: Seq<Seq<bool>>)
    requires
        sweeps(f, g, flags),
        function_table(f).len() <= u32::MAX,
        function_table(g).len() <= u32::MAX,
    ensures
        thins(blocks_of(codes(f.instrs@)), flags),
        blocks_of(codes(g.instrs@)) == solid(
            thinned(blocks_of(codes(f.instrs@)), flags),
            blocks_of(codes(f.instrs@)).len(),
        ),
        renumbers(
            function_table(f),
            function_table(g),
            rho_of(function_table(f), function_table(g)),
        ),
        param_names(g.args@) == param_names(f.args@),
{
    let code = codes(f.instrs@);
    let code2 = codes(g.instrs@);
    let bs = blocks_of(code);
    let n = bs.len();
    let ts = thinned(bs, flags);
    lemma_blocks_partition(code);
    lemma_blocks_adjacent(code);
    assert(thins(bs, flags));
    lemma_thinned_joined(bs, flags);
    lemma_blocks_of_solid(ts);
    let params = param_names(f.args@);
    assert(param_names(g.args@) =~= params);
    let t0 = with_vars(Seq::empty(), params, params.len());
    let table = function_table(f);
    let table2 = function_table(g);
    lemma_var_table_is(params, code, code.len());
    lemma_var_table_is(params, code2, code2.len());
    assert(no_dups(Seq::<Seq<char>>::empty()));
    lemma_with_vars(Seq::empty(), params, params.len());
    lemma_tabled_names(t0, code, code.len());
    lemma_tabled_names(t0, code2, code2.len());
    lemma_flat_upto(bs);
    lemma_flat_upto(ts);
    lemma_flat_items(bs, n);
    lemma_flat_items(ts, n);
    assert forall|y: Seq<char>| table2.contains(y) implies #[trigger] table.contains(y) by {
        if !t0.contains(y) {
            let i = choose|i: int| 0 <= i < code2.len() && #[trigger] names_var(code2[i], y);
            let c = code2[i];
            assert(flat_upto(ts, n).contains(c));
            let (j, x) = choose|j: int, x: int|
                0 <= j < n && 0 <= x < ts[j].len() && #[trigger] ts[j][x] == c;
            lemma_picked(bs[j], flags[j], bs[j].len());
            assert(has_source(bs[j], flags[j], bs[j].len(), x));
            let w = choose|w: int| #[trigger] picked_from(bs[j], flags[j], bs[j].len(), x, w);
            assert(bs[j][w] == c);
            assert(flat_upto(bs, n).contains(bs[j][w]));
            let z = choose|z: int| 0 <= z < code.len() && code[z] == c;
            assert(names_var(code[z], y));
        }
    }
    lemma_renumbers(table, table2);
}

/// A block holds no item after a sweep just when it is gone: it has no
/// label, and none of its instructions is kept.
pub proof fn lemma_gone_same(
    table: Seq<Seq<char>>,
    bs: Seq<Seq<CodeView>>,
    flags: Seq<Seq<bool>>,
    bf: BBFunction,
    t: Thin,
    k: int,
)
    requires
        thins(bs, flags),
        blocks_match(table, bs, bf),
        0 <= k < bs.len(),
        t.keep.len() == bs.len(),
        t.keep[k] == keep_of(bs[k], flags[k]),
    ensures
        t.keep[k].len() == bf.blocks[k].instrs.len(),
        gone_same(bf, t, thinned(bs, flags), k),
{
    let b = bs[k];
    assert(well_shaped(b));
    assert(block_matches(table, bs, k, bf.blocks[k]));
    lemma_block_instrs_stripped(b);
    lemma_picked(b, flags[k], b.len());
    lemma_thinned_label(bs, flags, k);
    if off(b) == 1 {
        assert(flags[k][0]);
    }
    lemma_kept_shift(b, flags[k], b.len() - off(b));
    lemma_kept_before(t.keep[k], 0, t.keep[k].len() as int);
}

/// An instruction that a sweep leaves out may be left out: it is plain,
/// and what it writes does not matter after it.
pub proof fn lemma_may_go(
    table: Seq<Seq<char>>,
    code: Seq<CodeView>,
    flags: Seq<Seq<bool>>,
    bf: BBFunction,
    t: Thin,
    k: int,
    i: int,
)
    requires
        table.len() <= u32::MAX,
        thins(blocks_of(code), flags),
        blocks_match(table, blocks_of(code), bf),
        0 <= k < blocks_of(code).len(),
        0 <= i < bf.blocks[k].instrs.len(),
        kept_or_goes(code, blocks_of(code), flags, k, i + off(blocks_of(code)[k])),
        !flags[k][i + off(blocks_of(code)[k])],
    ensures
        may_go(bf, k, i),
{
    let bs = blocks_of(code);
    let b = bs[k];
    assert(well_shaped(b));
    lemma_instr_item(table, bs, bf, k, i);
    let item = b[i + off(b)];
    let x = bf.blocks[k].instrs[i];
    lemma_plain(table, instr_at(item), x);
    let d = dest_of(item)->0;
    let num = writes(x)->0;
    if killed(b, i + off(b)) {
        lemma_will_die(table, bs, bf, k, i, num);
    } else {
        lemma_never_read(table, code, bf, d, num);
    }
}

/// The function that the interpreter runs after a sweep is the function
/// that it runs before, without definitions whose values do not matter.
pub proof fn lemma_thin_function(
    f: Function,
    g: Function,
    flags: Seq<Seq<bool>>,
    bf: BBFunction,
    bg: BBFunction,
)
    requires
        sweeps(f, g, flags),
        is_numified(f, bf),
        is_numified(g, bg),
    ensures
        function_thin(
            bf,
            bg,
            thin_for(blocks_of(codes(f.instrs@)), flags, function_table(f), function_table(g)),
        ),
{
    let code = codes(f.instrs@);
    let bs = blocks_of(code);
    let n = bs.len();
    let ts = thinned(bs, flags);
    let ss = solid(ts, n);
    let table = function_table(f);
    let table2 = function_table(g);
    lemma_sweep_tables(f, g, flags);
    lemma_solid(ts, n);
    let rho = rho_of(table, table2);
    let t = thin_for(bs, flags, table, table2);
    let params = param_names(f.args@);
    assert(blocks_match(table, bs, bf)) by {
        assert forall|k: int| 0 <= k < bs.len() implies block_matches(
            table,
            bs,
            k,
            #[trigger] bf.blocks[k],
        ) by {}
    }
    assert forall|k: int| 0 <= k < n implies (#[trigger] t.keep[k]).len()
        == bf.blocks[k].instrs.len() by {
        lemma_gone_same(table, bs, flags, bf, t, k);
    }
    assert forall|j: int| 0 <= j < ts.len() implies #[trigger] gone_same(bf, t, ts, j) by {
        lemma_gone_same(table, bs, flags, bf, t, j);
    }
    lemma_place_solid(bf, t, ts, n);
    assert forall|k: int| 0 <= k < n && !gone(bf, t, k) implies block_thin(
        bf,
        t,
        k,
        #[trigger] bg.blocks[place(bf, t, k)],
    ) by {
        lemma_place_solid(bf, t, ts, k as nat);
        assert(gone_same(bf, t, ts, k));
        assert(solid_at(ts, n, k));
        let p = solid(ts, k as nat).len() as int;
        assert(block_matches(table, bs, k, bf.blocks[k]));
        assert(block_matches(table2, ss, p, bg.blocks[p]));
        lemma_block_thinned(table, table2, rho, bs, flags, k, bf.blocks[k], bg.blocks[p]);
        let xs = bf.blocks[k].exit@;
        let ys = bg.blocks[p].exit@;
        assert forall|i: int| 0 <= i < xs.len() implies (#[trigger] xs[i]) < bf.blocks.len()
            && !gone(bf, t, xs[i] as int) && ys[i] == place(bf, t, xs[i] as int) by {
            assert(gone_same(bf, t, ts, xs[i] as int));
            lemma_place_solid(bf, t, ts, xs[i] as nat);
        }
    }
    assert forall|k: int, i: int|
        0 <= k < n && 0 <= i < bf.blocks[k].instrs.len() && !t.keep[k][i] implies #[trigger] may_go(
        bf,
        k,
        i,
    ) by {
        assert(well_shaped(bs[k]));
        lemma_instr_item(table, bs, bf, k, i);
        assert(kept_or_goes(code, bs, flags, k, i + off(bs[k])));
        lemma_may_go(table, code, flags, bf, t, k, i);
    }
    if n > 0 && gone(bf, t, 0) {
        assert(gone_same(bf, t, ts, 0));
        lemma_thinned_label(bs, flags, 0);
        assert(!closed(bs[0]));
        if n == 1 {
            assert(solid(ts, 1) =~= solid(ts, 0));
        }
        assert(closed(bs[0]) || is_label(bs[1][0]));
        lemma_thinned_label(bs, flags, 1);
        assert(gone_same(bf, t, ts, 1));
        assert(block_matches(table, bs, 0, bf.blocks[0]));
    }
    lemma_nums_thin(table, table2, rho, params, bf.args_as_nums@, bg.args_as_nums@);
    assert forall|i: int| 0 <= i < bf.args.len() implies (#[trigger] bg.args[i]).arg_type
        == bf.args[i].arg_type by {
        assert(bf.args[i].arg_type == f.args[i].arg_type);
        assert(g.args[i].arg_type == f.args[i].arg_type);
    }
}


/// A plain definition is no terminator.
pub proof fn lemma_plain_not_terminator(c: CodeView)
    requires
        plain_item(c),
    ensures
        !ends_block(c),
        dest_of(c) is Some,
{
    reveal_strlit("add");
    reveal_strlit("mul");
    reveal_strlit("sub");
    reveal_strlit("div");
    reveal_strlit("eq");
    reveal_strlit("lt");
    reveal_strlit("gt");
    reveal_strlit("le");
    reveal_strlit("ge");
    reveal_strlit("not");
    reveal_strlit("and");
    reveal_strlit("or");
    reveal_strlit("id");
    reveal_strlit("ptradd");
    reveal_strlit("phi");
    reveal_strlit("load");
    reveal_strlit("fadd");
    reveal_strlit("fmul");
    reveal_strlit("fsub");
    reveal_strlit("fdiv");
    reveal_strlit("feq");
    reveal_strlit("flt");
    reveal_strlit("fgt");
    reveal_strlit("fle");
    reveal_strlit("fge");
    reveal_strlit("call");
    reveal_strlit("alloc");
    reveal_strlit("jmp");
    reveal_strlit("br");
    reveal_strlit("ret");
    reveal_strlit("const");
    assert("add"@.len() == 3 && "add"@[0] == 'a');
    assert("mul"@.len() == 3 && "mul"@[0] == 'm');
    assert("sub"@.len() == 3 && "sub"@[0] == 's');
    assert("div"@.len() == 3 && "div"@[0] == 'd');
    assert("eq"@.len() == 2 && "eq"@[0] == 'e');
    assert("lt"@.len() == 2 && "lt"@[0] == 'l');
    assert("gt"@.len() == 2 && "gt"@[0] == 'g');
    assert("le"@.len() == 2 && "le"@[0] == 'l');
    assert("ge"@.len() == 2 && "ge"@[0] == 'g');
    assert("not"@.len() == 3 && "not"@[0] == 'n');
    assert("and"@.len() == 3 && "and"@[0] == 'a');
    assert("or"@.len() == 2 && "or"@[0] == 'o');
    assert("id"@.len() == 2 && "id"@[0] == 'i');
    assert("ptradd"@.len() == 6 && "ptradd"@[0] == 'p');
    assert("phi"@.len() == 3 && "phi"@[0] == 'p');
    assert("load"@.len() == 4 && "load"@[0] == 'l');
    assert("jmp"@.len() == 3 && "jmp"@[0] == 'j');
    assert("br"@.len() == 2 && "br"@[0] == 'b');
    assert("ret"@.len() == 3 && "ret"@[0] == 'r');
    assert("const"@.len() == 5 && "const"@[0] == 'c');
}

/// Which items of every block the global sweep keeps: all but the
/// definitions of variables that no item of the body reads.
pub open spec fn global_flags(code: Seq<CodeView>) -> Seq<Seq<bool>> {
    Seq::new(
        blocks_of(code).len(),
        |k: int|
            Seq::new(
                blocks_of(code)[k].len(),
                |i: int| !is_unused_def(blocks_of(code)[k][i], used_args(code)),
            ),
    )
}

/// Which items of every block the local sweep keeps: all but the
/// definitions that are killed.
pub open spec fn local_flags(code: Seq<CodeView>) -> Seq<Seq<bool>> {
    Seq::new(
        blocks_of(code).len(),
        |k: int| Seq::new(blocks_of(code)[k].len(), |i: int| !killed(blocks_of(code)[k], i)),
    )
}

/// Sweeping two bodies, one after the other, sweeps each.
pub proof fn lemma_without_concat(a: Seq<CodeView>, b: Seq<CodeView>, u: Set<Seq<char>>)
    ensures
        without_unused(a + b, u) == without_unused(a, u) + without_unused(b, u),
    decreases b.len(),
{
    if b.len() == 0 {
        assert(a + b =~= a);
        assert(without_unused(a, u) + without_unused(b, u) =~= without_unused(a, u));
    } else {
        lemma_without_concat(a, b.drop_last(), u);
        assert((a + b).drop_last() =~= a + b.drop_last());
        assert((a + b).last() == b.last());
        let r = without_unused(a, u) + without_unused(b.drop_last(), u);
        if !is_unused_def(b.last(), u) {
            assert(r.push(b.last()) =~= without_unused(a, u) + without_unused(
                b.drop_last(),
                u,
            ).push(b.last()));
        }
    }
}

/// The first items of a block that the sweep keeps are the first items
/// without the definitions of unused variables.
pub proof fn lemma_without_picked(b: Seq<CodeView>, u: Set<Seq<char>>, fl: Seq<bool>, i: nat)
    requires
        i <= b.len(),
        fl.len() == b.len(),
        forall|j: int| 0 <= j < b.len() ==> #[trigger] fl[j] == !is_unused_def(b[j], u),
    ensures
        picked(b, fl, i) == without_unused(b.take(i as int), u),
    decreases i,
{
    if i > 0 {
        lemma_without_picked(b, u, fl, (i - 1) as nat);
        assert(b.take(i as int).drop_last() =~= b.take(i - 1));
        assert(b.take(i as int).last() == b[i - 1]);
        assert(fl[i - 1] == !is_unused_def(b[i - 1], u));
    } else {
        assert(b.take(0) =~= Seq::<CodeView>::empty());
    }
}

/// The body after the global sweep is the blocks of the body, each with
/// the items that the sweep keeps.
pub proof fn lemma_global_thinned(code: Seq<CodeView>, k: nat)
    requires
        k <= blocks_of(code).len(),
    ensures
        without_unused(flat_upto(blocks_of(code), k), used_args(code)) == flat_upto(
            thinned(blocks_of(code), global_flags(code)),
            k,
        ),
    decreases k,
{
    if k > 0 {
        lemma_global_thinned(code, (k - 1) as nat);
        let bs = blocks_of(code);
        let u = used_args(code);
        let b = bs[k - 1];
        lemma_without_concat(flat_upto(bs, (k - 1) as nat), b, u);
        lemma_without_picked(b, u, global_flags(code)[k - 1], b.len());
        assert(b.take(b.len() as int) =~= b);
    }
}

/// The first items of a block that the local sweep keeps are the first
/// items without the killed definitions.
pub proof fn lemma_unkilled_picked(b: Seq<CodeView>, fl: Seq<bool>, i: nat)
    requires
        i <= b.len(),
        fl.len() == b.len(),
        forall|j: int| 0 <= j < b.len() ==> #[trigger] fl[j] == !killed(b, j),
    ensures
        picked(b, fl, i) == unkilled(b, i),
    decreases i,
{
    if i > 0 {
        lemma_unkilled_picked(b, fl, (i - 1) as nat);
        assert(fl[i - 1] == !killed(b, i - 1));
    }
}

/// Whether the function `g` is the function `f` with another body.
pub open spec fn same_header(f: Function, g: Function) -> bool {
    &&& g.name@ == f.name@
    &&& g.return_type == f.return_type
    &&& g.args.len() == f.args.len()
    &&& forall|i: int|
        0 <= i < f.args.len() ==> (#[trigger] g.args[i]).name@ == f.args[i].name@
            && g.args[i].arg_type == f.args[i].arg_type
}

/// Whether the function `g` is the function `f` after a global sweep that
/// leaves out plain definitions only, and leaves a block if there was one.
pub open spec fn global_sweep_of(f: Function, g: Function) -> bool {
    let code = codes(f.instrs@);
    &&& same_header(f, g)
    &&& codes(g.instrs@) == global_swept(code)
    &&& forall|i: int|
        0 <= i < code.len() && is_unused_def(#[trigger] code[i], used_args(code)) ==> plain_item(
            code[i],
        )
    &&& blocks_of(code).len() > 0 ==> blocks_of(global_swept(code)).len() > 0
}

/// Whether the function `g` is the function `f` after a local sweep that
/// leaves out plain definitions only, and leaves a block if there was one.
pub open spec fn local_sweep_of(f: Function, g: Function) -> bool {
    let code = codes(f.instrs@);
    let bs = blocks_of(code);
    &&& same_header(f, g)
    &&& codes(g.instrs@) == local_swept(code)
    &&& forall|k: int, i: int|
        0 <= k < bs.len() && 0 <= i < bs[k].len() && killed(bs[k], i) ==> plain_item(
            #[trigger] bs[k][i],
        )
    &&& bs.len() > 0 ==> blocks_of(local_swept(code)).len() > 0
}

/// A global sweep that leaves out plain definitions only is a sweep that
/// leaves out definitions whose values do not matter.
pub proof fn lemma_global_sweeps(f: Function, g: Function)
    requires
        global_sweep_of(f, g),
    ensures
        sweeps(f, g, global_flags(codes(f.instrs@))),
{
    let code = codes(f.instrs@);
    let bs = blocks_of(code);
    let n = bs.len();
    let flags = global_flags(code);
    let u = used_args(code);
    lemma_blocks_partition(code);
    lemma_blocks_adjacent(code);
    lemma_flat_upto(bs);
    lemma_flat_items(bs, n);
    assert forall|k: int, i: int|
        0 <= k < bs.len() && 0 <= i < bs[k].len() implies #[trigger] kept_or_goes(
        code,
        bs,
        flags,
        k,
        i,
    ) by {
        if !flags[k][i] {
            assert(flat_upto(bs, n).contains(bs[k][i]));
            let x = choose|x: int| 0 <= x < code.len() && code[x] == bs[k][i];
            assert(is_unused_def(code[x], u));
        }
    }
    assert forall|k: int, i: int|
        0 <= k < bs.len() && 0 <= i < bs[k].len() && !flags[k][i] implies dest_of(
        #[trigger] bs[k][i],
    ) is Some && !ends_block(bs[k][i]) by {
        assert(kept_or_goes(code, bs, flags, k, i));
        lemma_plain_not_terminator(bs[k][i]);
    }
    assert(flags_fit(bs, flags));
    let ts = thinned(bs, flags);
    lemma_global_thinned(code, n);
    lemma_flat_upto(ts);
    assert(codes(g.instrs@) == flat(ts));
    assert(thins(bs, flags));
    lemma_thinned_joined(bs, flags);
    lemma_blocks_of_solid(ts);
}

/// A local sweep that leaves out plain definitions only is a sweep that
/// leaves out definitions whose values do not matter.
pub proof fn lemma_local_sweeps(f: Function, g: Function)
    requires
        local_sweep_of(f, g),
    ensures
        sweeps(f, g, local_flags(codes(f.instrs@))),
{
    let code = codes(f.instrs@);
    let bs = blocks_of(code);
    let n = bs.len();
    let flags = local_flags(code);
    lemma_blocks_partition(code);
    lemma_blocks_adjacent(code);
    assert forall|k: int, i: int|
        0 <= k < bs.len() && 0 <= i < bs[k].len() implies #[trigger] kept_or_goes(
        code,
        bs,
        flags,
        k,
        i,
    ) by {
        if !flags[k][i] {
            assert(plain_item(bs[k][i]));
        }
    }
    assert forall|k: int, i: int|
        0 <= k < bs.len() && 0 <= i < bs[k].len() && !flags[k][i] implies dest_of(
        #[trigger] bs[k][i],
    ) is Some && !ends_block(bs[k][i]) by {
        assert(kept_or_goes(code, bs, flags, k, i));
        lemma_plain_not_terminator(bs[k][i]);
    }
    assert(flags_fit(bs, flags));
    let ts = thinned(bs, flags);
    let mapped = bs.map_values(|b: Seq<CodeView>| unkilled(b, b.len()));
    assert(mapped =~= ts) by {
        assert forall|k: int| 0 <= k < n implies mapped[k] == ts[k] by {
            lemma_unkilled_picked(bs[k], flags[k], bs[k].len());
        }
    }
    assert(codes(g.instrs@) == flat(ts));
    assert(thins(bs, flags));
    lemma_thinned_joined(bs, flags);
    lemma_blocks_of_solid(ts);
}


/// Whether the function `g` is the function `f` after a sweep, global or
/// local, that leaves out plain definitions only, and leaves a block if
/// there was one.
pub open spec fn sweep_of(f: Function, g: Function) -> bool {
    global_sweep_of(f, g) || local_sweep_of(f, g)
}

/// Whether the function `g` is the function `f` after one round of
/// elimination that leaves out plain definitions only, and leaves a block
/// if there was one.
pub open spec fn round_of(f: Function, g: Function) -> bool {
    let code = codes(f.instrs@);
    &&& same_header(f, g)
    &&& codes(g.instrs@) == dce_step(code)
    &&& if global_swept(code) != code {
        global_sweep_of(f, g)
    } else {
        local_sweep_of(f, g)
    }
}

/// Whether the program `q` is the program `p` after a sweep of every
/// function.
pub open spec fn program_swept(p: Program, q: Program) -> bool {
    &&& q.functions.len() == p.functions.len()
    &&& forall|i: int|
        0 <= i < p.functions.len() ==> sweep_of(#[trigger] p.functions[i], q.functions[i])
}

/// How the functions of the program after a sweep lack definitions of the
/// functions before it.
pub open spec fn thins_for(p: Program, q: Program) -> Seq<Thin> {
    Seq::new(
        p.functions.len() as nat,
        |i: int|
            thin_for(
                blocks_of(codes(p.functions[i].instrs@)),
                if global_sweep_of(p.functions[i], q.functions[i]) {
                    global_flags(codes(p.functions[i].instrs@))
                } else {
                    local_flags(codes(p.functions[i].instrs@))
                },
                function_table(p.functions[i]),
                function_table(q.functions[i]),
            ),
    )
}

/// The program that the interpreter runs after a sweep is the program
/// that it runs before, without definitions whose values do not matter.
pub proof fn lemma_program_thin(p: Program, q: Program, bp: BBProgram, bq: BBProgram)
    requires
        program_swept(p, q),
        made_ready(p, bp),
        made_ready(q, bq),
    ensures
        program_thin(bp, bq, thins_for(p, q)),
{
    let ts = thins_for(p, q);
    assert forall|i: int| 0 <= i < bp.functions.len() implies function_thin(
        #[trigger] bp.functions[i],
        bq.functions[i],
        ts[i],
    ) by {
        let f = p.functions[i];
        let g = q.functions[i];
        assert(sweep_of(f, g));
        assert(is_numified(f, bp.functions[i]));
        assert(is_numified(g, bq.functions[i]));
        if global_sweep_of(f, g) {
            lemma_global_sweeps(f, g);
            lemma_thin_function(
                f,
                g,
                global_flags(codes(f.instrs@)),
                bp.functions[i],
                bq.functions[i],
            );
        } else {
            lemma_local_sweeps(f, g);
            lemma_thin_function(
                f,
                g,
                local_flags(codes(f.instrs@)),
                bp.functions[i],
                bq.functions[i],
            );
        }
    }
}

/// Whether `j` steps of the run of the second program show what `k` steps
/// of the run of the first show, and end well, without a collection.
pub open spec fn shows_same(
    bp: BBProgram,
    bq: BBProgram,
    inputs: Seq<Input>,
    k: nat,
    j: nat,
) -> bool {
    &&& shown(started(bq, inputs)->Ok_0, bq, j) == shown(started(bp, inputs)->Ok_0, bp, k)
    &&& runs_well(started(bq, inputs)->Ok_0, bq, j)
    &&& never_collects(started(bq, inputs)->Ok_0, bq, j)
}

/// A sweep keeps what a program does. The program after a sweep, global or
/// local, of every function shows what the program before the sweep shows:
/// what the steps of its run ask for is what the steps of the run of the
/// first ask for, in order, but for the steps that ask for nothing. This
/// holds for as many steps of the first run as end well, without a
/// collection, where the sweep leaves out plain definitions only and
/// leaves a block of every function that had one.
pub proof fn lemma_sweep_runs(
    p: Program,
    q: Program,
    bp: BBProgram,
    bq: BBProgram,
    inputs: Seq<Input>,
    k: nat,
)
    requires
        program_swept(p, q),
        made_ready(p, bp),
        made_ready(q, bq),
        started(bp, inputs) is Ok,
        runs_well(started(bp, inputs)->Ok_0, bp, k),
        never_collects(started(bp, inputs)->Ok_0, bp, k),
    ensures
        started(bq, inputs) is Ok,
        exists|j: nat| #[trigger] shows_same(bp, bq, inputs, k, j),
{
    let ts = thins_for(p, q);
    lemma_program_thin(p, q, bp, bq);
    lemma_start_thin(bp, bq, ts, inputs);
    let a = started(bp, inputs)->Ok_0;
    let b = started(bq, inputs)->Ok_0;
    lemma_run_thin(a, b, bp, bq, ts, k);
    let j = choose|j: nat| #[trigger] run_thin(a, b, bp, bq, ts, k, j);
    assert(shows_same(bp, bq, inputs, k, j));
}

/// Sweep after sweep keeps what a program does. Where every program of a
/// list is the program before it after a sweep of every function, the last
/// shows what the first shows, for as many steps of the run of the first
/// as end well, without a collection.
pub proof fn lemma_sweeps_run(
    progs: Seq<Program>,
    ready: Seq<BBProgram>,
    inputs: Seq<Input>,
    k: nat,
)
    requires
        progs.len() > 0,
        ready.len() == progs.len(),
        forall|r: int| 0 <= r < progs.len() ==> made_ready(#[trigger] progs[r], ready[r]),
        forall|r: int| 0 <= r < progs.len() - 1 ==> program_swept(#[trigger] progs[r], progs[r + 1]),
        started(ready[0], inputs) is Ok,
        runs_well(started(ready[0], inputs)->Ok_0, ready[0], k),
        never_collects(started(ready[0], inputs)->Ok_0, ready[0], k),
    ensures
        started(ready.last(), inputs) is Ok,
        exists|j: nat| #[trigger] shows_same(ready[0], ready.last(), inputs, k, j),
    decreases progs.len(),
{
    if progs.len() == 1 {
        assert(shows_same(ready[0], ready.last(), inputs, k, k));
    } else {
        assert(made_ready(progs[0], ready[0]));
        assert(made_ready(progs[1], ready[1]));
        assert(program_swept(progs[0], progs[1]));
        lemma_sweep_runs(progs[0], progs[1], ready[0], ready[1], inputs, k);
        let j = choose|j: nat| #[trigger] shows_same(ready[0], ready[1], inputs, k, j);
        let rest = progs.drop_first();
        let rest_ready = ready.drop_first();
        assert forall|r: int| 0 <= r < rest.len() implies made_ready(
            #[trigger] rest[r],
            rest_ready[r],
        ) by {
            assert(made_ready(progs[r + 1], ready[r + 1]));
        }
        assert forall|r: int| 0 <= r < rest.len() - 1 implies program_swept(
            #[trigger] rest[r],
            rest[r + 1],
        ) by {
            assert(program_swept(progs[r + 1], progs[r + 1 + 1]));
        }
        lemma_sweeps_run(rest, rest_ready, inputs, j);
        let i = choose|i: nat| #[trigger] shows_same(rest_ready[0], rest_ready.last(), inputs, j, i);
        assert(rest_ready.last() == ready.last());
        assert(shows_same(ready[0], ready.last(), inputs, k, i));
    }
}


/// A round of elimination that leaves out plain definitions only is a
/// sweep, global or local.
pub proof fn lemma_round_sweeps(f: Function, g: Function)
    requires
        round_of(f, g),
    ensures
        sweep_of(f, g),
{
}


/// A round of elimination deletes an item, or the body is clean.
pub proof fn lemma_step_shorter(code: Seq<CodeView>)
    ensures
        is_clean(code) || dce_step(code).len() < code.len(),
{
    lemma_without_unused_len(code, used_args(code));
    if global_swept(code) == code {
        let all = blocks_of(code);
        lemma_blocks_partition(code);
        lemma_flat_swept(all, all.len());
        assert(all.take(all.len() as int) =~= all);
        let swept = all.map_values(|b: Seq<CodeView>| unkilled(b, b.len()));
        assert(swept.take(all.len() as int) =~= swept);
    }
}

/// As many rounds of elimination as the body has items leave a clean
/// body, and more rounds change nothing.
pub proof fn lemma_body_clean(code: Seq<CodeView>, r: nat)
    requires
        r >= code.len(),
    ensures
        is_clean(dce_rounds(code, r)),
        dce_rounds(code, r) == dce_body(code),
    decreases code.len(),
{
    lemma_step_shorter(code);
    if is_clean(code) {
        lemma_rounds_clean(code, r);
        lemma_rounds_clean(code, code.len());
    } else {
        let next = dce_step(code);
        let m = next.len();
        lemma_body_clean(next, (r - 1) as nat);
        lemma_body_clean(next, (code.len() - 1) as nat);
    }
}

/// Whether the program `q` is the program `p` after one round of
/// elimination in every function.
pub open spec fn program_round(p: Program, q: Program) -> bool {
    &&& q.functions.len() == p.functions.len()
    &&& forall|i: int|
        0 <= i < p.functions.len() ==> round_of(#[trigger] p.functions[i], q.functions[i])
}

/// After `r` rounds the bodies of a program are the bodies of the first
/// program after `r` rounds of elimination.
pub proof fn lemma_rounds_reach(progs: Seq<Program>, r: int, i: int)
    requires
        0 <= r < progs.len(),
        forall|x: int| 0 <= x < progs.len() - 1 ==> program_round(#[trigger] progs[x], progs[x + 1]),
        0 <= i < progs[0].functions.len(),
    ensures
        progs[r].functions.len() == progs[0].functions.len(),
        codes(progs[r].functions[i].instrs@) == dce_rounds(
            codes(progs[0].functions[i].instrs@),
            r as nat,
        ),
    decreases r,
{
    if r > 0 {
        lemma_rounds_reach(progs, r - 1, i);
        assert(program_round(progs[r - 1], progs[r - 1 + 1]));
        assert(round_of(progs[r - 1].functions[i], progs[r].functions[i]));
        let start = codes(progs[0].functions[i].instrs@);
        lemma_rounds_add(start, (r - 1) as nat, 1);
        let before = dce_rounds(start, (r - 1) as nat);
        assert(dce_rounds(before, 1) == dce_rounds(dce_step(before), 0));
    }
}

/// Elimination keeps what a program does. Where every program of a list
/// is the program before it after one round of elimination in every
/// function, and the rounds are as many as the longest body has items, the
/// bodies of the last program are the bodies of the first after
/// elimination, and the last program shows what the first shows: what the
/// steps of its run ask for is what the steps of the run of the first ask
/// for, in order, but for the steps that ask for nothing. This holds for
/// as many steps of the first run as end well, without a collection, where
/// the rounds leave out plain definitions only and leave a block of every
/// function that had one.
pub proof fn lemma_elimination_runs(
    progs: Seq<Program>,
    ready: Seq<BBProgram>,
    inputs: Seq<Input>,
    k: nat,
)
    requires
        progs.len() > 0,
        ready.len() == progs.len(),
        forall|r: int| 0 <= r < progs.len() ==> made_ready(#[trigger] progs[r], ready[r]),
        forall|r: int| 0 <= r < progs.len() - 1 ==> program_round(#[trigger] progs[r], progs[r + 1]),
        forall|i: int|
            0 <= i < progs[0].functions.len() ==> (#[trigger] progs[0].functions[i]).instrs.len()
                < progs.len(),
        started(ready[0], inputs) is Ok,
        runs_well(started(ready[0], inputs)->Ok_0, ready[0], k),
        never_collects(started(ready[0], inputs)->Ok_0, ready[0], k),
    ensures
        progs.last().functions.len() == progs[0].functions.len(),
        forall|i: int|
            0 <= i < progs[0].functions.len() ==> codes(
                (#[trigger] progs.last().functions[i]).instrs@,
            ) == dce_body(codes(progs[0].functions[i].instrs@)),
        started(ready.last(), inputs) is Ok,
        exists|j: nat| #[trigger] shows_same(ready[0], ready.last(), inputs, k, j),
{
    let n = progs.len() - 1;
    assert forall|r: int| 0 <= r < progs.len() - 1 implies program_swept(
        #[trigger] progs[r],
        progs[r + 1],
    ) by {
        assert(program_round(progs[r], progs[r + 1]));
        assert forall|i: int| 0 <= i < progs[r].functions.len() implies sweep_of(
            #[trigger] progs[r].functions[i],
            progs[r + 1].functions[i],
        ) by {
            lemma_round_sweeps(progs[r].functions[i], progs[r + 1].functions[i]);
        }
    }
    lemma_sweeps_run(progs, ready, inputs, k);
    if progs[0].functions.len() > 0 {
        lemma_rounds_reach(progs, n, 0);
    } else {
        lemma_rounds_len(progs, n);
    }
    assert forall|i: int| 0 <= i < progs[0].functions.len() implies codes(
        (#[trigger] progs.last().functions[i]).instrs@,
    ) == dce_body(codes(progs[0].functions[i].instrs@)) by {
        lemma_rounds_reach(progs, n, i);
        let start = codes(progs[0].functions[i].instrs@);
        assert(start.len() == progs[0].functions[i].instrs.len());
        lemma_body_clean(start, n as nat);
    }
}

/// Rounds of elimination keep the number of functions.
pub proof fn lemma_rounds_len(progs: Seq<Program>, r: int)
    requires
        0 <= r < progs.len(),
        forall|x: int| 0 <= x < progs.len() - 1 ==> program_round(#[trigger] progs[x], progs[x + 1]),
    ensures
        progs[r].functions.len() == progs[0].functions.len(),
    decreases r,
{
    if r > 0 {
        lemma_rounds_len(progs, r - 1);
        assert(program_round(progs[r - 1], progs[r - 1 + 1]));
    }
}

} // verus!
