//! The way of a body through the control-flow graph and back: what the
//! body that comes back is made of, block by block.
use crate::cfg::{
    closed, closed_block, is_cfg_of, jmp_view, jump_labels, key_set, label_free, label_map,
    lemma_name_blocks_len, name_blocks, number_blocks, reassembled, ret_view, terminate, Cfg,
};
use crate::df::{args_of, dest_of};
use crate::form_blocks::{
    blocks_of, ends_block, flat, is_label, lemma_blocks_partition, scan, well_shaped,
};
use crate::fresh::fresh_name;
use crate::interp::explicit::{
    block_explicit, function_explicit, is_control, is_jump, is_return, lemma_run_explicit,
    lemma_start_explicit, program_explicit, runs_well, same_instr, shifted, shown, tidy,
};
use crate::interp::machine::{started, Input};
use crate::interp::numify::{
    block_instrs, block_matches, block_named, block_ready, convertible, effect_op_named,
    ends_in_jump, ends_in_ret, function_table, instr_matches, is_numified, label_of,
    lemma_block_found, numifiable, var_table, with_item, with_vars,
};
use crate::interp::program::{BBFunction, BBProgram, BasicBlock, EffectOp, Instr};
use crate::ir::{codes, CodeView, Function, InstrView, Program};
use crate::ordered::{distinct_keys, has_key, keys, lemma_upsert_distinct, upsert};
use crate::ssa::param_names;
use vstd::prelude::*;
use vstd::string::*;

verus! {

/// Whether a block is sealed: it is not empty, holds no label, and holds a
/// terminator at its end and nowhere else.
pub open spec fn sealed(b: Seq<CodeView>) -> bool {
    &&& b.len() > 0
    &&& label_free(b)
    &&& ends_block(b.last())
    &&& forall|i: int| 0 <= i < b.len() - 1 ==> !ends_block(#[trigger] b[i])
}

/// The scan takes items that are neither labels nor terminators into the
/// open block.
pub proof fn lemma_scan_run(code: Seq<CodeView>, mid: Seq<CodeView>)
    requires
        forall|i: int| 0 <= i < mid.len() ==> !is_label(#[trigger] mid[i]) && !ends_block(mid[i]),
    ensures
        scan(code + mid) == (scan(code).0, scan(code).1 + mid),
    decreases mid.len(),
{
    if mid.len() == 0 {
        assert(code + mid =~= code);
        assert(scan(code).1 + mid =~= scan(code).1);
    } else {
        let front = mid.drop_last();
        assert forall|i: int| 0 <= i < front.len() implies !is_label(#[trigger] front[i])
            && !ends_block(front[i]) by {
            assert(front[i] == mid[i]);
        }
        lemma_scan_run(code, front);
        assert((code + mid).drop_last() =~= code + front);
        assert((code + mid).last() == mid[mid.len() - 1]);
        assert(scan(code).1 + mid =~= (scan(code).1 + front).push(mid.last()));
    }
}

/// After a body that leaves no block open, a label and a sealed block make
/// one more block.
pub proof fn lemma_scan_sealed(code: Seq<CodeView>, label: CodeView, body: Seq<CodeView>)
    requires
        scan(code).1.len() == 0,
        is_label(label),
        sealed(body),
    ensures
        scan(code.push(label) + body) == (scan(code).0.push(seq![label] + body), Seq::<
            CodeView,
        >::empty()),
{
    let c1 = code.push(label);
    assert(c1.drop_last() =~= code);
    assert(scan(c1) == (scan(code).0, seq![label]));
    let mid = body.drop_last();
    assert forall|i: int| 0 <= i < mid.len() implies !is_label(#[trigger] mid[i]) && !ends_block(
        mid[i],
    ) by {
        assert(mid[i] == body[i]);
    }
    lemma_scan_run(c1, mid);
    assert((c1 + body).drop_last() =~= c1 + mid);
    assert((c1 + body).last() == body[body.len() - 1]);
    assert(!is_label(body[body.len() - 1]));
    assert((seq![label] + mid).push(body.last()) =~= seq![label] + body);
}

/// The blocks of a list of numbered blocks, each with its label in front.
pub open spec fn labelled(entries: Seq<(i32, Seq<CodeView>)>, pairs: Map<i32, Seq<char>>) -> Seq<
    Seq<CodeView>,
> {
    Seq::new(
        entries.len(),
        |p: int| seq![CodeView::Label { label: pairs[entries[p].0] }] + entries[p].1,
    )
}

/// The body that a list of sealed blocks stands for falls into those
/// blocks again, each with its label in front.
pub proof fn lemma_blocks_of_reassembled(
    entries: Seq<(i32, Seq<CodeView>)>,
    pairs: Map<i32, Seq<char>>,
)
    requires
        forall|p: int| 0 <= p < entries.len() ==> sealed((#[trigger] entries[p]).1),
    ensures
        scan(reassembled(entries, pairs)) == (labelled(entries, pairs), Seq::<CodeView>::empty()),
        blocks_of(reassembled(entries, pairs)) == labelled(entries, pairs),
    decreases entries.len(),
{
    if entries.len() == 0 {
        assert(labelled(entries, pairs) =~= Seq::<Seq<CodeView>>::empty());
    } else {
        let front = entries.drop_last();
        assert forall|p: int| 0 <= p < front.len() implies sealed((#[trigger] front[p]).1) by {
            assert(front[p] == entries[p]);
        }
        lemma_blocks_of_reassembled(front, pairs);
        let code = reassembled(front, pairs);
        let label = CodeView::Label { label: pairs[entries.last().0] };
        assert(sealed(entries[entries.len() - 1].1));
        lemma_scan_sealed(code, label, entries.last().1);
        assert(labelled(entries, pairs) =~= labelled(front, pairs).push(
            seq![label] + entries.last().1,
        ));
    }
}

/// A block without the label that it starts with, if it starts with one.
pub open spec fn stripped(b: Seq<CodeView>) -> Seq<CodeView> {
    if b.len() > 0 && b[0] is Label {
        b.drop_first()
    } else {
        b
    }
}

/// Whether every block comes under a name of its own: no label stands at
/// the start of two blocks, and none is the name that a block without a
/// label was given before.
pub open spec fn plainly_named(bs: Seq<Seq<CodeView>>) -> bool {
    name_blocks(bs).len() == bs.len()
}

/// Where every block comes under a name of its own, the named blocks are
/// the blocks in order, each without its label and under the label if it
/// has one; and no two names are the same.
pub proof fn lemma_plain_names(bs: Seq<Seq<CodeView>>)
    requires
        plainly_named(bs),
    ensures
        distinct_keys(name_blocks(bs)),
        forall|k: int|
            0 <= k < bs.len() ==> (#[trigger] name_blocks(bs)[k]).1 == stripped(bs[k]) && (label_of(
                bs[k],
            ) is Some ==> name_blocks(bs)[k].0 == label_of(bs[k])->0),
    decreases bs.len(),
{
    if bs.len() > 0 {
        let front = bs.drop_last();
        lemma_name_blocks_len(front);
        let prev = name_blocks(front);
        let b = bs.last();
        let key = if b.len() > 0 && b[0] is Label {
            b[0]->label
        } else {
            fresh_name("b"@, key_set(prev))
        };
        let v = stripped(b);
        assert(name_blocks(bs) == upsert(prev, key, v));
        assert(!has_key(prev, key));
        assert(plainly_named(front));
        lemma_plain_names(front);
        lemma_upsert_distinct(prev, key, v);
        assert forall|k: int| 0 <= k < bs.len() implies (#[trigger] name_blocks(bs)[k]).1
            == stripped(bs[k]) && (label_of(bs[k]) is Some ==> name_blocks(bs)[k].0 == label_of(
            bs[k],
        )->0) by {
            if k < front.len() {
                assert(name_blocks(bs)[k] == prev[k]);
                assert(front[k] == bs[k]);
            }
        }
    }
}


/// A well-shaped block without its label holds no label, and a terminator
/// only at its end.
pub proof fn lemma_stripped_shape(b: Seq<CodeView>)
    requires
        well_shaped(b),
    ensures
        label_free(stripped(b)),
        forall|i: int| 0 <= i < stripped(b).len() - 1 ==> !ends_block(#[trigger] stripped(b)[i]),
        stripped(b).len() > 0 ==> stripped(b).last() == b.last(),
{
    let t = stripped(b);
    if b[0] is Label {
        assert forall|i: int| 0 <= i < t.len() implies !is_label(#[trigger] t[i]) by {
            assert(t[i] == b[i + 1]);
        }
        assert forall|i: int| 0 <= i < t.len() - 1 implies !ends_block(#[trigger] t[i]) by {
            assert(t[i] == b[i + 1]);
        }
    } else {
        assert forall|i: int| 0 <= i < t.len() implies !is_label(#[trigger] t[i]) by {
            if i > 0 {
            }
        }
    }
}

/// Whether a block holds no terminator.
pub open spec fn open_block(b: Seq<CodeView>) -> bool {
    forall|i: int| 0 <= i < b.len() ==> !ends_block(#[trigger] b[i])
}

/// A well-shaped block without its label either ends with a terminator or
/// holds none.
pub proof fn lemma_open_or_closed(b: Seq<CodeView>)
    requires
        well_shaped(b),
    ensures
        closed(stripped(b)) || open_block(stripped(b)),
{
    lemma_stripped_shape(b);
    let t = stripped(b);
    if !closed(t) {
        assert forall|i: int| 0 <= i < t.len() implies !ends_block(#[trigger] t[i]) by {
            if i < t.len() - 1 {
            }
        }
    }
}

/// The blocks of a graph of well-shaped blocks are sealed, where every
/// block came under a name of its own.
pub proof fn lemma_closed_sealed(bs: Seq<Seq<CodeView>>, k: int)
    requires
        plainly_named(bs),
        0 <= k < bs.len(),
        well_shaped(bs[k]),
    ensures
        sealed(closed_block(name_blocks(bs), k)),
        closed(stripped(bs[k])) ==> closed_block(name_blocks(bs), k) == stripped(bs[k]),
        !closed(stripped(bs[k])) && k < bs.len() - 1 ==> closed_block(name_blocks(bs), k) == stripped(
            bs[k],
        ).push(CodeView::Instruction(jmp_view(name_blocks(bs)[k + 1].0))),
        !closed(stripped(bs[k])) && k == bs.len() - 1 ==> closed_block(name_blocks(bs), k)
            == stripped(bs[k]).push(CodeView::Instruction(ret_view())),
{
    lemma_plain_names(bs);
    lemma_stripped_shape(bs[k]);
    lemma_open_or_closed(bs[k]);
    let t = stripped(bs[k]);
    assert(name_blocks(bs)[k].1 == t);
    let c = closed_block(name_blocks(bs), k);
    if !closed(t) {
        assert forall|i: int| 0 <= i < c.len() implies !is_label(#[trigger] c[i]) by {
            if i < t.len() {
                assert(c[i] == t[i]);
            }
        }
        assert forall|i: int| 0 <= i < c.len() - 1 implies !ends_block(#[trigger] c[i]) by {
            assert(c[i] == t[i]);
        }
    }
}

/// By how many blocks the graph is longer than the list of blocks that it
/// was made of.
pub open spec fn lead_of(cfg: Cfg, bs: Seq<Seq<CodeView>>) -> int {
    cfg.size() - bs.len()
}

/// The blocks of the body that comes back from the graph: the blocks of
/// the graph in order, each with its label in front. They are the blocks
/// that went in, sealed and under their names; before them, if an edge
/// leads to the first, stands a block under a name of its own that only
/// jumps to the first.
pub proof fn lemma_roundtrip_blocks(cfg: Cfg, bs: Seq<Seq<CodeView>>)
    requires
        is_cfg_of(cfg, bs),
        plainly_named(bs),
        forall|k: int| 0 <= k < bs.len() ==> well_shaped(#[trigger] bs[k]),
    ensures
        lead_of(cfg, bs) == 0 || lead_of(cfg, bs) == 1,
        lead_of(cfg, bs) == 1 ==> bs.len() > 0,
        blocks_of(reassembled(cfg.entries(), cfg.labels())) == labelled(
            cfg.entries(),
            cfg.labels(),
        ),
        labelled(cfg.entries(), cfg.labels()).len() == bs.len() + lead_of(cfg, bs),
        forall|k: int|
            0 <= k < bs.len() ==> #[trigger] labelled(cfg.entries(), cfg.labels())[k + lead_of(
                cfg,
                bs,
            )] == seq![CodeView::Label { label: name_blocks(bs)[k].0 }] + closed_block(
                name_blocks(bs),
                k,
            ),
        lead_of(cfg, bs) == 1 ==> exists|e: Seq<char>|
            {
                &&& labelled(cfg.entries(), cfg.labels())[0] == seq![
                    CodeView::Label { label: e },
                    CodeView::Instruction(jmp_view(name_blocks(bs)[0].0)),
                ]
                &&& forall|k: int| 0 <= k < bs.len() ==> (#[trigger] name_blocks(bs)[k]).0 != e
            },
{
    let named0 = name_blocks(bs);
    let named = terminate(named0);
    let numbered = number_blocks(named);
    let pairs = label_map(keys(named));
    let n = bs.len() as int;
    let entries = cfg.entries();
    let labels = cfg.labels();
    let sh = lead_of(cfg, bs);
    assert(named.len() == n);
    assert(numbered.len() == n);
    assert forall|k: int| 0 <= k < n implies sealed((#[trigger] numbered[k]).1) && pairs[k as i32]
        == named0[k].0 by {
        lemma_closed_sealed(bs, k);
        assert(keys(named)[k] == named[k].0);
    }
    if entries == numbered {
        assert forall|p: int| 0 <= p < entries.len() implies sealed((#[trigger] entries[p]).1) by {
            assert(sealed(numbered[p].1));
        }
        lemma_blocks_of_reassembled(entries, labels);
        assert forall|k: int| 0 <= k < n implies #[trigger] labelled(entries, labels)[k + sh]
            == seq![CodeView::Label { label: named0[k].0 }] + closed_block(named0, k) by {
            assert(sealed(numbered[k].1));
            assert(numbered[k].0 == k as i32);
        }
    } else {
        let first = (n as i32, seq![CodeView::Instruction(jmp_view(named[0].0))]);
        assert(entries == seq![first] + numbered);
        assert(sealed(first.1));
        assert forall|p: int| 0 <= p < entries.len() implies sealed((#[trigger] entries[p]).1) by {
            if p > 0 {
                assert(entries[p] == numbered[p - 1]);
                assert(sealed(numbered[p - 1].1));
            }
        }
        lemma_blocks_of_reassembled(entries, labels);
        let e = labels[n as i32];
        assert forall|k: int| 0 <= k < n implies #[trigger] labelled(entries, labels)[k + sh]
            == seq![CodeView::Label { label: named0[k].0 }] + closed_block(named0, k) by {
            assert(entries[k + 1] == numbered[k]);
            assert(sealed(numbered[k].1));
            assert(numbered[k].0 == k as i32);
            assert(labels[k as i32] == pairs[k as i32]);
        }
        assert(labelled(entries, labels)[0] =~= seq![
            CodeView::Label { label: e },
            CodeView::Instruction(jmp_view(named0[0].0)),
        ]);
        assert forall|k: int| 0 <= k < n implies (#[trigger] named0[k]).0 != e by {
            assert(sealed(numbered[k].1));
            assert(labels[k as i32] == named0[k].0);
            assert(labels.contains_key(k as i32));
            assert(labels.contains_key(n as i32));
        }
    }
}


/// The table after the variables of the first `k` items were added to a
/// table.
pub open spec fn tabled(t: Seq<Seq<char>>, items: Seq<CodeView>, k: nat) -> Seq<Seq<char>>
    decreases k,
{
    if k == 0 {
        t
    } else {
        with_item(tabled(t, items, (k - 1) as nat), items[k - 1])
    }
}

/// The table of a function is the table of its parameters with the
/// variables of its body added.
pub proof fn lemma_var_table_is(params: Seq<Seq<char>>, items: Seq<CodeView>, k: nat)
    ensures
        var_table(params, items, k) == tabled(
            with_vars(Seq::empty(), params, params.len()),
            items,
            k,
        ),
    decreases k,
{
    if k > 0 {
        lemma_var_table_is(params, items, (k - 1) as nat);
    }
}

/// The table after the first items depends on those items alone.
pub proof fn lemma_tabled_prefix(t: Seq<Seq<char>>, a: Seq<CodeView>, b: Seq<CodeView>, k: nat)
    requires
        k <= a.len(),
        k <= b.len(),
        forall|i: int| 0 <= i < k ==> a[i] == b[i],
    ensures
        tabled(t, a, k) == tabled(t, b, k),
    decreases k,
{
    if k > 0 {
        lemma_tabled_prefix(t, a, b, (k - 1) as nat);
    }
}

/// The table after two bodies, one after the other, is the table after the
/// second, from the table after the first.
pub proof fn lemma_tabled_concat(t: Seq<Seq<char>>, a: Seq<CodeView>, b: Seq<CodeView>, j: nat)
    requires
        j <= b.len(),
    ensures
        tabled(t, a + b, a.len() + j) == tabled(tabled(t, a, a.len()), b, j),
    decreases j,
{
    if j == 0 {
        lemma_tabled_prefix(t, a + b, a, a.len());
    } else {
        lemma_tabled_concat(t, a, b, (j - 1) as nat);
        assert((a + b)[a.len() + j - 1] == b[j - 1]);
    }
}

/// Whether an item names no variable.
pub open spec fn quiet(c: CodeView) -> bool {
    args_of(c).len() == 0 && dest_of(c) is None
}

/// The table after the blocks among the first `k`, in order.
pub open spec fn tabled_blocks(t: Seq<Seq<char>>, bs: Seq<Seq<CodeView>>, k: nat) -> Seq<Seq<char>>
    decreases k,
{
    if k == 0 {
        t
    } else {
        tabled(tabled_blocks(t, bs, (k - 1) as nat), bs[k - 1], bs[k - 1].len())
    }
}

/// The items of the first `k` blocks, in order.
pub open spec fn flat_upto(bs: Seq<Seq<CodeView>>, k: nat) -> Seq<CodeView>
    decreases k,
{
    if k == 0 {
        Seq::empty()
    } else {
        flat_upto(bs, (k - 1) as nat) + bs[k - 1]
    }
}

/// The items of all blocks are the items of the first blocks when these are
/// all.
pub proof fn lemma_flat_upto(bs: Seq<Seq<CodeView>>)
    ensures
        flat_upto(bs, bs.len()) == flat(bs),
    decreases bs.len(),
{
    if bs.len() > 0 {
        lemma_flat_upto(bs.drop_last());
        lemma_flat_upto_prefix(bs, bs.drop_last(), (bs.len() - 1) as nat);
    }
}

/// The items of the first blocks depend on those blocks alone.
pub proof fn lemma_flat_upto_prefix(a: Seq<Seq<CodeView>>, b: Seq<Seq<CodeView>>, k: nat)
    requires
        k <= a.len(),
        k <= b.len(),
        forall|i: int| 0 <= i < k ==> a[i] == b[i],
    ensures
        flat_upto(a, k) == flat_upto(b, k),
    decreases k,
{
    if k > 0 {
        lemma_flat_upto_prefix(a, b, (k - 1) as nat);
    }
}

/// The table after the items of the first blocks is the table after those
/// blocks.
pub proof fn lemma_tabled_flat(t: Seq<Seq<char>>, bs: Seq<Seq<CodeView>>, k: nat)
    requires
        k <= bs.len(),
    ensures
        tabled(t, flat_upto(bs, k), flat_upto(bs, k).len()) == tabled_blocks(t, bs, k),
    decreases k,
{
    if k > 0 {
        lemma_tabled_flat(t, bs, (k - 1) as nat);
        lemma_tabled_concat(t, flat_upto(bs, (k - 1) as nat), bs[k - 1], bs[k - 1].len());
    }
}

/// An item that names no variable in front of a body leaves the table as
/// it is.
pub proof fn lemma_tabled_quiet_front(t: Seq<Seq<char>>, c: CodeView, rest: Seq<CodeView>)
    requires
        quiet(c),
    ensures
        tabled(t, seq![c] + rest, rest.len() + 1) == tabled(t, rest, rest.len()),
{
    lemma_tabled_concat(t, seq![c], rest, rest.len());
    assert(tabled(t, seq![c], 1) == with_item(tabled(t, seq![c], 0), c));
    assert(seq![c].len() == 1);
}

/// An item that names no variable at the end of a body leaves the table as
/// it is.
pub proof fn lemma_tabled_quiet_back(t: Seq<Seq<char>>, rest: Seq<CodeView>, c: CodeView)
    requires
        quiet(c),
    ensures
        tabled(t, rest.push(c), rest.len() + 1) == tabled(t, rest, rest.len()),
{
    lemma_tabled_prefix(t, rest.push(c), rest, rest.len());
}

/// The instruction of an item that is no label.
pub open spec fn instr_at(c: CodeView) -> InstrView {
    match c {
        CodeView::Instruction(i) => i,
        CodeView::Label { .. } => arbitrary(),
    }
}

/// The instructions of a block without labels are its items.
pub proof fn lemma_block_instrs_free(b: Seq<CodeView>, k: nat)
    requires
        label_free(b),
        k <= b.len(),
    ensures
        block_instrs(b, k) == Seq::new(k, |i: int| instr_at(b[i])),
    decreases k,
{
    if k > 0 {
        lemma_block_instrs_free(b, (k - 1) as nat);
        assert(!is_label(b[k - 1]));
        assert(block_instrs(b, k) =~= Seq::new(k, |i: int| instr_at(b[i])));
    } else {
        assert(block_instrs(b, k) =~= Seq::new(k, |i: int| instr_at(b[i])));
    }
}

/// A label in front of a block adds no instruction.
pub proof fn lemma_block_instrs_label(c: CodeView, rest: Seq<CodeView>, k: nat)
    requires
        is_label(c),
        k <= rest.len(),
    ensures
        block_instrs(seq![c] + rest, k + 1) == block_instrs(rest, k),
    decreases k,
{
    let b = seq![c] + rest;
    if k > 0 {
        lemma_block_instrs_label(c, rest, (k - 1) as nat);
        assert(b[k as int] == rest[k - 1]);
    } else {
        assert(b[0] == c);
        assert(block_instrs(b, 1) == block_instrs(b, 0));
    }
}

/// The instructions of a well-shaped block are the items of the block
/// without its label.
pub proof fn lemma_block_instrs_stripped(b: Seq<CodeView>)
    requires
        well_shaped(b),
    ensures
        block_instrs(b, b.len()) == Seq::new(stripped(b).len(), |i: int| instr_at(stripped(b)[i])),
{
    lemma_stripped_shape(b);
    let t = stripped(b);
    lemma_block_instrs_free(t, t.len());
    if b[0] is Label {
        assert(b =~= seq![b[0]] + t);
        lemma_block_instrs_label(b[0], t, t.len());
    }
}

/// There is no block with the label among the first blocks just when none
/// of them starts with it.
pub proof fn lemma_named_none(bs: Seq<Seq<CodeView>>, label: Seq<char>, k: nat)
    requires
        k <= bs.len(),
    ensures
        block_named(bs, label, k) is None <==> forall|i: int|
            0 <= i < k ==> label_of(#[trigger] bs[i]) != Some(label),
        match block_named(bs, label, k) {
            Some(j) => 0 <= j < k && label_of(bs[j]) == Some(label),
            None => true,
        },
    decreases k,
{
    if k > 0 {
        lemma_named_none(bs, label, (k - 1) as nat);
        if block_named(bs, label, (k - 1) as nat) is None && label_of(bs[k - 1]) != Some(label) {
            assert forall|i: int| 0 <= i < k implies label_of(#[trigger] bs[i]) != Some(label) by {
                if i < k - 1 {
                }
            }
        }
    }
}

/// The block with a label is the first block that starts with it.
pub proof fn lemma_named_at(bs: Seq<Seq<CodeView>>, label: Seq<char>, j: int)
    requires
        0 <= j < bs.len(),
        label_of(bs[j]) == Some(label),
        forall|i: int| 0 <= i < j ==> label_of(#[trigger] bs[i]) != Some(label),
    ensures
        block_named(bs, label, bs.len()) == Some(j),
{
    lemma_named_none(bs, label, j as nat);
    lemma_block_found(bs, label, j as nat, bs.len());
}

/// Two instructions that are the same instruction made ready are the same.
pub proof fn lemma_same_instr(table: Seq<Seq<char>>, iv: InstrView, x: Instr, y: Instr)
    requires
        instr_matches(table, iv, x),
        instr_matches(table, iv, y),
    ensures
        same_instr(x, y),
{
    let list = iv.args();
    match (x, y) {
        (Instr::Value { args, .. }, Instr::Value { args: a, .. }) => {
            assert forall|i: int| 0 <= i < list.len() implies args@[i] == a@[i] by {
                assert(crate::interp::numify::as_num(table, list[i]) == Some(args@[i]));
                assert(crate::interp::numify::as_num(table, list[i]) == Some(a@[i]));
            }
            assert(args@ =~= a@);
        },
        (Instr::Effect { args, .. }, Instr::Effect { args: a, .. }) => {
            assert forall|i: int| 0 <= i < list.len() implies args@[i] == a@[i] by {
                assert(crate::interp::numify::as_num(table, list[i]) == Some(args@[i]));
                assert(crate::interp::numify::as_num(table, list[i]) == Some(a@[i]));
            }
            assert(args@ =~= a@);
        },
        _ => {},
    }
}

/// The names of the terminators are names of their own.
pub proof fn lemma_terminator_names()
    ensures
        effect_op_named("jmp"@) == Some(EffectOp::Jump),
        effect_op_named("br"@) == Some(EffectOp::Branch),
        effect_op_named("ret"@) == Some(EffectOp::Return),
        "ret"@ != "jmp"@,
        "ret"@ != "br"@,
        "jmp"@ != "br"@,
{
    reveal_strlit("jmp");
    reveal_strlit("br");
    reveal_strlit("ret");
    assert("jmp"@.len() == 3);
    assert("br"@.len() == 2);
    assert("ret"@.len() == 3);
    assert("ret"@[0] != "jmp"@[0]);
}


/// Block `k` of the blocks that came back, after the block that may stand
/// before them.
pub open spec fn back_at(back: Seq<Seq<CodeView>>, sh: int, k: int) -> Seq<CodeView> {
    back[k + sh]
}

/// Whether the blocks `back` are the blocks `bs` as they come back from
/// the graph: every block of `bs` comes under a name of its own; `back`
/// holds the blocks of `bs` in order, each sealed and with its name as a
/// label in front; and before them, if `sh` is one, a block under the name
/// `e`, which is the name of no other, that only jumps to the first.
pub open spec fn come_back(
    bs: Seq<Seq<CodeView>>,
    back: Seq<Seq<CodeView>>,
    sh: int,
    e: Seq<char>,
) -> bool {
    &&& plainly_named(bs)
    &&& forall|k: int| 0 <= k < bs.len() ==> well_shaped(#[trigger] bs[k])
    &&& sh == 0 || sh == 1
    &&& sh == 1 ==> bs.len() > 0
    &&& back.len() == bs.len() + sh
    &&& forall|k: int|
        0 <= k < bs.len() ==> #[trigger] back_at(back, sh, k) == seq![
            CodeView::Label { label: name_blocks(bs)[k].0 },
        ] + closed_block(name_blocks(bs), k)
    &&& sh == 1 ==> back[0] == seq![
        CodeView::Label { label: e },
        CodeView::Instruction(jmp_view(name_blocks(bs)[0].0)),
    ]
    &&& sh == 1 ==> forall|k: int| 0 <= k < bs.len() ==> (#[trigger] name_blocks(bs)[k]).0 != e
}

/// The blocks that came back name the same variables in the same order.
pub proof fn lemma_same_table(
    bs: Seq<Seq<CodeView>>,
    back: Seq<Seq<CodeView>>,
    sh: int,
    e: Seq<char>,
    t: Seq<Seq<char>>,
    k: nat,
)
    requires
        come_back(bs, back, sh, e),
        k <= bs.len(),
    ensures
        tabled_blocks(t, back, (k + sh) as nat) == tabled_blocks(t, bs, k),
    decreases k,
{
    if k == 0 {
        if sh == 1 {
            let l = CodeView::Label { label: e };
            let j = CodeView::Instruction(jmp_view(name_blocks(bs)[0].0));
            assert(back[0] =~= seq![l] + seq![j]);
            lemma_tabled_quiet_front(t, l, seq![j]);
            assert(tabled(t, seq![j], 1) == with_item(tabled(t, seq![j], 0), j));
            assert(tabled_blocks(t, back, 1) == tabled(tabled_blocks(t, back, 0), back[0], 2));
        }
    } else {
        lemma_same_table(bs, back, sh, e, t, (k - 1) as nat);
        let before = tabled_blocks(t, bs, (k - 1) as nat);
        let b = bs[k - 1];
        assert(well_shaped(b));
        let s = stripped(b);
        lemma_closed_sealed(bs, k - 1);
        let c = closed_block(name_blocks(bs), k - 1);
        let l = CodeView::Label { label: name_blocks(bs)[k - 1].0 };
        assert(back_at(back, sh, k - 1) == seq![l] + c);
        assert(back[k - 1 + sh] == seq![l] + c);
        lemma_tabled_quiet_front(before, l, c);
        if !closed(s) {
            if k - 1 < bs.len() - 1 {
                lemma_tabled_quiet_back(
                    before,
                    s,
                    CodeView::Instruction(jmp_view(name_blocks(bs)[k as int].0)),
                );
            } else {
                lemma_tabled_quiet_back(before, s, CodeView::Instruction(ret_view()));
            }
        }
        if b[0] is Label {
            assert(b =~= seq![b[0]] + s);
            lemma_tabled_quiet_front(before, b[0], s);
        }
    }
}

/// In the blocks that came back, a name names the block that came under
/// it.
pub proof fn lemma_back_named(
    bs: Seq<Seq<CodeView>>,
    back: Seq<Seq<CodeView>>,
    sh: int,
    e: Seq<char>,
    j: int,
)
    requires
        come_back(bs, back, sh, e),
        0 <= j < bs.len(),
    ensures
        block_named(back, name_blocks(bs)[j].0, back.len()) == Some(j + sh),
{
    lemma_plain_names(bs);
    let l = name_blocks(bs)[j].0;
    assert(back_at(back, sh, j) == seq![CodeView::Label { label: l }] + closed_block(
        name_blocks(bs),
        j,
    ));
    assert(label_of(back[j + sh]) == Some(l));
    assert forall|i: int| 0 <= i < j + sh implies label_of(#[trigger] back[i]) != Some(l) by {
        if i < sh {
            assert(name_blocks(bs)[j].0 != e);
        } else {
            let k = i - sh;
            assert(back_at(back, sh, k) == seq![CodeView::Label { label: name_blocks(bs)[k].0 }]
                + closed_block(name_blocks(bs), k));
            assert(back[i] == back_at(back, sh, k));
            assert(name_blocks(bs)[k].0 != name_blocks(bs)[j].0);
        }
    }
    lemma_named_at(back, l, j + sh);
}

/// An instruction made ready is a terminator just when the instruction is
/// one; and the instruction made ready of a jump is a jump, and that of a
/// return a return.
pub proof fn lemma_control(table: Seq<Seq<char>>, iv: InstrView, x: Instr)
    requires
        instr_matches(table, iv, x),
    ensures
        is_control(x) ==> iv.is_terminator(),
        is_return(x) ==> iv.op() == "ret"@,
        iv is Effect && iv.op() == "jmp"@ ==> is_jump(x),
        iv is Effect && iv.op() == "ret"@ ==> is_return(x),
{
    lemma_terminator_names();
}

/// A block that came back is the block that went in with its jump written
/// out.
pub proof fn lemma_block_pair(
    table: Seq<Seq<char>>,
    bs: Seq<Seq<CodeView>>,
    back: Seq<Seq<CodeView>>,
    sh: int,
    e: Seq<char>,
    k: int,
    x: BasicBlock,
    y: BasicBlock,
    valued: bool,
)
    requires
        come_back(bs, back, sh, e),
        0 <= k < bs.len(),
        block_matches(table, bs, k, x),
        block_matches(table, back, k + sh, y),
        valued ==> k < bs.len() - 1 || closed(stripped(bs[k])),
    ensures
        block_explicit(x, y, sh, valued),
{
    lemma_terminator_names();
    lemma_plain_names(bs);
    let b = bs[k];
    assert(well_shaped(b));
    let t = stripped(b);
    lemma_stripped_shape(b);
    lemma_open_or_closed(b);
    lemma_closed_sealed(bs, k);
    let c = closed_block(name_blocks(bs), k);
    let l = CodeView::Label { label: name_blocks(bs)[k].0 };
    let yb = back[k + sh];
    assert(back_at(back, sh, k) == seq![l] + c);
    assert(yb == seq![l] + c);
    lemma_block_instrs_stripped(b);
    lemma_block_instrs_label(l, c, c.len());
    lemma_block_instrs_free(c, c.len());
    let wx = block_instrs(b, b.len());
    let wy = block_instrs(yb, yb.len());
    assert(wx.len() == t.len());
    assert(wy.len() == c.len());
    assert forall|i: int| 0 <= i < t.len() implies wx[i] == instr_at(t[i]) && wy[i] == wx[i]
        && t[i] == CodeView::Instruction(wx[i]) by {
        assert(c[i] == t[i]);
        assert(!is_label(t[i]));
    }
    assert forall|i: int| 0 <= i < x.instrs.len() implies same_instr(
        x.instrs[i],
        #[trigger] y.instrs[i],
    ) by {
        assert(instr_matches(table, wx[i], x.instrs[i]));
        assert(instr_matches(table, wy[i], y.instrs[i]));
        lemma_same_instr(table, wx[i], x.instrs[i], y.instrs[i]);
    }
    assert forall|i: int| 0 <= i < x.instrs.len() && is_control(#[trigger] x.instrs[i]) implies i
        == t.len() - 1 && closed(t) by {
        assert(instr_matches(table, wx[i], x.instrs[i]));
        lemma_control(table, wx[i], x.instrs[i]);
        assert(ends_block(t[i]));
    }
    if t.len() > 0 {
        assert(b.last() == t.last());
        assert(instr_matches(table, wx[t.len() - 1], x.instrs[t.len() - 1]));
        lemma_control(table, wx[t.len() - 1], x.instrs[t.len() - 1]);
    }
    assert(tidy(x));
    if closed(t) {
        assert(c == t);
        assert(yb.last() == c[c.len() - 1]);
        assert(b.last() == yb.last());
        if ends_in_jump(b) {
            let labels = jump_labels(b);
            assert(jump_labels(yb) == labels);
            assert forall|i: int| 0 <= i < x.exit@.len() implies #[trigger] y.exit@[i] == x.exit@[i]
                + sh by {
                let j = x.exit@[i] as int;
                assert(block_named(bs, labels[i], bs.len()) == Some(j));
                lemma_named_none(bs, labels[i], bs.len());
                assert(label_of(bs[j]) == Some(labels[i]));
                lemma_back_named(bs, back, sh, e, j);
                assert(block_named(back, labels[i], back.len()) == Some(y.exit@[i] as int));
            }
        }
        assert(shifted(x.exit@, y.exit@, sh));
    } else {
        assert(open_block(t));
        assert(!ends_in_jump(b) && !ends_in_ret(b)) by {
            if t.len() > 0 {
                assert(!ends_block(t[t.len() - 1]));
            }
        }
        assert(yb.last() == c[c.len() - 1]);
        let added = y.instrs[t.len() as int];
        assert(instr_matches(table, wy[t.len() as int], added));
        lemma_control(table, wy[t.len() as int], added);
        assert(wy[t.len() as int] == instr_at(c[t.len() as int]));
        if k < bs.len() - 1 {
            let target = name_blocks(bs)[k + 1].0;
            assert(c[t.len() as int] == CodeView::Instruction(jmp_view(target)));
            assert(jump_labels(yb) =~= seq![target]);
            lemma_back_named(bs, back, sh, e, k + 1);
            assert(block_named(back, jump_labels(yb)[0], back.len()) == Some(y.exit@[0] as int));
            assert(x.exit@ == seq![(k + 1) as usize]);
            assert(shifted(x.exit@, y.exit@, sh));
        } else {
            assert(c[t.len() as int] == CodeView::Instruction(ret_view()));
            assert(ends_in_ret(yb));
            assert(!ends_in_jump(yb));
            assert(shifted(x.exit@, y.exit@, sh));
        }
    }
}


/// Whether the function `g` is the function `f` after the way through the
/// graph and back: the same but for the body, which is the body that the
/// graph of the blocks of `f` stands for.
pub open spec fn roundtrip_of(f: Function, g: Function) -> bool {
    &&& g.name@ == f.name@
    &&& g.return_type == f.return_type
    &&& g.args.len() == f.args.len()
    &&& forall|i: int|
        0 <= i < f.args.len() ==> (#[trigger] g.args[i]).name@ == f.args[i].name@
            && g.args[i].arg_type == f.args[i].arg_type
    &&& exists|cfg: Cfg|
        is_cfg_of(cfg, blocks_of(codes(f.instrs@))) && codes(g.instrs@) == reassembled(
            cfg.entries(),
            cfg.labels(),
        )
}

/// Whether the body of a function that returns a value ends with a
/// terminator.
pub open spec fn ends_plainly(f: Function) -> bool {
    let bs = blocks_of(codes(f.instrs@));
    f.return_type is Some && bs.len() > 0 ==> closed(stripped(bs.last()))
}

/// The blocks of a function after the way through the graph and back are
/// the blocks of the function as they come back, and the function names
/// the same variables in the same order as before.
pub proof fn lemma_come_back(f: Function, g: Function)
    requires
        roundtrip_of(f, g),
        plainly_named(blocks_of(codes(f.instrs@))),
    ensures
        exists|sh: int, e: Seq<char>|
            come_back(blocks_of(codes(f.instrs@)), blocks_of(codes(g.instrs@)), sh, e),
        function_table(g) == function_table(f),
        param_names(g.args@) == param_names(f.args@),
{
    let code = codes(f.instrs@);
    let code2 = codes(g.instrs@);
    let bs = blocks_of(code);
    let n = bs.len();
    lemma_blocks_partition(code);
    lemma_blocks_partition(code2);
    let cfg = choose|cfg: Cfg|
        is_cfg_of(cfg, blocks_of(codes(f.instrs@))) && codes(g.instrs@) == reassembled(
            cfg.entries(),
            cfg.labels(),
        );
    lemma_roundtrip_blocks(cfg, bs);
    let back = labelled(cfg.entries(), cfg.labels());
    assert(blocks_of(code2) == back);
    let sh = lead_of(cfg, bs);
    let e = if sh == 1 {
        choose|e: Seq<char>|
            {
                &&& labelled(cfg.entries(), cfg.labels())[0] == seq![
                    CodeView::Label { label: e },
                    CodeView::Instruction(jmp_view(name_blocks(bs)[0].0)),
                ]
                &&& forall|k: int| 0 <= k < bs.len() ==> (#[trigger] name_blocks(bs)[k]).0 != e
            }
    } else {
        Seq::empty()
    };
    assert forall|k: int| 0 <= k < bs.len() implies #[trigger] back_at(back, sh, k) == seq![
        CodeView::Label { label: name_blocks(bs)[k].0 },
    ] + closed_block(name_blocks(bs), k) by {
        assert(labelled(cfg.entries(), cfg.labels())[k + lead_of(cfg, bs)] == seq![
            CodeView::Label { label: name_blocks(bs)[k].0 },
        ] + closed_block(name_blocks(bs), k));
    }
    assert(come_back(bs, back, sh, e));
    let params = param_names(f.args@);
    assert(param_names(g.args@) =~= params);
    let t0 = with_vars(Seq::empty(), params, params.len());
    lemma_var_table_is(params, code, code.len());
    lemma_var_table_is(params, code2, code2.len());
    lemma_flat_upto(bs);
    lemma_flat_upto(back);
    lemma_tabled_flat(t0, bs, n);
    lemma_tabled_flat(t0, back, back.len());
    lemma_same_table(bs, back, sh, e, t0, n);
}

/// The function that the interpreter runs after the way through the graph
/// and back is the function that it runs before, with its jumps written
/// out: every block has its label, a block that ran on into the next one
/// jumps to it, the last block returns, and a block that only jumps to the
/// first may stand before it. This holds where every block comes under a
/// name of its own, and a function that returns a value ends with a
/// terminator.
pub proof fn lemma_function_explicit(f: Function, g: Function, bf: BBFunction, bg: BBFunction)
    requires
        roundtrip_of(f, g),
        plainly_named(blocks_of(codes(f.instrs@))),
        ends_plainly(f),
        is_numified(f, bf),
        is_numified(g, bg),
    ensures
        function_explicit(bf, bg),
{
    lemma_terminator_names();
    lemma_come_back(f, g);
    let bs = blocks_of(codes(f.instrs@));
    let back = blocks_of(codes(g.instrs@));
    let (sh, e) = choose|sh: int, e: Seq<char>| come_back(bs, back, sh, e);
    let params = param_names(f.args@);
    let table = function_table(f);
    assert(bg.args_as_nums@ =~= bf.args_as_nums@) by {
        assert forall|i: int| 0 <= i < params.len() implies bg.args_as_nums@[i]
            == bf.args_as_nums@[i] by {
            assert(crate::interp::numify::as_num(table, params[i]) == Some(bf.args_as_nums@[i]));
            assert(crate::interp::numify::as_num(table, params[i]) == Some(bg.args_as_nums@[i]));
        }
    }
    assert forall|i: int| 0 <= i < bf.args.len() implies (#[trigger] bg.args[i]).arg_type
        == bf.args[i].arg_type by {
        assert(bf.args[i].arg_type == f.args[i].arg_type);
        assert(g.args[i].arg_type == f.args[i].arg_type);
    }
    assert forall|k: int| 0 <= k < bf.blocks.len() implies block_explicit(
        #[trigger] bf.blocks[k],
        bg.blocks[k + sh],
        sh,
        bf.return_type is Some,
    ) by {
        assert(block_matches(table, bs, k, bf.blocks[k]));
        assert(block_matches(table, back, k + sh, bg.blocks[k + sh]));
        lemma_block_pair(
            table,
            bs,
            back,
            sh,
            e,
            k,
            bf.blocks[k],
            bg.blocks[k + sh],
            f.return_type is Some,
        );
    }
    if sh == 1 {
        let l = CodeView::Label { label: e };
        let j = CodeView::Instruction(jmp_view(name_blocks(bs)[0].0));
        assert(back[0] =~= seq![l] + seq![j]);
        assert(block_matches(table, back, 0, bg.blocks[0]));
        lemma_block_instrs_label(l, seq![j], 1);
        lemma_block_instrs_free(seq![j], 1);
        let w = block_instrs(back[0], back[0].len());
        assert(w.len() == 1);
        assert(w[0] == jmp_view(name_blocks(bs)[0].0));
        assert(instr_matches(table, w[0], bg.blocks[0].instrs[0]));
        lemma_control(table, w[0], bg.blocks[0].instrs[0]);
        assert(ends_in_jump(back[0]));
        assert(jump_labels(back[0]) =~= seq![name_blocks(bs)[0].0]);
        lemma_back_named(bs, back, sh, e, 0);
        assert(block_named(back, jump_labels(back[0])[0], back.len()) == Some(
            bg.blocks[0].exit@[0] as int,
        ));
        assert(bg.blocks[0].exit@ =~= seq![1usize]);
    }
}

/// Whether the program `q` is the program `p` after the way of every
/// function through the graph and back, where every block of `p` comes
/// under a name of its own and every function that returns a value ends
/// with a terminator.
pub open spec fn program_roundtrip(p: Program, q: Program) -> bool {
    &&& q.functions.len() == p.functions.len()
    &&& forall|i: int|
        0 <= i < p.functions.len() ==> {
            &&& roundtrip_of(#[trigger] p.functions[i], q.functions[i])
            &&& plainly_named(blocks_of(codes(p.functions[i].instrs@)))
            &&& ends_plainly(p.functions[i])
        }
}

/// Whether the program of the interpreter is the program made ready,
/// function by function.
pub open spec fn made_ready(p: Program, bp: BBProgram) -> bool {
    &&& bp.functions.len() == p.functions.len()
    &&& forall|i: int|
        0 <= i < p.functions.len() ==> is_numified(p.functions[i], #[trigger] bp.functions[i])
}

/// The way through the graph and back keeps what a program does. The
/// program that comes back shows what the program that went in shows: what
/// the steps of its run ask for is what the steps of the run of the first
/// ask for, in order, but for the steps that ask for nothing. This holds
/// for as many steps as end well in the first run, where every block comes
/// under a name of its own and every function that returns a value ends
/// with a terminator.
pub proof fn lemma_roundtrip_runs(
    p: Program,
    q: Program,
    bp: BBProgram,
    bq: BBProgram,
    inputs: Seq<Input>,
    k: nat,
)
    requires
        program_roundtrip(p, q),
        made_ready(p, bp),
        made_ready(q, bq),
        started(bp, inputs) is Ok,
        runs_well(started(bp, inputs)->Ok_0, bp, k),
    ensures
        program_explicit(bp, bq),
        started(bq, inputs) is Ok,
        exists|j: nat| #[trigger]
            shown(started(bq, inputs)->Ok_0, bq, j) == shown(started(bp, inputs)->Ok_0, bp, k),
{
    assert forall|i: int| 0 <= i < bp.functions.len() implies function_explicit(
        #[trigger] bp.functions[i],
        bq.functions[i],
    ) by {
        assert(roundtrip_of(p.functions[i], q.functions[i]));
        assert(is_numified(p.functions[i], bp.functions[i]));
        assert(is_numified(q.functions[i], bq.functions[i]));
        lemma_function_explicit(p.functions[i], q.functions[i], bp.functions[i], bq.functions[i]);
    }
    lemma_start_explicit(bp, bq, inputs);
    let a = started(bp, inputs)->Ok_0;
    let b = started(bq, inputs)->Ok_0;
    lemma_run_explicit(a, b, bp, bq, k);
    let j = choose|j: nat|
        crate::interp::explicit::runs_explicit(
            crate::interp::relocation::after_steps(a, bp, k),
            #[trigger] crate::interp::relocation::after_steps(b, bq, j),
            bp,
            bq,
        ) && shown(b, bq, j) == shown(a, bp, k);
    assert(shown(b, bq, j) == shown(a, bp, k));
}


/// A block that can be made ready can be made ready when it comes back.
pub proof fn lemma_block_ready_back(
    table: Seq<Seq<char>>,
    bs: Seq<Seq<CodeView>>,
    back: Seq<Seq<CodeView>>,
    sh: int,
    e: Seq<char>,
    k: int,
)
    requires
        come_back(bs, back, sh, e),
        0 <= k < bs.len(),
        block_ready(table, bs, k),
    ensures
        block_ready(table, back, k + sh),
{
    lemma_terminator_names();
    lemma_plain_names(bs);
    let b = bs[k];
    assert(well_shaped(b));
    let t = stripped(b);
    lemma_stripped_shape(b);
    lemma_open_or_closed(b);
    lemma_closed_sealed(bs, k);
    let c = closed_block(name_blocks(bs), k);
    let l = CodeView::Label { label: name_blocks(bs)[k].0 };
    let yb = back[k + sh];
    assert(back_at(back, sh, k) == seq![l] + c);
    assert(yb == seq![l] + c);
    lemma_block_instrs_stripped(b);
    lemma_block_instrs_label(l, c, c.len());
    lemma_block_instrs_free(c, c.len());
    let wx = block_instrs(b, b.len());
    let wy = block_instrs(yb, yb.len());
    assert forall|i: int| 0 <= i < wy.len() implies convertible(table, #[trigger] wy[i]) by {
        if i < t.len() {
            assert(c[i] == t[i]);
            assert(wy[i] == wx[i]);
            assert(convertible(table, wx[i]));
        } else {
            assert(wy[i] == instr_at(c[i]));
        }
    }
    assert(yb.last() == c[c.len() - 1]);
    if ends_in_jump(yb) {
        let labels = jump_labels(yb);
        assert forall|i: int| 0 <= i < labels.len() implies block_named(
            back,
            #[trigger] labels[i],
            back.len(),
        ) is Some by {
            if closed(t) {
                assert(b.last() == yb.last());
                assert(jump_labels(b) == labels);
                assert(block_named(bs, labels[i], bs.len()) is Some);
                lemma_named_none(bs, labels[i], bs.len());
                let j = block_named(bs, labels[i], bs.len())->0;
                lemma_back_named(bs, back, sh, e, j);
            } else {
                assert(k < bs.len() - 1);
                assert(labels =~= seq![name_blocks(bs)[k + 1].0]);
                lemma_back_named(bs, back, sh, e, k + 1);
            }
        }
    }
}

/// A function that can be made ready for the interpreter can be made ready
/// after the way through the graph and back, where every block comes under
/// a name of its own.
pub proof fn lemma_roundtrip_numifiable(f: Function, g: Function)
    requires
        roundtrip_of(f, g),
        plainly_named(blocks_of(codes(f.instrs@))),
        numifiable(f),
    ensures
        numifiable(g),
{
    lemma_terminator_names();
    lemma_come_back(f, g);
    let bs = blocks_of(codes(f.instrs@));
    let back = blocks_of(codes(g.instrs@));
    let (sh, e) = choose|sh: int, e: Seq<char>| come_back(bs, back, sh, e);
    let params = param_names(f.args@);
    let table = function_table(f);
    assert forall|i: int| 0 <= i < back.len() implies #[trigger] block_ready(table, back, i) by {
        if i < sh {
            let l = CodeView::Label { label: e };
            let j = CodeView::Instruction(jmp_view(name_blocks(bs)[0].0));
            assert(back[0] =~= seq![l] + seq![j]);
            lemma_block_instrs_label(l, seq![j], 1);
            lemma_block_instrs_free(seq![j], 1);
            let w = block_instrs(back[0], back[0].len());
            assert(w.len() == 1);
            assert(w[0] == jmp_view(name_blocks(bs)[0].0));
            assert(jump_labels(back[0]) =~= seq![name_blocks(bs)[0].0]);
            lemma_back_named(bs, back, sh, e, 0);
        } else {
            assert(block_ready(table, bs, i - sh));
            lemma_block_ready_back(table, bs, back, sh, e, i - sh);
        }
    }
}

} // verus!
