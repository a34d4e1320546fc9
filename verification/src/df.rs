//! A worklist solver for dataflow problems over sets of variable names, and
//! its two clients: defined variables and live variables.
use crate::cfg::{lemma_succs_resolve, Cfg};
use crate::dominators::{lemma_pred_is_block, lemma_succ_is_block};
use crate::form_blocks::Block;
use crate::fresh::{contains_name, name_set};
use crate::ir::{Code, CodeView, Instruction};
use crate::ordered::{
    has_key, labels_get_by_left, numbered_get, numbered_get_index, numbered_len,
};
use std::collections::HashMap;
use vstd::prelude::*;

verus! {

broadcast use vstd::std_specs::hash::group_hash_axioms;

/// The sets of names that lists of names stand for.
pub open spec fn sets_of(lists: Seq<Vec<String>>) -> Seq<Set<Seq<char>>> {
    lists.map_values(|l: Vec<String>| name_set(l@))
}

/// The union of the sets.
pub open spec fn union_all(sets: Seq<Set<Seq<char>>>) -> Set<Seq<char>> {
    Set::new(|x: Seq<char>| exists|i: int| 0 <= i < sets.len() && (#[trigger] sets[i]).contains(x))
}

/// Whether each set of `a` is within the set of `b` at the same place.
pub open spec fn pointwise_within(a: Seq<Set<Seq<char>>>, b: Seq<Set<Seq<char>>>) -> bool {
    a.len() == b.len() && forall|i: int| 0 <= i < a.len() ==> (#[trigger] a[i]).subset_of(b[i])
}

/// A dataflow problem over sets of names: the value at the boundary, how
/// the values that flow into a block are merged, what a block makes of the
/// value that enters it, and the direction.
///
/// The solver relies on the laws stated here: merging and transfer are
/// monotone, the boundary value is within every set, and a block adds only
/// names of its own finite vocabulary.
pub trait Dataflow {
    /// The merge of the values that flow into a block.
    spec fn merged(&self, sets: Seq<Set<Seq<char>>>) -> Set<Seq<char>>;

    /// What a block makes of the value that enters it.
    spec fn transferred(&self, block: Seq<CodeView>, input: Set<Seq<char>>) -> Set<Seq<char>>;

    /// Whether values flow against the edges.
    spec fn reversed(&self) -> bool;

    /// The value at the boundary.
    spec fn initial(&self) -> Set<Seq<char>>;

    /// The names that a block can add to what enters it.
    spec fn vocabulary(&self, block: Seq<CodeView>) -> Set<Seq<char>>;

    proof fn lemma_merged_monotone(&self, a: Seq<Set<Seq<char>>>, b: Seq<Set<Seq<char>>>)
        requires
            pointwise_within(a, b),
        ensures
            self.merged(a).subset_of(self.merged(b)),
    ;

    proof fn lemma_merged_within(&self, a: Seq<Set<Seq<char>>>, bound: Set<Seq<char>>)
        requires
            forall|i: int| 0 <= i < a.len() ==> (#[trigger] a[i]).subset_of(bound),
        ensures
            self.merged(a).subset_of(bound),
    ;

    proof fn lemma_transferred_monotone(
        &self,
        block: Seq<CodeView>,
        a: Set<Seq<char>>,
        b: Set<Seq<char>>,
    )
        requires
            a.subset_of(b),
        ensures
            self.transferred(block, a).subset_of(self.transferred(block, b)),
    ;

    proof fn lemma_transferred_within(&self, block: Seq<CodeView>, a: Set<Seq<char>>)
        ensures
            self.transferred(block, a).subset_of(a.union(self.vocabulary(block))),
            self.vocabulary(block).finite(),
    ;

    proof fn lemma_initial_least(&self, a: Set<Seq<char>>)
        ensures
            self.initial().subset_of(a),
    ;

    fn merge(&self, sets: &Vec<Vec<String>>) -> (r: Vec<String>)
        ensures
            name_set(r@) == self.merged(sets_of(sets@)),
    ;

    fn transfer(&self, b: &Block, in_b: &Vec<String>) -> (r: Vec<String>)
        ensures
            name_set(r@) == self.transferred(b@, name_set(in_b@)),
    ;

    fn is_reverse(&self) -> (r: bool)
        ensures
            r == self.reversed(),
    ;

    fn init(&self) -> (r: Vec<String>)
        ensures
            name_set(r@) == self.initial(),
    ;
}

/// Copies a list of names.
pub fn copy_names(v: &Vec<String>) -> (r: Vec<String>)
    ensures
        r@.len() == v@.len(),
        forall|i: int| 0 <= i < v.len() ==> r[i]@ == v[i]@,
        name_set(r@) == name_set(v@),
{
    let mut out: Vec<String> = Vec::new();
    let mut i: usize = 0;
    while i < v.len()
        invariant
            i <= v.len(),
            out.len() == i,
            forall|j: int| 0 <= j < i ==> out[j]@ == v[j]@,
        decreases v.len() - i,
    {
        out.push(v[i].clone());
        i += 1;
    }
    proof {
        lemma_same_names(out@, v@);
    }
    out
}

/// Lists that hold the same names in the same places stand for the same
/// set.
pub proof fn lemma_same_names(a: Seq<String>, b: Seq<String>)
    requires
        a.len() == b.len(),
        forall|i: int| 0 <= i < a.len() ==> a[i]@ == b[i]@,
    ensures
        name_set(a) == name_set(b),
{
    assert forall|x: Seq<char>| name_set(a).contains(x) <==> name_set(b).contains(x) by {
        if name_set(a).contains(x) {
            let i = choose|i: int| 0 <= i < a.len() && #[trigger] a[i]@ == x;
            assert(b[i]@ == x);
        }
        if name_set(b).contains(x) {
            let i = choose|i: int| 0 <= i < b.len() && #[trigger] b[i]@ == x;
            assert(a[i]@ == x);
        }
    }
    assert(name_set(a) =~= name_set(b));
}

/// Adds a name to a list unless the list holds it.
pub fn insert_name(list: &mut Vec<String>, name: String)
    ensures
        name_set(final(list)@) == name_set(old(list)@).insert(name@),
{
    if !contains_name(list, &name) {
        let ghost before = list@;
        list.push(name);
        proof {
            assert(list@.drop_last() =~= before);
            crate::cfg::lemma_name_set_push(before, list@);
        }
    } else {
        assert(name_set(list@) =~= name_set(list@).insert(name@));
    }
}

/// Whether every name of `a` is in `b`.
pub fn names_within(a: &Vec<String>, b: &Vec<String>) -> (r: bool)
    ensures
        r == name_set(a@).subset_of(name_set(b@)),
{
    let mut i: usize = 0;
    while i < a.len()
        invariant
            i <= a.len(),
            forall|j: int| 0 <= j < i ==> name_set(b@).contains(#[trigger] a[j]@),
        decreases a.len() - i,
    {
        if !contains_name(b, &a[i]) {
            assert(name_set(a@).contains(a[i as int]@));
            return false;
        }
        i += 1;
    }
    true
}

/// Whether two lists hold the same names.
pub fn same_names(a: &Vec<String>, b: &Vec<String>) -> (r: bool)
    ensures
        r == (name_set(a@) == name_set(b@)),
{
    let r = names_within(a, b) && names_within(b, a);
    proof {
        if r {
            assert(name_set(a@) =~= name_set(b@));
        }
    }
    r
}

/// The union of lists of names.
pub fn union(sets: &Vec<Vec<String>>) -> (r: Vec<String>)
    ensures
        name_set(r@) == union_all(sets_of(sets@)),
{
    let mut acc: Vec<String> = Vec::new();
    let ghost all = sets_of(sets@);
    let mut i: usize = 0;
    assert(name_set(acc@) =~= union_all(all.take(0)));
    while i < sets.len()
        invariant
            i <= sets.len(),
            all == sets_of(sets@),
            name_set(acc@) == union_all(all.take(i as int)),
        decreases sets.len() - i,
    {
        let p = &sets[i];
        let ghost base = name_set(acc@);
        let mut j: usize = 0;
        while j < p.len()
            invariant
                j <= p.len(),
                name_set(acc@) == base.union(name_set(p@.take(j as int))),
            decreases p.len() - j,
        {
            let ghost before = name_set(acc@);
            insert_name(&mut acc, p[j].clone());
            proof {
                assert(p@.take(j + 1).drop_last() =~= p@.take(j as int));
                crate::cfg::lemma_name_set_push(p@.take(j as int), p@.take(j + 1));
                assert(name_set(acc@) =~= base.union(name_set(p@.take(j + 1))));
            }
            j += 1;
        }
        proof {
            assert(p@.take(j as int) =~= p@);
            assert(all[i as int] == name_set(p@));
            assert forall|x: Seq<char>|
                union_all(all.take(i + 1)).contains(x) <==> union_all(all.take(i as int)).union(
                    all[i as int],
                ).contains(x) by {
                if union_all(all.take(i + 1)).contains(x) {
                    let k = choose|k: int|
                        0 <= k < all.take(i + 1).len() && (#[trigger] all.take(i + 1)[k]).contains(x);
                    if k < i {
                        assert(all.take(i as int)[k].contains(x));
                    }
                }
                if union_all(all.take(i as int)).contains(x) {
                    let k = choose|k: int|
                        0 <= k < all.take(i as int).len() && (#[trigger] all.take(i as int)[k]).contains(
                            x,
                        );
                    assert(all.take(i + 1)[k].contains(x));
                }
                if all[i as int].contains(x) {
                    assert(all.take(i + 1)[i as int].contains(x));
                }
            }
            assert(name_set(acc@) =~= union_all(all.take(i + 1)));
        }
        i += 1;
    }
    assert(all.take(i as int) =~= all);
    acc
}

/// Union is monotone.
pub proof fn lemma_union_monotone(a: Seq<Set<Seq<char>>>, b: Seq<Set<Seq<char>>>)
    requires
        pointwise_within(a, b),
    ensures
        union_all(a).subset_of(union_all(b)),
{
    assert forall|x: Seq<char>| union_all(a).contains(x) implies union_all(b).contains(x) by {
        let i = choose|i: int| 0 <= i < a.len() && (#[trigger] a[i]).contains(x);
        assert(a[i].subset_of(b[i]));
        assert(b[i].contains(x));
    }
}

/// The union of sets within a bound is within the bound.
pub proof fn lemma_union_within(a: Seq<Set<Seq<char>>>, bound: Set<Seq<char>>)
    requires
        forall|i: int| 0 <= i < a.len() ==> (#[trigger] a[i]).subset_of(bound),
    ensures
        union_all(a).subset_of(bound),
{
    assert forall|x: Seq<char>| union_all(a).contains(x) implies bound.contains(x) by {
        let i = choose|i: int| 0 <= i < a.len() && (#[trigger] a[i]).contains(x);
        assert(a[i].subset_of(bound));
    }
}

/// The destination of a code item, if it is an instruction that has one.
pub open spec fn dest_of(c: CodeView) -> Option<Seq<char>> {
    match c {
        CodeView::Instruction(i) => i.dest(),
        CodeView::Label { .. } => None,
    }
}

/// The arguments of a code item; a label has none.
pub open spec fn args_of(c: CodeView) -> Seq<Seq<char>> {
    match c {
        CodeView::Instruction(i) => i.args(),
        CodeView::Label { .. } => Seq::empty(),
    }
}

/// The variables that a block defines.
pub open spec fn defs(b: Seq<CodeView>) -> Set<Seq<char>> {
    Set::new(|x: Seq<char>| exists|i: int| 0 <= i < b.len() && dest_of(#[trigger] b[i]) == Some(x))
}

/// Whether the item at `i` reads `x` and no item before it in the block
/// defines `x`.
pub open spec fn reads_first(b: Seq<CodeView>, i: int, x: Seq<char>) -> bool {
    &&& 0 <= i < b.len()
    &&& args_of(b[i]).contains(x)
    &&& forall|k: int| 0 <= k < i ==> dest_of(#[trigger] b[k]) != Some(x)
}

/// The variables that a block reads before it defines them.
pub open spec fn uses(b: Seq<CodeView>) -> Set<Seq<char>> {
    Set::new(|x: Seq<char>| exists|i: int| reads_first(b, i, x))
}

/// The variables that a block names at all.
pub open spec fn mentioned(b: Seq<CodeView>) -> Set<Seq<char>> {
    Set::new(
        |x: Seq<char>|
            exists|i: int|
                0 <= i < b.len() && (dest_of(#[trigger] b[i]) == Some(x) || args_of(b[i]).contains(
                    x,
                )),
    )
}

/// The variables that a block names are finitely many.
pub proof fn lemma_mentioned_finite(b: Seq<CodeView>)
    ensures
        mentioned(b).finite(),
        defs(b).subset_of(mentioned(b)),
        uses(b).subset_of(mentioned(b)),
    decreases b.len(),
{
    if b.len() == 0 {
        assert(mentioned(b) =~= Set::<Seq<char>>::empty());
    } else {
        let prev = b.drop_last();
        lemma_mentioned_finite(prev);
        let last = b.last();
        let extra = args_of(last).to_set().union(
            match dest_of(last) {
                Some(d) => set![d],
                None => Set::empty(),
            },
        );
        vstd::seq_lib::seq_to_set_is_finite(args_of(last));
        assert forall|x: Seq<char>| mentioned(b).contains(x) <==> mentioned(prev).union(
            extra,
        ).contains(x) by {
            if mentioned(b).contains(x) {
                let i = choose|i: int|
                    0 <= i < b.len() && (dest_of(#[trigger] b[i]) == Some(x) || args_of(
                        b[i],
                    ).contains(x));
                if i < b.len() - 1 {
                    assert(prev[i] == b[i]);
                }
            }
            if mentioned(prev).contains(x) {
                let i = choose|i: int|
                    0 <= i < prev.len() && (dest_of(#[trigger] prev[i]) == Some(x) || args_of(
                        prev[i],
                    ).contains(x));
                assert(b[i] == prev[i]);
            }
            if extra.contains(x) {
                assert(b[b.len() - 1] == last);
            }
        }
        assert(mentioned(b) =~= mentioned(prev).union(extra));
    }
    assert forall|x: Seq<char>| uses(b).contains(x) implies mentioned(b).contains(x) by {
        let i = choose|i: int| reads_first(b, i, x);
        assert(args_of(b[i]).contains(x));
    }
}

/// The variables that a block defines.
pub fn get_def_vars(b: &Block) -> (set: Vec<String>)
    ensures
        name_set(set@) == defs(b@),
{
    let mut set: Vec<String> = Vec::new();
    let mut i: usize = 0;
    assert(name_set(set@) =~= defs(b@.take(0)));
    while i < b.instrs.len()
        invariant
            i <= b.instrs.len(),
            name_set(set@) == defs(b@.take(i as int)),
        decreases b.instrs.len() - i,
    {
        let ghost before = name_set(set@);
        if let Code::Instruction(instr) = &b.instrs[i] {
            match instr {
                Instruction::Constant { dest, .. } | Instruction::Value { dest, .. } => {
                    insert_name(&mut set, dest.clone());
                },
                Instruction::Effect { .. } => {},
            }
        }
        proof {
            let cur = b@.take(i as int);
            let next = b@.take(i + 1);
            let added = match dest_of(b@[i as int]) {
                Some(d) => before.insert(d),
                None => before,
            };
            assert(name_set(set@) == added);
            assert forall|x: Seq<char>| defs(next).contains(x) <==> added.contains(x) by {
                if defs(next).contains(x) {
                    let k = choose|k: int| 0 <= k < next.len() && dest_of(#[trigger] next[k]) == Some(x);
                    if k < i {
                        assert(cur[k] == next[k]);
                    }
                }
                if defs(cur).contains(x) {
                    let k = choose|k: int| 0 <= k < cur.len() && dest_of(#[trigger] cur[k]) == Some(x);
                    assert(next[k] == cur[k]);
                }
                if dest_of(b@[i as int]) == Some(x) {
                    assert(next[i as int] == b@[i as int]);
                }
            }
            assert(name_set(set@) =~= defs(next));
        }
        i += 1;
    }
    assert(b@.take(i as int) =~= b@);
    set
}

/// The variables that a block reads before it defines them.
pub fn get_uses(b: &Block) -> (used: Vec<String>)
    ensures
        name_set(used@) == uses(b@),
{
    let mut defined: Vec<String> = Vec::new();
    let mut used: Vec<String> = Vec::new();
    let ghost body = b@;
    let mut i: usize = 0;
    assert(name_set(defined@) =~= defs(body.take(0)));
    assert(name_set(used@) =~= uses(body.take(0)));
    while i < b.instrs.len()
        invariant
            i <= b.instrs.len(),
            body == b@,
            name_set(defined@) == defs(body.take(i as int)),
            name_set(used@) == uses(body.take(i as int)),
        decreases b.instrs.len() - i,
    {
        let ghost cur = body.take(i as int);
        let ghost next = body.take(i + 1);
        let ghost used_before = name_set(used@);
        let ghost defined_before = name_set(defined@);
        let ghost item = body[i as int];
        if let Code::Instruction(instr) = &b.instrs[i] {
            match instr {
                Instruction::Value { args, .. } | Instruction::Effect { args, .. } => {
                    let mut j: usize = 0;
                    assert(crate::ir::names(args@) == args_of(item));
                    while j < args.len()
                        invariant
                            j <= args.len(),
                            name_set(defined@) == defined_before,
                            forall|x: Seq<char>|
                                name_set(used@).contains(x) <==> (used_before.contains(x) || (
                                !defined_before.contains(x) && exists|k: int|
                                    0 <= k < j && #[trigger] args[k]@ == x)),
                        decreases args.len() - j,
                    {
                        if !contains_name(&defined, &args[j]) {
                            insert_name(&mut used, args[j].clone());
                        }
                        j += 1;
                    }
                    proof {
                        assert forall|x: Seq<char>|
                            name_set(used@).contains(x) <==> (used_before.contains(x) || (
                            !defined_before.contains(x) && args_of(item).contains(x))) by {
                            if args_of(item).contains(x) {
                                let k = choose|k: int|
                                    0 <= k < args_of(item).len() && args_of(item)[k] == x;
                                assert(args[k]@ == x);
                            }
                            if exists|k: int| 0 <= k < args.len() && #[trigger] args[k]@ == x {
                                let k = choose|k: int| 0 <= k < args.len() && #[trigger] args[k]@ == x;
                                assert(args_of(item)[k] == x);
                            }
                        }
                    }
                },
                Instruction::Constant { .. } => {
                    assert(args_of(item) =~= Seq::<Seq<char>>::empty());
                },
            }
            match instr {
                Instruction::Value { dest, .. } | Instruction::Constant { dest, .. } => {
                    insert_name(&mut defined, dest.clone());
                },
                Instruction::Effect { .. } => {},
            }
        } else {
            assert(args_of(item) =~= Seq::<Seq<char>>::empty());
        }
        proof {
            assert forall|x: Seq<char>|
                name_set(used@).contains(x) <==> (used_before.contains(x) || (
                !defined_before.contains(x) && args_of(item).contains(x))) by {}
            assert forall|x: Seq<char>| defs(next).contains(x) <==> (defs(cur).contains(x)
                || dest_of(item) == Some(x)) by {
                if defs(next).contains(x) {
                    let k = choose|k: int| 0 <= k < next.len() && dest_of(#[trigger] next[k]) == Some(x);
                    if k < i {
                        assert(cur[k] == next[k]);
                    }
                }
                if defs(cur).contains(x) {
                    let k = choose|k: int| 0 <= k < cur.len() && dest_of(#[trigger] cur[k]) == Some(x);
                    assert(next[k] == cur[k]);
                }
                if dest_of(item) == Some(x) {
                    assert(next[i as int] == item);
                }
            }
            assert(name_set(defined@) =~= defs(next));
            assert forall|x: Seq<char>| uses(next).contains(x) <==> (uses(cur).contains(x) || (
            !defs(cur).contains(x) && args_of(item).contains(x))) by {
                if uses(next).contains(x) {
                    let k = choose|k: int| reads_first(next, k, x);
                    if k < i {
                        assert(next[k] == cur[k]);
                        assert forall|m: int| 0 <= m < k implies dest_of(#[trigger] cur[m]) != Some(
                            x,
                        ) by {
                            assert(next[m] == cur[m]);
                        }
                        assert(reads_first(cur, k, x));
                    } else {
                        assert(next[k] == item);
                        if defs(cur).contains(x) {
                            let m = choose|m: int|
                                0 <= m < cur.len() && dest_of(#[trigger] cur[m]) == Some(x);
                            assert(next[m] == cur[m]);
                        }
                    }
                }
                if uses(cur).contains(x) {
                    let k = choose|k: int| reads_first(cur, k, x);
                    assert(next[k] == cur[k]);
                    assert forall|m: int| 0 <= m < k implies dest_of(#[trigger] next[m]) != Some(
                        x,
                    ) by {
                        assert(next[m] == cur[m]);
                    }
                    assert(reads_first(next, k, x));
                }
                if !defs(cur).contains(x) && args_of(item).contains(x) {
                    assert(next[i as int] == item);
                    assert forall|m: int| 0 <= m < i implies dest_of(#[trigger] next[m]) != Some(
                        x,
                    ) by {
                        assert(next[m] == cur[m]);
                    }
                    assert(reads_first(next, i as int, x));
                }
            }
            assert(name_set(used@) =~= uses(next));
        }
        i += 1;
    }
    assert(body.take(i as int) =~= body);
    used
}


/// The blocks whose values flow into a block.
pub open spec fn flow_into<D: Dataflow>(df: &D, cfg: Cfg, b: i32) -> Seq<i32> {
    if df.reversed() {
        cfg.succs(b)
    } else {
        cfg.preds(b)
    }
}

/// The blocks that the value of a block flows to.
pub open spec fn flow_out<D: Dataflow>(df: &D, cfg: Cfg, b: i32) -> Seq<i32> {
    if df.reversed() {
        cfg.preds(b)
    } else {
        cfg.succs(b)
    }
}

/// The values of the given blocks, in order.
pub open spec fn gathered(outs: Seq<Set<Seq<char>>>, from: Seq<i32>) -> Seq<Set<Seq<char>>> {
    from.map_values(|p: i32| outs[p as int])
}

/// The value that enters a block: the merge of the values that flow into
/// it.
pub open spec fn inflow<D: Dataflow>(df: &D, cfg: Cfg, outs: Seq<Set<Seq<char>>>, b: i32) -> Set<
    Seq<char>,
> {
    df.merged(gathered(outs, flow_into(df, cfg, b)))
}

/// The value that leaves a block: what the block makes of the value that
/// enters it.
pub open spec fn outflow<D: Dataflow>(df: &D, cfg: Cfg, outs: Seq<Set<Seq<char>>>, b: i32) -> Set<
    Seq<char>,
> {
    df.transferred(cfg.body(b), inflow(df, cfg, outs, b))
}

/// Whether the values solve the equations of the problem: the value of
/// every block is what the block makes of the merge of the values that flow
/// into it.
pub open spec fn is_solution<D: Dataflow>(df: &D, cfg: Cfg, outs: Seq<Set<Seq<char>>>) -> bool {
    &&& outs.len() == cfg.size()
    &&& forall|b: i32| cfg.is_block(b) ==> outs[b as int] == #[trigger] outflow(df, cfg, outs, b)
}

/// Whether the values are the least solution of the equations.
pub open spec fn is_least_solution<D: Dataflow>(
    df: &D,
    cfg: Cfg,
    outs: Seq<Set<Seq<char>>>,
) -> bool {
    &&& is_solution(df, cfg, outs)
    &&& forall|other: Seq<Set<Seq<char>>>| #[trigger]
        is_solution(df, cfg, other) ==> pointwise_within(outs, other)
}

/// The least solution of the equations, where there is one.
pub open spec fn least_solution<D: Dataflow>(df: &D, cfg: Cfg) -> Seq<Set<Seq<char>>> {
    choose|outs: Seq<Set<Seq<char>>>| is_least_solution(df, cfg, outs)
}

/// There is at most one least solution.
pub proof fn lemma_least_unique<D: Dataflow>(df: &D, cfg: Cfg, outs: Seq<Set<Seq<char>>>)
    requires
        is_least_solution(df, cfg, outs),
    ensures
        outs == least_solution(df, cfg),
{
    let other = least_solution(df, cfg);
    assert(is_solution(df, cfg, other));
    assert(is_solution(df, cfg, outs));
    assert(pointwise_within(outs, other));
    assert(pointwise_within(other, outs));
    assert forall|i: int| 0 <= i < outs.len() implies outs[i] == other[i] by {
        assert(outs[i].subset_of(other[i]));
        assert(other[i].subset_of(outs[i]));
        assert(outs[i] =~= other[i]);
    }
    assert(outs =~= other);
}

/// The sets of names that a map gives to the first `n` block numbers.
pub open spec fn values_of(m: Map<i32, Vec<String>>, n: nat) -> Seq<Set<Seq<char>>> {
    Seq::new(n, |b: int| name_set(m[b as i32]@))
}

/// The value that enters each block, given the values that the blocks
/// produce.
pub open spec fn entering<D: Dataflow>(df: &D, cfg: Cfg, outs: Seq<Set<Seq<char>>>) -> Seq<
    Set<Seq<char>>,
> {
    Seq::new(cfg.size(), |b: int| inflow(df, cfg, outs, b as i32))
}

/// The blocks that flow into a block are blocks.
pub proof fn lemma_flow_blocks<D: Dataflow>(df: &D, cfg: Cfg, b: i32, j: int)
    requires
        cfg.wf(),
        cfg.is_block(b),
    ensures
        0 <= j < flow_into(df, cfg, b).len() ==> cfg.is_block(flow_into(df, cfg, b)[j]),
        0 <= j < flow_out(df, cfg, b).len() ==> cfg.is_block(flow_out(df, cfg, b)[j]),
{
    if 0 <= j < cfg.succs(b).len() {
        lemma_succ_is_block(cfg, b, j);
    }
    if 0 <= j < cfg.preds(b).len() {
        lemma_pred_is_block(cfg, b, j);
    }
}

/// A block flows into another exactly when the other is among those it
/// flows to.
pub proof fn lemma_flow_edge<D: Dataflow>(df: &D, cfg: Cfg, b: i32, c: i32)
    requires
        cfg.wf(),
        cfg.is_block(b),
        cfg.is_block(c),
    ensures
        flow_into(df, cfg, c).contains(b) <==> flow_out(df, cfg, b).contains(c),
{
    crate::dominators::lemma_edge(cfg, b, c);
    crate::dominators::lemma_edge(cfg, c, b);
}

/// The value that leaves a block grows with the values of the blocks.
pub proof fn lemma_outflow_monotone<D: Dataflow>(
    df: &D,
    cfg: Cfg,
    a: Seq<Set<Seq<char>>>,
    b: Seq<Set<Seq<char>>>,
    c: i32,
)
    requires
        cfg.wf(),
        cfg.is_block(c),
        a.len() == cfg.size(),
        pointwise_within(a, b),
    ensures
        inflow(df, cfg, a, c).subset_of(inflow(df, cfg, b, c)),
        outflow(df, cfg, a, c).subset_of(outflow(df, cfg, b, c)),
{
    let from = flow_into(df, cfg, c);
    let ga = gathered(a, from);
    let gb = gathered(b, from);
    assert forall|i: int| 0 <= i < ga.len() implies (#[trigger] ga[i]).subset_of(gb[i]) by {
        lemma_flow_blocks(df, cfg, c, i);
        assert(a[from[i] as int].subset_of(b[from[i] as int]));
    }
    df.lemma_merged_monotone(ga, gb);
    df.lemma_transferred_monotone(cfg.body(c), inflow(df, cfg, a, c), inflow(df, cfg, b, c));
}

/// The value that leaves a block depends only on the values of the blocks
/// that flow into it.
pub proof fn lemma_outflow_local<D: Dataflow>(
    df: &D,
    cfg: Cfg,
    a: Seq<Set<Seq<char>>>,
    b: i32,
    value: Set<Seq<char>>,
    c: i32,
)
    requires
        cfg.wf(),
        cfg.is_block(c),
        cfg.is_block(b),
        a.len() == cfg.size(),
        !flow_into(df, cfg, c).contains(b),
    ensures
        inflow(df, cfg, a.update(b as int, value), c) == inflow(df, cfg, a, c),
        outflow(df, cfg, a.update(b as int, value), c) == outflow(df, cfg, a, c),
{
    let from = flow_into(df, cfg, c);
    let next = a.update(b as int, value);
    assert(gathered(next, from) =~= gathered(a, from)) by {
        assert forall|i: int| 0 <= i < from.len() implies gathered(next, from)[i] == gathered(
            a,
            from,
        )[i] by {
            lemma_flow_blocks(df, cfg, c, i);
            assert(from[i] != b);
        }
    }
}

/// The names that the blocks of the first `k` places of the block map can
/// add.
pub open spec fn vocabulary_upto<D: Dataflow>(df: &D, cfg: Cfg, k: nat) -> Set<Seq<char>>
    decreases k,
{
    if k == 0 {
        Set::empty()
    } else {
        vocabulary_upto(df, cfg, (k - 1) as nat).union(df.vocabulary(cfg.entries()[k - 1].1))
    }
}

/// The names that the blocks can add are finitely many, and hold the
/// vocabulary of every block.
pub proof fn lemma_vocabulary<D: Dataflow>(df: &D, cfg: Cfg, k: nat)
    requires
        k <= cfg.size(),
    ensures
        vocabulary_upto(df, cfg, k).finite(),
        forall|p: int|
            0 <= p < k ==> df.vocabulary((#[trigger] cfg.entries()[p]).1).subset_of(
                vocabulary_upto(df, cfg, k),
            ),
    decreases k,
{
    if k > 0 {
        lemma_vocabulary(df, cfg, (k - 1) as nat);
        df.lemma_transferred_within(cfg.entries()[k - 1].1, Set::empty());
    }
}

/// The room left for the values of the first `k` blocks to grow within a
/// bound.
pub open spec fn slack(outs: Seq<Set<Seq<char>>>, bound: Set<Seq<char>>, k: nat) -> nat
    decreases k,
{
    if k == 0 {
        0
    } else {
        slack(outs, bound, (k - 1) as nat) + (bound.len() - outs[k - 1].len()) as nat
    }
}

/// A value that grows within the bound leaves less room.
pub proof fn lemma_slack_update(
    outs: Seq<Set<Seq<char>>>,
    bound: Set<Seq<char>>,
    k: nat,
    b: int,
    value: Set<Seq<char>>,
)
    requires
        k <= outs.len(),
        0 <= b < outs.len(),
        bound.finite(),
        outs[b].subset_of(value),
        value.subset_of(bound),
    ensures
        slack(outs.update(b, value), bound, k) <= slack(outs, bound, k),
        b < k && outs[b] != value ==> slack(outs.update(b, value), bound, k) < slack(
            outs,
            bound,
            k,
        ),
    decreases k,
{
    if k > 0 {
        lemma_slack_update(outs, bound, (k - 1) as nat, b, value);
        vstd::set_lib::lemma_len_subset(value, bound);
        vstd::set_lib::lemma_len_subset(outs[b], value);
        if outs[b].len() == value.len() {
            vstd::set_lib::lemma_subset_equality(outs[b], value);
            assert(outs[b] =~= value);
        }
    }
}

/// The block with the given number.
pub fn block_of(cfg: &Cfg, b: i32) -> (block: Option<&Block>)
    requires
        cfg.wf(),
        cfg.is_block(b),
    ensures
        block is Some,
        block->0@ == cfg.body(b),
{
    proof {
        lemma_succs_resolve(*cfg, b);
    }
    let r = numbered_get(&cfg.block_map, b);
    proof {
        assert(has_key(cfg.entries(), b));
        let i = choose|i: int|
            0 <= i < cfg.entries().len() && (#[trigger] cfg.entries()[i]).0 == b && cfg.entries()[i].1
                == r->0@;
        if i != cfg.place(b) {
            assert(cfg.entries()[i].0 != cfg.entries()[cfg.place(b)].0);
        }
    }
    r
}

/// The successors or the predecessors of a block.
pub fn neighbours<'a>(cfg: &'a Cfg, b: i32, successors: bool) -> (list: Vec<i32>)
    requires
        cfg.wf(),
        cfg.is_block(b),
    ensures
        list@ == if successors {
            cfg.succs(b)
        } else {
            cfg.preds(b)
        },
{
    let map = if successors {
        &cfg.succ
    } else {
        &cfg.pred
    };
    assert(cfg.succ@.dom().contains(b));
    assert(cfg.pred@.dom().contains(b));
    match map.get(&b) {
        Some(l) => crate::cfg::copy_ids(l),
        None => Vec::new(),
    }
}

/// Solves a dataflow problem over the graph with a worklist.
///
/// Returns, for every block, the value at its start and the value at its
/// end, in the direction of the program's flow. The values that the blocks
/// produce are the least solution of the problem's equations, and the value
/// on the other side of each block is the merge of what flows into it.
pub fn df_analysis<D: Dataflow>(cfg: &Cfg, df: D) -> (r: (
    HashMap<i32, Vec<String>>,
    HashMap<i32, Vec<String>>,
))
    requires
        cfg.wf(),
    ensures
        r.0@.dom() =~= Set::new(|k: i32| cfg.is_block(k)),
        r.1@.dom() =~= Set::new(|k: i32| cfg.is_block(k)),
        !df.reversed() ==> values_of(r.1@, cfg.size()) == least_solution(&df, *cfg) && values_of(
            r.0@,
            cfg.size(),
        ) == entering(&df, *cfg, least_solution(&df, *cfg)),
        df.reversed() ==> values_of(r.0@, cfg.size()) == least_solution(&df, *cfg) && values_of(
            r.1@,
            cfg.size(),
        ) == entering(&df, *cfg, least_solution(&df, *cfg)),
        is_least_solution(&df, *cfg, least_solution(&df, *cfg)),
{
    let forward = !df.is_reverse();
    let n = numbered_len(&cfg.block_map);
    let mut ins: Vec<Vec<String>> = Vec::new();
    let mut outs: Vec<Vec<String>> = Vec::new();
    let mut worklist: Vec<i32> = Vec::new();
    let ghost bound = vocabulary_upto(&df, *cfg, n as nat);
    proof {
        lemma_vocabulary(&df, *cfg, n as nat);
    }
    let mut k: usize = 0;
    while k < n
        invariant
            k <= n,
            n == cfg.size(),
            n <= i32::MAX,
            ins.len() == k,
            outs.len() == k,
            worklist.len() == k,
            forall|b: int| 0 <= b < k ==> worklist[b] == b,
            forall|b: int| 0 <= b < k ==> name_set(#[trigger] outs[b]@) == df.initial(),
        decreases n - k,
    {
        ins.push(df.init());
        outs.push(df.init());
        worklist.push(k as i32);
        k += 1;
    }
    proof {
        let vals = sets_of(outs@);
        assert forall|b: int| 0 <= b < n implies (#[trigger] vals[b]) == df.initial() by {}
        assert forall|b: i32| cfg.is_block(b) implies (#[trigger] vals[b as int]).subset_of(
            outflow(&df, *cfg, vals, b),
        ) && vals[b as int].subset_of(bound) by {
            df.lemma_initial_least(outflow(&df, *cfg, vals, b));
            df.lemma_initial_least(bound);
        }
        assert forall|other: Seq<Set<Seq<char>>>| #[trigger]
            is_solution(&df, *cfg, other) implies pointwise_within(vals, other) by {
            assert forall|i: int| 0 <= i < vals.len() implies (#[trigger] vals[i]).subset_of(
                other[i],
            ) by {
                df.lemma_initial_least(other[i]);
            }
        }
        assert forall|b: i32| cfg.is_block(b) implies worklist@.contains(b) by {
            assert(worklist[b as int] == b);
        }
    }
    while worklist.len() > 0
        invariant
            n == cfg.size(),
            n <= i32::MAX,
            cfg.wf(),
            forward == !df.reversed(),
            bound == vocabulary_upto(&df, *cfg, n as nat),
            bound.finite(),
            forall|p: int|
                0 <= p < n ==> df.vocabulary((#[trigger] cfg.entries()[p]).1).subset_of(bound),
            ins.len() == n,
            outs.len() == n,
            forall|i: int| 0 <= i < worklist.len() ==> cfg.is_block(#[trigger] worklist[i]),
            forall|b: i32|
                cfg.is_block(b) ==> (#[trigger] sets_of(outs@)[b as int]).subset_of(
                    outflow(&df, *cfg, sets_of(outs@), b),
                ) && sets_of(outs@)[b as int].subset_of(bound),
            forall|b: i32|
                cfg.is_block(b) && !worklist@.contains(b) ==> (#[trigger] sets_of(outs@)[b as int])
                    == outflow(&df, *cfg, sets_of(outs@), b) && name_set(ins[b as int]@) == inflow(
                    &df,
                    *cfg,
                    sets_of(outs@),
                    b,
                ),
            forall|other: Seq<Set<Seq<char>>>| #[trigger]
                is_solution(&df, *cfg, other) ==> pointwise_within(sets_of(outs@), other),
        decreases slack(sets_of(outs@), bound, n as nat), worklist.len(),
    {
        let ghost vals = sets_of(outs@);
        let ghost old_work = worklist@;
        let num = worklist.pop().unwrap();
        assert(cfg.is_block(old_work[old_work.len() - 1]));
        let block = match block_of(cfg, num) {
            Some(b) => b,
            None => {
                return (HashMap::new(), HashMap::new());
            },
        };
        let from = neighbours(cfg, num, !forward);
        let to = neighbours(cfg, num, forward);
        assert(from@ == flow_into(&df, *cfg, num));
        assert(to@ == flow_out(&df, *cfg, num));
        let mut out_p: Vec<Vec<String>> = Vec::new();
        let mut j: usize = 0;
        while j < from.len()
            invariant
                j <= from.len(),
                n == cfg.size(),
                cfg.wf(),
                cfg.is_block(num),
                outs.len() == n,
                vals == sets_of(outs@),
                from@ == flow_into(&df, *cfg, num),
                out_p.len() == j,
                forall|i: int| 0 <= i < j ==> name_set(#[trigger] out_p[i]@) == vals[from[i] as int],
            decreases from.len() - j,
        {
            proof {
                lemma_flow_blocks(&df, *cfg, num, j as int);
            }
            out_p.push(copy_names(&outs[from[j] as usize]));
            j += 1;
        }
        assert(sets_of(out_p@) =~= gathered(vals, from@));
        let in_b = df.merge(&out_p);
        let out_b = df.transfer(block, &in_b);
        let ghost value = name_set(out_b@);
        assert(value == outflow(&df, *cfg, vals, num));
        let changed = !same_names(&out_b, &outs[num as usize]);
        assert(vals[num as int] == name_set(outs[num as int]@));
        ins.set(num as usize, in_b);
        if changed {
            let mut t: usize = 0;
            while t < to.len()
                invariant
                    t <= to.len(),
                    cfg.wf(),
                    cfg.is_block(num),
                    to@ == flow_out(&df, *cfg, num),
                    worklist@ == old_work.drop_last() + to@.take(t as int),
                    forall|i: int| 0 <= i < worklist.len() ==> cfg.is_block(#[trigger] worklist[i]),
                decreases to.len() - t,
            {
                proof {
                    lemma_flow_blocks(&df, *cfg, num, t as int);
                }
                worklist.push(to[t]);
                assert(to@.take(t + 1) =~= to@.take(t as int).push(to[t as int]));
                t += 1;
            }
            assert(to@.take(t as int) =~= to@);
        }
        outs.set(num as usize, out_b);
        proof {
            let next = sets_of(outs@);
            assert(next =~= vals.update(num as int, value));
            assert(vals[num as int].subset_of(value));
            lemma_succs_resolve(*cfg, num);
            df.lemma_transferred_within(cfg.body(num), inflow(&df, *cfg, vals, num));
            assert(inflow(&df, *cfg, vals, num).subset_of(bound)) by {
                let g = gathered(vals, from@);
                assert forall|i: int| 0 <= i < g.len() implies (#[trigger] g[i]).subset_of(
                    bound,
                ) by {
                    lemma_flow_blocks(&df, *cfg, num, i);
                    assert(vals[from[i] as int].subset_of(bound));
                }
                df.lemma_merged_within(g, bound);
            }
            assert(df.vocabulary(cfg.entries()[cfg.place(num)].1).subset_of(bound));
            assert(value.subset_of(bound));
            lemma_slack_update(vals, bound, n as nat, num as int, value);
            assert(pointwise_within(vals, next));
            assert forall|b: i32| cfg.is_block(b) implies (#[trigger] next[b as int]).subset_of(
                outflow(&df, *cfg, next, b),
            ) && next[b as int].subset_of(bound) by {
                lemma_outflow_monotone(&df, *cfg, vals, next, b);
                assert(vals[b as int].subset_of(outflow(&df, *cfg, vals, b)));
            }
            assert forall|other: Seq<Set<Seq<char>>>| #[trigger]
                is_solution(&df, *cfg, other) implies pointwise_within(next, other) by {
                assert(pointwise_within(vals, other));
                lemma_outflow_monotone(&df, *cfg, vals, other, num);
                assert(other[num as int] == outflow(&df, *cfg, other, num));
            }
            assert forall|b: i32| cfg.is_block(b) && !worklist@.contains(b) implies (
            #[trigger] next[b as int]) == outflow(&df, *cfg, next, b) && name_set(ins[b as int]@)
                == inflow(&df, *cfg, next, b) by {
                if changed {
                    assert(worklist@ == old_work.drop_last() + to@);
                    if to@.contains(b) {
                        let i = choose|i: int| 0 <= i < to@.len() && to@[i] == b;
                        assert(worklist@[old_work.len() - 1 + i] == b);
                    }
                    lemma_flow_edge(&df, *cfg, num, b);
                    lemma_outflow_local(&df, *cfg, vals, num, value, b);
                } else {
                    assert(next =~= vals);
                }
                if b != num {
                    if old_work.contains(b) {
                        let i = choose|i: int| 0 <= i < old_work.len() && old_work[i] == b;
                        assert(i < old_work.len() - 1);
                        assert(worklist@[i] == b);
                    }
                    assert(vals[b as int] == outflow(&df, *cfg, vals, b));
                }
            }
        }
    }
    let ghost vals = sets_of(outs@);
    let ghost enter = sets_of(ins@);
    let in_map = to_name_map(ins);
    let out_map = to_name_map(outs);
    proof {
        assert(values_of(out_map@, cfg.size()) =~= vals);
        assert(values_of(in_map@, cfg.size()) =~= enter);
        assert forall|b: i32| cfg.is_block(b) implies vals[b as int] == #[trigger] outflow(
            &df,
            *cfg,
            vals,
            b,
        ) by {
            assert(!worklist@.contains(b));
        }
        assert(is_least_solution(&df, *cfg, vals));
        lemma_least_unique(&df, *cfg, vals);
        assert forall|b: int| 0 <= b < cfg.size() implies enter[b] == entering(&df, *cfg, vals)[b] by {
            assert(!worklist@.contains(b as i32));
            assert(vals[b] == outflow(&df, *cfg, vals, b as i32));
        }
        assert(enter =~= entering(&df, *cfg, vals));
    }
    if forward {
        (in_map, out_map)
    } else {
        (out_map, in_map)
    }
}

/// The map from each block number to its list of names.
fn to_name_map(lists: Vec<Vec<String>>) -> (m: HashMap<i32, Vec<String>>)
    requires
        lists.len() <= i32::MAX,
    ensures
        m@.dom() =~= Set::new(|k: i32| 0 <= k < lists.len()),
        forall|k: i32| 0 <= k < lists.len() ==> name_set(#[trigger] m@[k]@) == name_set(lists[k as int]@),
{
    let mut m: HashMap<i32, Vec<String>> = HashMap::new();
    let mut i: usize = 0;
    while i < lists.len()
        invariant
            i <= lists.len() <= i32::MAX,
            m@.dom() =~= Set::new(|k: i32| 0 <= k < i),
            forall|k: i32| 0 <= k < i ==> name_set(#[trigger] m@[k]@) == name_set(lists[k as int]@),
        decreases lists.len() - i,
    {
        m.insert(i as i32, copy_names(&lists[i]));
        i += 1;
    }
    m
}


/// The forward problem of the variables defined on some path to a point.
pub struct DefinedVars;

impl Dataflow for DefinedVars {
    open spec fn merged(&self, sets: Seq<Set<Seq<char>>>) -> Set<Seq<char>> {
        union_all(sets)
    }

    open spec fn transferred(&self, block: Seq<CodeView>, input: Set<Seq<char>>) -> Set<
        Seq<char>,
    > {
        input.union(defs(block))
    }

    open spec fn reversed(&self) -> bool {
        false
    }

    open spec fn initial(&self) -> Set<Seq<char>> {
        Set::empty()
    }

    open spec fn vocabulary(&self, block: Seq<CodeView>) -> Set<Seq<char>> {
        mentioned(block)
    }

    proof fn lemma_merged_monotone(&self, a: Seq<Set<Seq<char>>>, b: Seq<Set<Seq<char>>>) {
        lemma_union_monotone(a, b);
    }

    proof fn lemma_merged_within(&self, a: Seq<Set<Seq<char>>>, bound: Set<Seq<char>>) {
        lemma_union_within(a, bound);
    }

    proof fn lemma_transferred_monotone(
        &self,
        block: Seq<CodeView>,
        a: Set<Seq<char>>,
        b: Set<Seq<char>>,
    ) {
    }

    proof fn lemma_transferred_within(&self, block: Seq<CodeView>, a: Set<Seq<char>>) {
        lemma_mentioned_finite(block);
    }

    proof fn lemma_initial_least(&self, a: Set<Seq<char>>) {
    }

    fn merge(&self, sets: &Vec<Vec<String>>) -> (r: Vec<String>) {
        union(sets)
    }

    fn transfer(&self, b: &Block, in_b: &Vec<String>) -> (r: Vec<String>) {
        let mut set = copy_names(in_b);
        let defined = get_def_vars(b);
        let ghost base = name_set(set@);
        let mut i: usize = 0;
        while i < defined.len()
            invariant
                i <= defined.len(),
                name_set(set@) == base.union(name_set(defined@.take(i as int))),
            decreases defined.len() - i,
        {
            insert_name(&mut set, defined[i].clone());
            proof {
                assert(defined@.take(i + 1).drop_last() =~= defined@.take(i as int));
                crate::cfg::lemma_name_set_push(defined@.take(i as int), defined@.take(i + 1));
                assert(name_set(set@) =~= base.union(name_set(defined@.take(i + 1))));
            }
            i += 1;
        }
        assert(defined@.take(i as int) =~= defined@);
        set
    }

    fn is_reverse(&self) -> (r: bool) {
        false
    }

    fn init(&self) -> (r: Vec<String>) {
        let r: Vec<String> = Vec::new();
        assert(name_set(r@) =~= Set::<Seq<char>>::empty());
        r
    }
}

/// The backward problem of the variables that are read on some path from a
/// point before they are defined.
pub struct LiveVars;

impl Dataflow for LiveVars {
    open spec fn merged(&self, sets: Seq<Set<Seq<char>>>) -> Set<Seq<char>> {
        union_all(sets)
    }

    open spec fn transferred(&self, block: Seq<CodeView>, input: Set<Seq<char>>) -> Set<
        Seq<char>,
    > {
        uses(block).union(input.difference(defs(block)))
    }

    open spec fn reversed(&self) -> bool {
        true
    }

    open spec fn initial(&self) -> Set<Seq<char>> {
        Set::empty()
    }

    open spec fn vocabulary(&self, block: Seq<CodeView>) -> Set<Seq<char>> {
        mentioned(block)
    }

    proof fn lemma_merged_monotone(&self, a: Seq<Set<Seq<char>>>, b: Seq<Set<Seq<char>>>) {
        lemma_union_monotone(a, b);
    }

    proof fn lemma_merged_within(&self, a: Seq<Set<Seq<char>>>, bound: Set<Seq<char>>) {
        lemma_union_within(a, bound);
    }

    proof fn lemma_transferred_monotone(
        &self,
        block: Seq<CodeView>,
        a: Set<Seq<char>>,
        b: Set<Seq<char>>,
    ) {
    }

    proof fn lemma_transferred_within(&self, block: Seq<CodeView>, a: Set<Seq<char>>) {
        lemma_mentioned_finite(block);
    }

    proof fn lemma_initial_least(&self, a: Set<Seq<char>>) {
    }

    fn merge(&self, sets: &Vec<Vec<String>>) -> (r: Vec<String>) {
        union(sets)
    }

    fn transfer(&self, b: &Block, out_b: &Vec<String>) -> (r: Vec<String>) {
        let mut set = get_uses(b);
        let defined = get_def_vars(b);
        let ghost base = name_set(set@);
        let mut i: usize = 0;
        while i < out_b.len()
            invariant
                i <= out_b.len(),
                name_set(set@) == base.union(
                    name_set(out_b@.take(i as int)).difference(name_set(defined@)),
                ),
            decreases out_b.len() - i,
        {
            if !contains_name(&defined, &out_b[i]) {
                insert_name(&mut set, out_b[i].clone());
            }
            proof {
                assert(out_b@.take(i + 1).drop_last() =~= out_b@.take(i as int));
                crate::cfg::lemma_name_set_push(out_b@.take(i as int), out_b@.take(i + 1));
                assert(name_set(set@) =~= base.union(
                    name_set(out_b@.take(i + 1)).difference(name_set(defined@)),
                ));
            }
            i += 1;
        }
        assert(out_b@.take(i as int) =~= out_b@);
        set
    }

    fn is_reverse(&self) -> (r: bool) {
        true
    }

    fn init(&self) -> (r: Vec<String>) {
        let r: Vec<String> = Vec::new();
        assert(name_set(r@) =~= Set::<Seq<char>>::empty());
        r
    }
}

/// What an analysis found for one block: its label, and the names at its
/// start and at its end.
pub struct BlockFacts {
    pub name: String,
    pub ins: Vec<String>,
    pub outs: Vec<String>,
}

/// The facts of every block, in the order of the block map.
fn report(
    cfg: &Cfg,
    in_map: &HashMap<i32, Vec<String>>,
    out_map: &HashMap<i32, Vec<String>>,
) -> (facts: Vec<BlockFacts>)
    requires
        cfg.wf(),
        in_map@.dom() =~= Set::new(|k: i32| cfg.is_block(k)),
        out_map@.dom() =~= Set::new(|k: i32| cfg.is_block(k)),
    ensures
        facts.len() == cfg.size(),
        forall|p: int|
            0 <= p < facts.len() ==> {
                let num = cfg.entries()[p].0;
                &&& (#[trigger] facts[p]).name@ == cfg.labels()[num]
                &&& name_set(facts[p].ins@) == name_set(in_map@[num]@)
                &&& name_set(facts[p].outs@) == name_set(out_map@[num]@)
            },
{
    let n = numbered_len(&cfg.block_map);
    let mut facts: Vec<BlockFacts> = Vec::new();
    let mut p: usize = 0;
    while p < n
        invariant
            p <= n,
            n == cfg.size(),
            cfg.wf(),
            in_map@.dom() =~= Set::new(|k: i32| cfg.is_block(k)),
            out_map@.dom() =~= Set::new(|k: i32| cfg.is_block(k)),
            facts.len() == p,
            forall|q: int|
                0 <= q < p ==> {
                    let num = cfg.entries()[q].0;
                    &&& (#[trigger] facts[q]).name@ == cfg.labels()[num]
                    &&& name_set(facts[q].ins@) == name_set(in_map@[num]@)
                    &&& name_set(facts[q].outs@) == name_set(out_map@[num]@)
                },
        decreases n - p,
    {
        let (num, _) = numbered_get_index(&cfg.block_map, p);
        assert(cfg.is_block(cfg.entries()[p as int].0));
        assert(cfg.labels().dom().contains(num));
        assert(in_map@.dom().contains(num));
        assert(out_map@.dom().contains(num));
        let name = match labels_get_by_left(&cfg.name_map, num) {
            Some(l) => l.clone(),
            None => String::new(),
        };
        let ins = match in_map.get(&num) {
            Some(l) => copy_names(l),
            None => Vec::new(),
        };
        let outs = match out_map.get(&num) {
            Some(l) => copy_names(l),
            None => Vec::new(),
        };
        facts.push(BlockFacts { name, ins, outs });
        p += 1;
    }
    facts
}

/// The variables defined on some path to the start and to the end of every
/// block, in the order of the block map.
pub fn declared_vars(cfg: &Cfg) -> (facts: Vec<BlockFacts>)
    requires
        cfg.wf(),
    ensures
        facts.len() == cfg.size(),
        is_least_solution(&DefinedVars, *cfg, least_solution(&DefinedVars, *cfg)),
        forall|p: int|
            0 <= p < facts.len() ==> {
                let num = cfg.entries()[p].0;
                &&& (#[trigger] facts[p]).name@ == cfg.labels()[num]
                &&& name_set(facts[p].outs@) == least_solution(&DefinedVars, *cfg)[num as int]
                &&& name_set(facts[p].ins@) == inflow(
                    &DefinedVars,
                    *cfg,
                    least_solution(&DefinedVars, *cfg),
                    num,
                )
            },
{
    let (in_map, out_map) = df_analysis(cfg, DefinedVars);
    let facts = report(cfg, &in_map, &out_map);
    proof {
        let outs = least_solution(&DefinedVars, *cfg);
        assert forall|p: int| 0 <= p < facts.len() implies {
            let num = cfg.entries()[p].0;
            &&& (#[trigger] facts[p]).name@ == cfg.labels()[num]
            &&& name_set(facts[p].outs@) == outs[num as int]
            &&& name_set(facts[p].ins@) == inflow(&DefinedVars, *cfg, outs, num)
        } by {
            let num = cfg.entries()[p].0;
            assert(cfg.is_block(num));
            assert(values_of(out_map@, cfg.size())[num as int] == outs[num as int]);
            assert(values_of(in_map@, cfg.size())[num as int] == entering(&DefinedVars, *cfg, outs)[num as int]);
        }
    }
    facts
}

/// The variables live at the start and at the end of every block, in the
/// order of the block map.
pub fn live_vars(cfg: &Cfg) -> (facts: Vec<BlockFacts>)
    requires
        cfg.wf(),
    ensures
        facts.len() == cfg.size(),
        is_least_solution(&LiveVars, *cfg, least_solution(&LiveVars, *cfg)),
        forall|p: int|
            0 <= p < facts.len() ==> {
                let num = cfg.entries()[p].0;
                &&& (#[trigger] facts[p]).name@ == cfg.labels()[num]
                &&& name_set(facts[p].ins@) == least_solution(&LiveVars, *cfg)[num as int]
                &&& name_set(facts[p].outs@) == inflow(
                    &LiveVars,
                    *cfg,
                    least_solution(&LiveVars, *cfg),
                    num,
                )
            },
{
    let (in_map, out_map) = df_analysis(cfg, LiveVars);
    let facts = report(cfg, &in_map, &out_map);
    proof {
        let live_in = least_solution(&LiveVars, *cfg);
        assert forall|p: int| 0 <= p < facts.len() implies {
            let num = cfg.entries()[p].0;
            &&& (#[trigger] facts[p]).name@ == cfg.labels()[num]
            &&& name_set(facts[p].ins@) == live_in[num as int]
            &&& name_set(facts[p].outs@) == inflow(&LiveVars, *cfg, live_in, num)
        } by {
            let num = cfg.entries()[p].0;
            assert(cfg.is_block(num));
            assert(values_of(in_map@, cfg.size())[num as int] == live_in[num as int]);
            assert(values_of(out_map@, cfg.size())[num as int] == entering(&LiveVars, *cfg, live_in)[num as int]);
        }
    }
    facts
}

} // verus!
