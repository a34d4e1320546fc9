//! Trivial dead-code elimination: definitions that nothing reads, and
//! definitions that are overwritten before they are read.
use crate::df::{args_of, dest_of, insert_name};
use crate::form_blocks::{block_views, blocks_of, flat, flatten_blocks, form_blocks, Block};
use crate::fresh::{contains_name, name_set};
use crate::ir::{codes, names, Code, CodeView, Function, Instruction};
use vstd::prelude::*;

verus! {

/// The variables that some item of the body reads.
pub open spec fn used_args(code: Seq<CodeView>) -> Set<Seq<char>> {
    Set::new(
        |x: Seq<char>| exists|i: int| 0 <= i < code.len() && args_of(#[trigger] code[i]).contains(x),
    )
}

/// Whether the item defines a variable that is not among the used ones.
pub open spec fn is_unused_def(c: CodeView, used: Set<Seq<char>>) -> bool {
    match dest_of(c) {
        Some(d) => !used.contains(d),
        None => false,
    }
}

/// The items that do not define an unused variable, in order.
pub open spec fn without_unused(code: Seq<CodeView>, used: Set<Seq<char>>) -> Seq<CodeView>
    decreases code.len(),
{
    if code.len() == 0 {
        Seq::empty()
    } else {
        let r = without_unused(code.drop_last(), used);
        if is_unused_def(code.last(), used) {
            r
        } else {
            r.push(code.last())
        }
    }
}

/// The body after the global sweep: every instruction is deleted that
/// defines a variable which no instruction of the body reads.
pub open spec fn global_swept(code: Seq<CodeView>) -> Seq<CodeView> {
    without_unused(code, used_args(code))
}

/// Sweeping deletes items, never adds one; and where it deletes none, it
/// changes nothing.
pub proof fn lemma_without_unused_len(code: Seq<CodeView>, used: Set<Seq<char>>)
    ensures
        without_unused(code, used).len() <= code.len(),
        without_unused(code, used).len() == code.len() ==> without_unused(code, used) == code,
    decreases code.len(),
{
    if code.len() > 0 {
        lemma_without_unused_len(code.drop_last(), used);
        if without_unused(code, used).len() == code.len() {
            assert(code =~= code.drop_last().push(code.last()));
        }
    }
}

fn collect_used(instrs: &Vec<Code>) -> (used: Vec<String>)
    ensures
        name_set(used@) == used_args(codes(instrs@)),
{
    let mut used: Vec<String> = Vec::new();
    let ghost code = codes(instrs@);
    let mut i: usize = 0;
    assert(name_set(used@) =~= used_args(code.take(0)));
    while i < instrs.len()
        invariant
            i <= instrs.len(),
            code == codes(instrs@),
            name_set(used@) == used_args(code.take(i as int)),
        decreases instrs.len() - i,
    {
        let ghost before = name_set(used@);
        let ghost item = code[i as int];
        assert(item == instrs[i as int]@);
        if let Code::Instruction(instr) = &instrs[i] {
            match instr {
                Instruction::Value { args, .. } | Instruction::Effect { args, .. } => {
                    let mut j: usize = 0;
                    assert(name_set(args@.take(0)) =~= Set::<Seq<char>>::empty());
                    assert(name_set(used@) =~= before.union(name_set(args@.take(0))));
                    while j < args.len()
                        invariant
                            j <= args.len(),
                            name_set(used@) == before.union(name_set(args@.take(j as int))),
                        decreases args.len() - j,
                    {
                        insert_name(&mut used, args[j].clone());
                        proof {
                            assert(args@.take(j + 1).drop_last() =~= args@.take(j as int));
                            crate::cfg::lemma_name_set_push(args@.take(j as int), args@.take(j + 1));
                            assert(name_set(used@) =~= before.union(name_set(args@.take(j + 1))));
                        }
                        j += 1;
                    }
                    proof {
                        assert(args@.take(j as int) =~= args@);
                        crate::cfg::lemma_name_set_members(args@);
                        assert(names(args@) == args_of(item));
                    }
                },
                Instruction::Constant { .. } => {
                    assert(args_of(item) =~= Seq::<Seq<char>>::empty());
                },
            }
        } else {
            assert(args_of(item) =~= Seq::<Seq<char>>::empty());
        }
        proof {
            let cur = code.take(i as int);
            let next = code.take(i + 1);
            assert forall|x: Seq<char>|
                name_set(used@).contains(x) <==> (before.contains(x) || args_of(item).contains(
                    x,
                )) by {}
            assert forall|x: Seq<char>| used_args(next).contains(x) <==> (used_args(cur).contains(
                x,
            ) || args_of(item).contains(x)) by {
                if used_args(next).contains(x) {
                    let k = choose|k: int|
                        0 <= k < next.len() && args_of(#[trigger] next[k]).contains(x);
                    if k < i {
                        assert(cur[k] == next[k]);
                    }
                }
                if used_args(cur).contains(x) {
                    let k = choose|k: int| 0 <= k < cur.len() && args_of(#[trigger] cur[k]).contains(x);
                    assert(next[k] == cur[k]);
                }
                if args_of(item).contains(x) {
                    assert(next[i as int] == item);
                }
            }
            assert(name_set(used@) =~= used_args(next));
        }
        i += 1;
    }
    assert(code.take(i as int) =~= code);
    used
}

/// The global sweep: deletes every instruction that defines a variable
/// which no instruction of the function reads. Returns whether it deleted
/// anything.
pub fn trivial_global_dce_pass(func: &mut Function) -> (not_done: bool)
    ensures
        codes(final(func).instrs@) == global_swept(codes(old(func).instrs@)),
        not_done == (codes(final(func).instrs@) != codes(old(func).instrs@)),
        not_done ==> final(func).instrs.len() < old(func).instrs.len(),
        final(func).name == old(func).name,
        final(func).args == old(func).args,
        final(func).return_type == old(func).return_type,
{
    let used = collect_used(&func.instrs);
    let ghost code = codes(func.instrs@);
    let ghost set = used_args(code);
    let mut kept: Vec<Code> = Vec::new();
    let mut not_done = false;
    let mut i: usize = 0;
    assert(codes(kept@) =~= without_unused(code.take(0), set));
    while i < func.instrs.len()
        invariant
            i <= func.instrs.len(),
            code == codes(func.instrs@),
            func.instrs == old(func).instrs,
            func.name == old(func).name,
            func.args == old(func).args,
            func.return_type == old(func).return_type,
            name_set(used@) == set,
            codes(kept@) == without_unused(code.take(i as int), set),
            not_done == (kept.len() != i),
        decreases func.instrs.len() - i,
    {
        let ghost before = codes(kept@);
        proof {
            assert(code.take(i + 1).drop_last() =~= code.take(i as int));
            assert(code.take(i + 1).last() == func.instrs[i as int]@);
            lemma_without_unused_len(code.take(i as int), set);
        }
        let dead = match &func.instrs[i] {
            Code::Instruction(instr) => match instr {
                Instruction::Constant { dest, .. } | Instruction::Value { dest, .. } => {
                    !contains_name(&used, dest)
                },
                Instruction::Effect { .. } => false,
            },
            Code::Label { .. } => false,
        };
        if dead {
            not_done = true;
        } else {
            kept.push(func.instrs[i].clone());
            assert(codes(kept@) =~= before.push(func.instrs[i as int]@));
        }
        i += 1;
    }
    proof {
        assert(code.take(i as int) =~= code);
        lemma_without_unused_len(code, set);
    }
    func.instrs = kept;
    not_done
}

/// Whether the definition at `k` is killed in the block: a later item
/// defines the same variable, and no item after `k` up to and including
/// that one reads it.
pub open spec fn killed(b: Seq<CodeView>, k: int) -> bool {
    dest_of(b[k]) is Some && exists|m: int| #[trigger] kills(b, k, m)
}

/// Whether the item at `m` kills the definition at `k`.
pub open spec fn kills(b: Seq<CodeView>, k: int, m: int) -> bool {
    &&& 0 <= k < m < b.len()
    &&& dest_of(b[m]) == dest_of(b[k])
    &&& forall|j: int| k < j <= m ==> !args_of(#[trigger] b[j]).contains(dest_of(b[k])->0)
}

/// The first `i` items of a block without the killed definitions.
pub open spec fn unkilled(b: Seq<CodeView>, i: nat) -> Seq<CodeView>
    decreases i,
{
    if i == 0 {
        Seq::empty()
    } else {
        let r = unkilled(b, (i - 1) as nat);
        if killed(b, i - 1) {
            r
        } else {
            r.push(b[i - 1])
        }
    }
}

/// The body after the local sweep: in every block, the definitions that are
/// killed are deleted.
pub open spec fn local_swept(code: Seq<CodeView>) -> Seq<CodeView> {
    flat(blocks_of(code).map_values(|b: Seq<CodeView>| unkilled(b, b.len())))
}

/// The local sweep of a block deletes items, never adds one; and where it
/// deletes none, it changes nothing.
pub proof fn lemma_unkilled_len(b: Seq<CodeView>, i: nat)
    requires
        i <= b.len(),
    ensures
        unkilled(b, i).len() <= i,
        unkilled(b, i).len() == i ==> unkilled(b, i) == b.take(i as int),
    decreases i,
{
    if i > 0 {
        lemma_unkilled_len(b, (i - 1) as nat);
        if unkilled(b, i).len() == i {
            assert(b.take(i as int) =~= b.take(i - 1).push(b[i - 1]));
        }
    } else {
        assert(b.take(0) =~= Seq::<CodeView>::empty());
    }
}

/// Whether the definition at `k` of a block is killed.
fn is_killed(block: &Block, k: usize) -> (r: bool)
    requires
        k < block.instrs.len(),
    ensures
        r == killed(block@, k as int),
{
    let ghost b = block@;
    assert(b[k as int] == block.instrs[k as int]@);
    let dest = match &block.instrs[k] {
        Code::Instruction(instr) => match instr {
            Instruction::Value { dest, .. } | Instruction::Constant { dest, .. } => dest,
            Instruction::Effect { .. } => {
                return false;
            },
        },
        Code::Label { .. } => {
            return false;
        },
    };
    let mut m: usize = k + 1;
    while m < block.instrs.len()
        invariant
            k < m <= block.instrs.len(),
            b == block@,
            dest_of(b[k as int]) == Some(dest@),
            forall|j: int| k < j < m ==> !args_of(#[trigger] b[j]).contains(dest@),
            forall|j: int| k < j < m ==> dest_of(#[trigger] b[j]) != Some(dest@),
        decreases block.instrs.len() - m,
    {
        assert(b[m as int] == block.instrs[m as int]@);
        if let Code::Instruction(instr) = &block.instrs[m] {
            match instr {
                Instruction::Value { args, .. } | Instruction::Effect { args, .. } => {
                    if contains_name(args, dest) {
                        proof {
                            crate::cfg::lemma_name_set_members(args@);
                            assert(args_of(b[m as int]).contains(dest@));
                            assert forall|x: int| !kills(b, k as int, x) by {
                                if kills(b, k as int, x) {
                                    if x < m {
                                        assert(dest_of(b[x]) != Some(dest@));
                                    } else {
                                        assert(!args_of(b[m as int]).contains(dest@));
                                    }
                                }
                            }
                        }
                        return false;
                    }
                    proof {
                        crate::cfg::lemma_name_set_members(args@);
                    }
                },
                Instruction::Constant { .. } => {},
            }
            match instr {
                Instruction::Value { dest: d, .. } | Instruction::Constant { dest: d, .. } => {
                    if *d == *dest {
                        assert(kills(b, k as int, m as int));
                        return true;
                    }
                },
                Instruction::Effect { .. } => {},
            }
        }
        m += 1;
    }
    proof {
        assert forall|x: int| !kills(b, k as int, x) by {
            if kills(b, k as int, x) {
                assert(dest_of(b[x]) != Some(dest@));
            }
        }
    }
    false
}

/// The local sweep: in every block, deletes each definition that is
/// overwritten before anything reads it. Returns whether it deleted
/// anything.
pub fn locally_killed_instrs_pass(func: &mut Function) -> (not_done: bool)
    ensures
        codes(final(func).instrs@) == local_swept(codes(old(func).instrs@)),
        not_done == (codes(final(func).instrs@) != codes(old(func).instrs@)),
        not_done ==> final(func).instrs.len() < old(func).instrs.len(),
        final(func).name == old(func).name,
        final(func).args == old(func).args,
        final(func).return_type == old(func).return_type,
{
    let blocks = form_blocks(func);
    let ghost code = codes(func.instrs@);
    let ghost all = blocks_of(code);
    let mut new_blocks: Vec<Block> = Vec::new();
    let mut not_done = false;
    let mut i: usize = 0;
    while i < blocks.len()
        invariant
            i <= blocks.len(),
            all == block_views(blocks@),
            new_blocks.len() == i,
            forall|k: int|
                0 <= k < i ==> (#[trigger] new_blocks[k])@ == unkilled(all[k], all[k].len()),
            not_done == exists|k: int|
                0 <= k < i && (#[trigger] new_blocks[k])@.len() != all[k].len(),
        decreases blocks.len() - i,
    {
        let block = &blocks[i];
        assert(all[i as int] == block@);
        let mut kept: Vec<Code> = Vec::new();
        let mut k: usize = 0;
        assert(codes(kept@) =~= unkilled(block@, 0));
        while k < block.instrs.len()
            invariant
                k <= block.instrs.len(),
                codes(kept@) == unkilled(block@, k as nat),
            decreases block.instrs.len() - k,
        {
            let ghost before = codes(kept@);
            if !is_killed(block, k) {
                kept.push(block.instrs[k].clone());
                assert(codes(kept@) =~= before.push(block@[k as int]));
            }
            k += 1;
        }
        let ghost previous = new_blocks@;
        let changed = kept.len() != block.instrs.len();
        new_blocks.push(Block { instrs: kept });
        proof {
            if not_done {
                let w = choose|w: int| 0 <= w < i && (#[trigger] previous[w])@.len() != all[w].len();
                assert(new_blocks[w] == previous[w]);
            }
            if changed {
                assert(new_blocks[i as int]@.len() != all[i as int].len());
            }
            if exists|w: int| 0 <= w < i + 1 && (#[trigger] new_blocks[w])@.len() != all[w].len() {
                let w = choose|w: int|
                    0 <= w < i + 1 && (#[trigger] new_blocks[w])@.len() != all[w].len();
                if w < i {
                    assert(previous[w] == new_blocks[w]);
                }
            }
        }
        if changed {
            not_done = true;
        }
        i += 1;
    }
    let ghost swept = all.map_values(|b: Seq<CodeView>| unkilled(b, b.len()));
    assert(block_views(new_blocks@) =~= swept);
    proof {
        crate::form_blocks::lemma_blocks_partition(code);
        lemma_flat_swept(all, all.len());
        assert(all.take(all.len() as int) =~= all);
        assert(swept.take(all.len() as int) =~= swept);
        if not_done {
            let w = choose|w: int| 0 <= w < all.len() && (#[trigger] new_blocks[w])@.len() != all[w].len();
            assert(swept[w].len() != all[w].len());
        }
    }
    func.instrs = flatten_blocks(new_blocks);
    not_done
}

/// The local sweep of the first `k` blocks deletes items, never adds one;
/// and where it deletes none, it changes nothing.
pub proof fn lemma_flat_swept(all: Seq<Seq<CodeView>>, k: nat)
    requires
        k <= all.len(),
    ensures
        ({
            let swept = all.map_values(|b: Seq<CodeView>| unkilled(b, b.len()));
            &&& flat(swept.take(k as int)).len() <= flat(all.take(k as int)).len()
            &&& (forall|w: int| 0 <= w < k ==> (#[trigger] swept[w]).len() == all[w].len()) ==> flat(
                swept.take(k as int),
            ) == flat(all.take(k as int))
            &&& (exists|w: int| 0 <= w < k && (#[trigger] swept[w]).len() != all[w].len()) ==> flat(
                swept.take(k as int),
            ).len() < flat(all.take(k as int)).len()
        }),
    decreases k,
{
    let swept = all.map_values(|b: Seq<CodeView>| unkilled(b, b.len()));
    if k > 0 {
        lemma_flat_swept(all, (k - 1) as nat);
        let b = all[k - 1];
        lemma_unkilled_len(b, b.len());
        assert(b.take(b.len() as int) =~= b);
        assert(swept.take(k as int).drop_last() =~= swept.take(k - 1));
        assert(all.take(k as int).drop_last() =~= all.take(k - 1));
        assert(swept.take(k as int).last() == swept[k - 1]);
        assert(all.take(k as int).last() == b);
        if exists|w: int| 0 <= w < k && (#[trigger] swept[w]).len() != all[w].len() {
            let w = choose|w: int| 0 <= w < k && (#[trigger] swept[w]).len() != all[w].len();
            if w < k - 1 {
                assert(swept[w].len() != all[w].len());
            }
        }
    }
}


/// One round of elimination: the global sweep where it deletes anything,
/// else the local sweep.
pub open spec fn dce_step(code: Seq<CodeView>) -> Seq<CodeView> {
    if global_swept(code) != code {
        global_swept(code)
    } else {
        local_swept(code)
    }
}

/// The body after `n` rounds.
pub open spec fn dce_rounds(code: Seq<CodeView>, n: nat) -> Seq<CodeView>
    decreases n,
{
    if n == 0 {
        code
    } else {
        dce_rounds(dce_step(code), (n - 1) as nat)
    }
}

/// Whether neither sweep changes the body.
pub open spec fn is_clean(code: Seq<CodeView>) -> bool {
    global_swept(code) == code && local_swept(code) == code
}

/// The body once no sweep changes it any more: a round deletes an
/// instruction or changes nothing, so as many rounds as the body has items
/// reach that point.
pub open spec fn dce_body(code: Seq<CodeView>) -> Seq<CodeView> {
    dce_rounds(code, code.len())
}

/// Rounds after rounds are rounds.
pub proof fn lemma_rounds_add(code: Seq<CodeView>, a: nat, b: nat)
    ensures
        dce_rounds(dce_rounds(code, a), b) == dce_rounds(code, a + b),
    decreases a,
{
    if a > 0 {
        lemma_rounds_add(dce_step(code), (a - 1) as nat, b);
    }
}

/// A clean body stays as it is, however many rounds follow.
pub proof fn lemma_rounds_clean(code: Seq<CodeView>, n: nat)
    requires
        is_clean(code),
    ensures
        dce_rounds(code, n) == code,
    decreases n,
{
    if n > 0 {
        lemma_rounds_clean(code, (n - 1) as nat);
    }
}

/// Trivial dead-code elimination: sweeps the function until nothing
/// changes.
pub fn trivial_dce(func: &mut Function)
    ensures
        codes(final(func).instrs@) == dce_body(codes(old(func).instrs@)),
        is_clean(codes(final(func).instrs@)),
        final(func).name == old(func).name,
        final(func).args == old(func).args,
        final(func).return_type == old(func).return_type,
{
    let ghost start = codes(func.instrs@);
    let ghost mut t: nat = 0;
    assert(codes(func.instrs@).len() == func.instrs.len());
    loop
        invariant
            codes(func.instrs@) == dce_rounds(start, t),
            t + func.instrs.len() <= start.len(),
            func.name == old(func).name,
            func.args == old(func).args,
            func.return_type == old(func).return_type,
        ensures
            codes(func.instrs@) == dce_rounds(start, t),
            t + func.instrs.len() <= start.len(),
            is_clean(codes(func.instrs@)),
            func.name == old(func).name,
            func.args == old(func).args,
            func.return_type == old(func).return_type,
        decreases func.instrs.len(),
    {
        let ghost before = codes(func.instrs@);
        let changed = trivial_global_dce_pass(func) || locally_killed_instrs_pass(func);
        if !changed {
            break;
        }
        proof {
            assert(codes(func.instrs@) == dce_step(before));
            lemma_rounds_add(start, t, 1);
            assert(dce_rounds(before, 1) == dce_rounds(dce_step(before), 0));
            t = t + 1;
        }
    }
    proof {
        let cur = codes(func.instrs@);
        lemma_rounds_clean(cur, (start.len() - t) as nat);
        lemma_rounds_add(start, t, (start.len() - t) as nat);
    }
}


/// The items among the first `k` that define no variable: the labels and
/// the effects, in order.
pub open spec fn kept_items(code: Seq<CodeView>, k: nat) -> Seq<CodeView>
    decreases k,
{
    if k == 0 {
        Seq::empty()
    } else {
        let r = kept_items(code, (k - 1) as nat);
        if dest_of(code[k - 1]) is None {
            r.push(code[k - 1])
        } else {
            r
        }
    }
}

/// The labels and effects of a body that ends with an item.
pub proof fn lemma_kept_push(code: Seq<CodeView>, item: CodeView)
    ensures
        kept_items(code.push(item), code.len() + 1) == if dest_of(item) is None {
            kept_items(code, code.len()).push(item)
        } else {
            kept_items(code, code.len())
        },
{
    lemma_kept_prefix(code.push(item), code, code.len());
}

/// The labels and effects among the first items depend on those items
/// alone.
pub proof fn lemma_kept_prefix(a: Seq<CodeView>, b: Seq<CodeView>, k: nat)
    requires
        k <= a.len(),
        k <= b.len(),
        forall|i: int| 0 <= i < k ==> a[i] == b[i],
    ensures
        kept_items(a, k) == kept_items(b, k),
    decreases k,
{
    if k > 0 {
        lemma_kept_prefix(a, b, (k - 1) as nat);
    }
}

/// The labels and effects of two bodies, one after the other.
pub proof fn lemma_kept_concat(a: Seq<CodeView>, b: Seq<CodeView>, k: nat)
    requires
        k <= b.len(),
    ensures
        kept_items(a + b.take(k as int), a.len() + k) == kept_items(a, a.len()) + kept_items(b, k),
    decreases k,
{
    if k == 0 {
        assert(a + b.take(0) =~= a);
        assert(kept_items(a, a.len()) + kept_items(b, 0) =~= kept_items(a, a.len()));
    } else {
        lemma_kept_concat(a, b, (k - 1) as nat);
        let x = a + b.take(k as int);
        let y = a + b.take(k - 1);
        lemma_kept_prefix(x, y, a.len() + (k - 1) as nat);
        assert(x[a.len() + k - 1] == b[k - 1]);
        assert(kept_items(a, a.len()) + kept_items(b, k) =~= if dest_of(b[k - 1]) is None {
            (kept_items(a, a.len()) + kept_items(b, (k - 1) as nat)).push(b[k - 1])
        } else {
            kept_items(a, a.len()) + kept_items(b, (k - 1) as nat)
        });
    }
}

/// The global sweep keeps every label and every effect, in order.
pub proof fn lemma_global_keeps(code: Seq<CodeView>, used: Set<Seq<char>>)
    ensures
        kept_items(without_unused(code, used), without_unused(code, used).len()) == kept_items(
            code,
            code.len(),
        ),
    decreases code.len(),
{
    if code.len() > 0 {
        let front = code.drop_last();
        lemma_global_keeps(front, used);
        assert(code =~= front.push(code.last()));
        lemma_kept_push(front, code.last());
        if !is_unused_def(code.last(), used) {
            lemma_kept_push(without_unused(front, used), code.last());
        }
    }
}

/// The local sweep of a block keeps every label and every effect, in
/// order.
pub proof fn lemma_unkilled_keeps(b: Seq<CodeView>, i: nat)
    requires
        i <= b.len(),
    ensures
        kept_items(unkilled(b, i), unkilled(b, i).len()) == kept_items(b, i),
    decreases i,
{
    if i > 0 {
        lemma_unkilled_keeps(b, (i - 1) as nat);
        if !killed(b, i - 1) {
            lemma_kept_push(unkilled(b, (i - 1) as nat), b[i - 1]);
        }
    }
}

/// The labels and effects of blocks laid end to end are those of the
/// blocks, one after the other.
pub open spec fn kept_of_blocks(blocks: Seq<Seq<CodeView>>, k: nat) -> Seq<CodeView>
    decreases k,
{
    if k == 0 {
        Seq::empty()
    } else {
        kept_of_blocks(blocks, (k - 1) as nat) + kept_items(blocks[k - 1], blocks[k - 1].len())
    }
}

/// The labels and effects of blocks laid end to end are those of the
/// blocks, one after the other.
pub proof fn lemma_kept_flat(blocks: Seq<Seq<CodeView>>, k: nat)
    requires
        k <= blocks.len(),
    ensures
        kept_items(flat(blocks.take(k as int)), flat(blocks.take(k as int)).len())
            == kept_of_blocks(blocks, k),
    decreases k,
{
    if k == 0 {
        assert(blocks.take(0) =~= Seq::<Seq<CodeView>>::empty());
    } else {
        lemma_kept_flat(blocks, (k - 1) as nat);
        let front = flat(blocks.take(k - 1));
        let b = blocks[k - 1];
        assert(blocks.take(k as int).drop_last() =~= blocks.take(k - 1));
        assert(blocks.take(k as int).last() == b);
        lemma_kept_concat(front, b, b.len());
        assert(b.take(b.len() as int) =~= b);
    }
}

/// The local sweep keeps every label and every effect, in order.
pub proof fn lemma_local_keeps(code: Seq<CodeView>)
    ensures
        kept_items(local_swept(code), local_swept(code).len()) == kept_items(code, code.len()),
{
    let all = blocks_of(code);
    let swept = all.map_values(|b: Seq<CodeView>| unkilled(b, b.len()));
    crate::form_blocks::lemma_blocks_partition(code);
    lemma_kept_flat(all, all.len());
    lemma_kept_flat(swept, swept.len());
    assert(all.take(all.len() as int) =~= all);
    assert(swept.take(swept.len() as int) =~= swept);
    lemma_kept_blocks_same(all, swept, all.len());
}

/// Where every block keeps its labels and effects, so do the blocks
/// together.
pub proof fn lemma_kept_blocks_same(all: Seq<Seq<CodeView>>, swept: Seq<Seq<CodeView>>, k: nat)
    requires
        k <= all.len(),
        swept == all.map_values(|b: Seq<CodeView>| unkilled(b, b.len())),
    ensures
        kept_of_blocks(swept, k) == kept_of_blocks(all, k),
    decreases k,
{
    if k > 0 {
        lemma_kept_blocks_same(all, swept, (k - 1) as nat);
        lemma_unkilled_keeps(all[k - 1], all[k - 1].len());
    }
}

/// Elimination deletes definitions only: the labels and the effects of the
/// body all stay, in order.
pub proof fn lemma_dce_keeps_effects(code: Seq<CodeView>, n: nat)
    ensures
        kept_items(dce_rounds(code, n), dce_rounds(code, n).len()) == kept_items(code, code.len()),
    decreases n,
{
    if n > 0 {
        lemma_global_keeps(code, used_args(code));
        lemma_local_keeps(code);
        lemma_dce_keeps_effects(dce_step(code), (n - 1) as nat);
    }
}

} // verus!
