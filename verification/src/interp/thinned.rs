//! Programs with dead definitions left out: a program that lacks
//! definitions whose values nothing reads runs as the program with them
//! does, as long as no collection runs.
use crate::interp::explicit::{default_next, lemma_place_same, runs_well, shown, silent};
use crate::interp::machine::{
    after_block, after_call, after_instr, at_block, bound_inputs, called, literal_value, started,
    stepped, Activation, Input, MachineView, Stepped,
};
use crate::interp::ops::{
    bound_args, bound_count, can_write, effect_step, is_pure, label_place, operand, printed,
    value_step, written, EffectOutcomeView, Store, ValueOutcome,
};
use crate::interp::program::{
    function_index, BBFunction, BBProgram, BasicBlock, EffectOp, Instr, ValueOp,
};
use crate::interp::relocation::{after_steps, asked};
use crate::interp::value::Value;
use crate::ir::{names, Type};
use vstd::prelude::*;

verus! {

/// How a function lacks definitions of another: for every block of that
/// function, which of its instructions are kept; and for every variable of
/// this function, its number in that one.
pub struct Thin {
    pub keep: Seq<Seq<bool>>,
    pub rho: Seq<u32>,
}

/// The number of flags set among the first `i`.
pub open spec fn kept_before(flags: Seq<bool>, i: int) -> int
    decreases i,
{
    if i <= 0 {
        0
    } else {
        kept_before(flags, i - 1) + if flags[i - 1] {
            1int
        } else {
            0int
        }
    }
}

/// Whether block `k` is gone: it has no label, and none of its
/// instructions is kept.
pub open spec fn gone(f: BBFunction, t: Thin, k: int) -> bool {
    f.blocks[k].label is None && kept_before(t.keep[k], t.keep[k].len() as int) == 0
}

/// The number of blocks among the first `k` that are not gone: the place
/// of block `k` among the blocks that are left.
pub open spec fn place(f: BBFunction, t: Thin, k: int) -> int
    decreases k,
{
    if k <= 0 {
        0
    } else {
        place(f, t, k - 1) + if gone(f, t, k - 1) {
            0int
        } else {
            1int
        }
    }
}

/// Whether the instruction reads the variable.
pub open spec fn reads(i: Instr, v: u32) -> bool {
    match i {
        Instr::Constant { .. } => false,
        Instr::Value { args, .. } => args@.contains(v),
        Instr::Effect { args, .. } => args@.contains(v),
    }
}

/// The variable that the instruction writes, if it writes one.
pub open spec fn writes(i: Instr) -> Option<u32> {
    match i {
        Instr::Constant { dest, .. } => Some(dest),
        Instr::Value { dest, .. } => Some(dest),
        Instr::Effect { .. } => None,
    }
}

/// Instruction `i` of block `k` of a function.
pub open spec fn instr_of(f: BBFunction, k: int, i: int) -> Instr {
    f.blocks[k].instrs[i]
}

/// Whether no instruction of the function reads the variable.
pub open spec fn never_read(f: BBFunction, v: u32) -> bool {
    forall|k: int, i: int|
        0 <= k < f.blocks.len() && 0 <= i < f.blocks[k].instrs.len() ==> !reads(
            #[trigger] instr_of(f, k, i),
            v,
        )
}

/// Whether the variable dies at instruction `j`, seen from instruction
/// `from`: that instruction writes it, and no instruction from `from` up to
/// and including that one reads it.
pub open spec fn dies_at(b: BasicBlock, from: int, v: u32, j: int) -> bool {
    &&& from <= j < b.instrs.len()
    &&& writes(b.instrs[j]) == Some(v)
    &&& forall|i: int| from <= i <= j ==> !reads(#[trigger] b.instrs[i], v)
}

/// Whether the variable will die in the block, seen from instruction
/// `from`: it is written again before it is read.
pub open spec fn will_die(b: BasicBlock, from: int, v: u32) -> bool {
    exists|j: int| dies_at(b, from, v, j)
}

/// Whether what the variable holds does not matter at instruction `index`
/// of the block: no instruction of the function reads it, or it will die.
pub open spec fn stale(f: BBFunction, b: BasicBlock, index: int, v: u32) -> bool {
    never_read(f, v) || will_die(b, index, v)
}

/// Whether the instruction is plain: a constant that needs no conversion,
/// or an operation that only computes, copies or reads.
pub open spec fn plain(i: Instr) -> bool {
    match i {
        Instr::Constant { const_type, value, .. } => !(const_type == Type::Float && value
            is Int),
        Instr::Value { op, .. } => is_pure(op) || op == ValueOp::Phi || op == ValueOp::Load,
        Instr::Effect { .. } => false,
    }
}

/// Whether the numbers `ys` are the numbers `xs` in the numbering of the
/// function that lacks definitions.
pub open spec fn nums_thin(xs: Seq<u32>, ys: Seq<u32>, rho: Seq<u32>) -> bool {
    ys.len() == xs.len() && forall|i: int|
        0 <= i < ys.len() ==> (#[trigger] ys[i]) < rho.len() && rho[ys[i] as int] == xs[i]
}

/// Whether the instruction `y` is the instruction `x` in the numbering of
/// the function that lacks definitions.
pub open spec fn thin_instr(x: Instr, y: Instr, rho: Seq<u32>) -> bool {
    match (x, y) {
        (
            Instr::Constant { dest, const_type, value, pos },
            Instr::Constant { dest: d, const_type: t, value: v, pos: q },
        ) => d < rho.len() && rho[d as int] == dest && const_type == t && value == v && pos == q,
        (
            Instr::Value { op, dest, args, labels, funcs, pos },
            Instr::Value { op: o, dest: d, args: a, labels: l, funcs: f, pos: q },
        ) => op == o && d < rho.len() && rho[d as int] == dest && nums_thin(args@, a@, rho)
            && names(labels@) == names(l@) && names(funcs@) == names(f@) && pos == q,
        (
            Instr::Effect { op, args, funcs, pos },
            Instr::Effect { op: o, args: a, funcs: f, pos: q },
        ) => op == o && nums_thin(args@, a@, rho) && names(funcs@) == names(f@) && pos == q,
        _ => false,
    }
}

/// Whether the exits `ys` are the exits `xs` among the blocks that are
/// left: none of them is gone, and each has its place.
pub open spec fn exits_thin(f: BBFunction, t: Thin, xs: Seq<usize>, ys: Seq<usize>) -> bool {
    ys.len() == xs.len() && forall|i: int|
        0 <= i < xs.len() ==> (#[trigger] xs[i]) < f.blocks.len() && !gone(f, t, xs[i] as int)
            && ys[i] == place(f, t, xs[i] as int)
}

/// Whether the labels are the same: both are there, and the same, or
/// neither is.
pub open spec fn labels_same(x: Option<String>, y: Option<String>) -> bool {
    match (x, y) {
        (Some(l), Some(m)) => l@ == m@,
        (None, None) => true,
        _ => false,
    }
}

/// Whether the block `y` is block `k` of the function `f` without the
/// instructions that are not kept: the same label, the kept instructions in
/// order, and the same exits among the blocks that are left.
pub open spec fn block_thin(f: BBFunction, t: Thin, k: int, y: BasicBlock) -> bool {
    let x = f.blocks[k];
    &&& labels_same(x.label, y.label)
    &&& y.instrs.len() == kept_before(t.keep[k], x.instrs.len() as int)
    &&& forall|i: int|
        0 <= i < x.instrs.len() && t.keep[k][i] ==> thin_instr(
            #[trigger] x.instrs[i],
            y.instrs[kept_before(t.keep[k], i)],
            t.rho,
        )
    &&& exits_thin(f, t, x.exit@, y.exit@)
}

/// Whether an instruction that is not kept may be left out: it is plain,
/// and what it writes does not matter after it.
pub open spec fn may_go(f: BBFunction, k: int, i: int) -> bool {
    let x = f.blocks[k].instrs[i];
    &&& plain(x)
    &&& writes(x) is Some
    &&& stale(f, f.blocks[k], i + 1, writes(x)->0)
}

/// Whether the function `g` is the function `f` without definitions whose
/// values do not matter.
///
/// The two have the same name, return type and parameter types, and the
/// same parameters in the numbering of `g`; every variable of `g` is a
/// variable of `f`, and no two are the same. The blocks of `g` are the
/// blocks of `f` that are not gone, in order, each without the
/// instructions that are not kept; every instruction that is not kept may
/// be left out. If the first block is gone, the next is not, and the first
/// runs on into it. Some block is left if `f` has one.
pub open spec fn function_thin(f: BBFunction, g: BBFunction, t: Thin) -> bool {
    let n = f.blocks.len() as int;
    &&& g.name@ == f.name@
    &&& g.return_type == f.return_type
    &&& g.args.len() == f.args.len()
    &&& forall|i: int|
        0 <= i < f.args.len() ==> (#[trigger] g.args[i]).arg_type == f.args[i].arg_type
    &&& nums_thin(f.args_as_nums@, g.args_as_nums@, t.rho)
    &&& t.rho.len() == g.num_of_vars
    &&& forall|y: int| 0 <= y < t.rho.len() ==> (#[trigger] t.rho[y]) < f.num_of_vars
    &&& forall|y: int, z: int|
        0 <= y < t.rho.len() && 0 <= z < t.rho.len() && y != z ==> #[trigger] t.rho[y]
            != #[trigger] t.rho[z]
    &&& t.keep.len() == n
    &&& forall|k: int| 0 <= k < n ==> (#[trigger] t.keep[k]).len() == f.blocks[k].instrs.len()
    &&& g.blocks.len() == place(f, t, n)
    &&& n > 0 ==> g.blocks.len() > 0
    &&& n > 0 && gone(f, t, 0) ==> n > 1 && !gone(f, t, 1) && f.blocks[0].exit@ == seq![1usize]
    &&& forall|k: int|
        0 <= k < n && !gone(f, t, k) ==> block_thin(f, t, k, #[trigger] g.blocks[place(f, t, k)])
    &&& forall|k: int, i: int|
        0 <= k < n && 0 <= i < f.blocks[k].instrs.len() && !t.keep[k][i] ==> #[trigger] may_go(
            f,
            k,
            i,
        )
}

/// Whether the program `q` is the program `p` without definitions whose
/// values do not matter, function by function.
pub open spec fn program_thin(p: BBProgram, q: BBProgram, ts: Seq<Thin>) -> bool {
    &&& q.functions.len() == p.functions.len()
    &&& ts.len() == p.functions.len()
    &&& forall|i: int|
        0 <= i < p.functions.len() ==> function_thin(
            #[trigger] p.functions[i],
            q.functions[i],
            ts[i],
        )
}

/// The place of a block is below the number of the blocks that are left,
/// and grows with the block.
pub proof fn lemma_place(f: BBFunction, t: Thin, k: int, n: int)
    requires
        0 <= k <= n,
    ensures
        0 <= place(f, t, k) <= place(f, t, n),
        place(f, t, k) <= k,
        k < n && !gone(f, t, k) ==> place(f, t, k) < place(f, t, n),
    decreases n,
{
    if k < n {
        lemma_place(f, t, k, n - 1);
    }
    if k > 0 {
        lemma_place(f, t, k - 1, k - 1);
        lemma_place(f, t, 0, k - 1);
    }
}

/// The number of kept instructions before an instruction is below the
/// number of all that are kept, and grows with the instruction.
pub proof fn lemma_kept_before(flags: Seq<bool>, i: int, n: int)
    requires
        0 <= i <= n,
    ensures
        0 <= kept_before(flags, i) <= kept_before(flags, n),
        kept_before(flags, i) <= i,
        i < n && flags[i] ==> kept_before(flags, i) < kept_before(flags, n),
    decreases n,
{
    if i < n {
        lemma_kept_before(flags, i, n - 1);
    }
    if i > 0 {
        lemma_kept_before(flags, i - 1, i - 1);
        lemma_kept_before(flags, 0, i - 1);
    }
}

/// Whether the variables of a running function of the second program hold
/// what the variables of the first hold, but for those whose values do not
/// matter at the instruction `index` of the block `b`.
pub open spec fn scope_thin(
    ps: Seq<Value>,
    qs: Seq<Value>,
    f: BBFunction,
    g: BBFunction,
    t: Thin,
    b: BasicBlock,
    index: int,
) -> bool {
    &&& ps.len() == f.num_of_vars
    &&& qs.len() == g.num_of_vars
    &&& forall|y: int|
        0 <= y < qs.len() ==> #[trigger] qs[y] == ps[t.rho[y] as int] || stale(
            f,
            b,
            index,
            t.rho[y],
        )
}

/// What the variables hold matters no less later in the block: variables
/// that agree but for those whose values do not matter at an instruction
/// agree likewise at the next, when the instruction wrote none of them in
/// one program alone.
pub proof fn lemma_scope_next(
    ps: Seq<Value>,
    qs: Seq<Value>,
    f: BBFunction,
    g: BBFunction,
    t: Thin,
    b: BasicBlock,
    index: int,
    ps2: Seq<Value>,
    qs2: Seq<Value>,
)
    requires
        scope_thin(ps, qs, f, g, t, b, index),
        0 <= index < b.instrs.len(),
        ps2.len() == ps.len(),
        qs2.len() == qs.len(),
        forall|y: int|
            0 <= y < qs.len() ==> {
                ||| #[trigger] qs2[y] == ps2[t.rho[y] as int]
                ||| (qs2[y] == qs[y] && ps2[t.rho[y] as int] == ps[t.rho[y] as int] && writes(
                    b.instrs[index],
                ) != Some(t.rho[y]))
                ||| stale(f, b, index + 1, t.rho[y])
            },
    ensures
        scope_thin(ps2, qs2, f, g, t, b, index + 1),
{
    assert forall|y: int| 0 <= y < qs2.len() implies #[trigger] qs2[y] == ps2[t.rho[y] as int]
        || stale(f, b, index + 1, t.rho[y]) by {
        let v = t.rho[y];
        if qs2[y] != ps2[v as int] && !stale(f, b, index + 1, v) {
            assert(qs[y] == ps[v as int] || stale(f, b, index, v));
            if qs[y] != ps[v as int] {
                assert(will_die(b, index, v));
                let j = choose|j: int| dies_at(b, index, v, j);
                assert(j > index);
                assert(dies_at(b, index + 1, v, j));
            }
        }
    }
}

/// At the start of a block, variables agree but for those whose values do
/// not matter, if they did so at the end of the block before.
pub proof fn lemma_scope_fresh(
    ps: Seq<Value>,
    qs: Seq<Value>,
    f: BBFunction,
    g: BBFunction,
    t: Thin,
    b: BasicBlock,
    index: int,
    c: BasicBlock,
    at: int,
)
    requires
        scope_thin(ps, qs, f, g, t, b, index),
        index >= b.instrs.len(),
    ensures
        scope_thin(ps, qs, f, g, t, c, at),
{
    assert forall|y: int| 0 <= y < qs.len() implies #[trigger] qs[y] == ps[t.rho[y] as int]
        || stale(f, c, at, t.rho[y]) by {
        let v = t.rho[y];
        if qs[y] != ps[v as int] {
            assert(stale(f, b, index, v));
            if will_die(b, index, v) {
                let j = choose|j: int| dies_at(b, index, v, j);
            }
        }
    }
}

/// A variable that an instruction reads holds the same in both programs.
pub proof fn lemma_read_same(
    ps: Seq<Value>,
    qs: Seq<Value>,
    f: BBFunction,
    g: BBFunction,
    t: Thin,
    k: int,
    index: int,
    y: int,
)
    requires
        scope_thin(ps, qs, f, g, t, f.blocks[k], index),
        0 <= k < f.blocks.len(),
        0 <= index < f.blocks[k].instrs.len(),
        0 <= y < qs.len(),
        reads(f.blocks[k].instrs[index], t.rho[y]),
    ensures
        qs[y] == ps[t.rho[y] as int],
{
    let v = t.rho[y];
    let b = f.blocks[k];
    assert(reads(instr_of(f, k, index), v));
    if will_die(b, index, v) {
        let j = choose|j: int| dies_at(b, index, v, j);
        assert(!reads(b.instrs[index], v));
    }
}


/// A name finds the same function in both programs.
pub proof fn lemma_index_thin(p: BBProgram, q: BBProgram, ts: Seq<Thin>, name: Seq<char>, k: nat)
    requires
        program_thin(p, q, ts),
        k <= p.functions.len(),
    ensures
        function_index(q.functions@, name, k) == function_index(p.functions@, name, k),
        match function_index(p.functions@, name, k) {
            Some(c) => c < k,
            None => true,
        },
    decreases k,
{
    if k > 0 {
        lemma_index_thin(p, q, ts, name, (k - 1) as nat);
        assert(function_thin(p.functions[k - 1], q.functions[k - 1], ts[k - 1]));
    }
}

/// Whether the variables of a callee of the second program hold what the
/// variables of the callee of the first hold.
pub open spec fn scope_exact(ps: Seq<Value>, qs: Seq<Value>, f: BBFunction, g: BBFunction, t: Thin) -> bool {
    &&& ps.len() == f.num_of_vars
    &&& qs.len() == g.num_of_vars
    &&& forall|y: int| 0 <= y < qs.len() ==> #[trigger] qs[y] == ps[t.rho[y] as int]
}

/// The arguments of a call are bound alike in both programs, where the
/// callers hold the same in the variables that the call reads.
pub proof fn lemma_bound_thin(
    f: BBFunction,
    g: BBFunction,
    t: Thin,
    xa: Seq<u32>,
    ya: Seq<u32>,
    pc: Seq<Value>,
    qc: Seq<Value>,
    k: nat,
)
    requires
        function_thin(f, g, t),
        ya.len() == xa.len(),
        k <= xa.len(),
        k <= f.args_as_nums.len(),
        forall|i: int|
            0 <= i < xa.len() ==> (#[trigger] ya[i]) < qc.len() && xa[i] < pc.len() && qc[ya[i] as int]
                == pc[xa[i] as int],
        bound_args(f, xa, pc, k) is Some,
    ensures
        bound_args(g, ya, qc, k) is Some,
        scope_exact(bound_args(f, xa, pc, k)->0, bound_args(g, ya, qc, k)->0, f, g, t),
    decreases k,
{
    if k > 0 {
        lemma_bound_thin(f, g, t, xa, ya, pc, qc, (k - 1) as nat);
        let bp = bound_args(f, xa, pc, (k - 1) as nat)->0;
        let bq = bound_args(g, ya, qc, (k - 1) as nat)->0;
        let np = bound_args(f, xa, pc, k)->0;
        let nq = bound_args(g, ya, qc, k)->0;
        let gy = g.args_as_nums@[k - 1];
        assert(gy < t.rho.len() && t.rho[gy as int] == f.args_as_nums@[k - 1]);
        assert(ya[k - 1] < qc.len());
        assert forall|y: int| 0 <= y < nq.len() implies #[trigger] nq[y] == np[t.rho[y] as int] by {
            assert(bq[y] == bp[t.rho[y] as int]);
            if y != gy {
                assert(t.rho[y] != t.rho[gy as int]);
            }
        }
    }
}

/// Whether the instruction reads every one of the variables.
pub open spec fn reads_all(i: Instr, xs: Seq<u32>) -> bool {
    forall|j: int| 0 <= j < xs.len() ==> reads(i, #[trigger] xs[j])
}

/// The variables that a kept instruction reads hold the same in both
/// programs, position by position.
pub proof fn lemma_args_same(
    ps: Seq<Value>,
    qs: Seq<Value>,
    f: BBFunction,
    g: BBFunction,
    t: Thin,
    k: int,
    index: int,
    xa: Seq<u32>,
    ya: Seq<u32>,
)
    requires
        function_thin(f, g, t),
        scope_thin(ps, qs, f, g, t, f.blocks[k], index),
        0 <= k < f.blocks.len(),
        0 <= index < f.blocks[k].instrs.len(),
        nums_thin(xa, ya, t.rho),
        reads_all(f.blocks[k].instrs[index], xa),
    ensures
        forall|i: int|
            0 <= i < xa.len() ==> (#[trigger] ya[i]) < qs.len() && xa[i] < ps.len() && qs[ya[i] as int]
                == ps[xa[i] as int],
{
    assert forall|i: int| 0 <= i < xa.len() implies (#[trigger] ya[i]) < qs.len() && xa[i]
        < ps.len() && qs[ya[i] as int] == ps[xa[i] as int] by {
        assert(ya[i] < t.rho.len() && t.rho[ya[i] as int] == xa[i]);
        assert(t.rho[ya[i] as int] < f.num_of_vars);
        assert(reads(f.blocks[k].instrs[index], xa[i]));
        lemma_read_same(ps, qs, f, g, t, k, index, ya[i] as int);
    }
}

/// Whether the same variable is written in one scope and in the other,
/// with the same value.
pub open spec fn both_written(
    pa: Seq<Seq<Value>>,
    pb: Seq<Seq<Value>>,
    qa: Seq<Seq<Value>>,
    qb: Seq<Seq<Value>>,
    d: u32,
    e: u32,
) -> bool {
    exists|v: Value| pb == written(pa, d, v) && qb == written(qa, e, v)
}

/// The values to print are the same in both programs.
pub proof fn lemma_printed_thin(
    pa: Seq<Seq<Value>>,
    qa: Seq<Seq<Value>>,
    xa: Seq<u32>,
    ya: Seq<u32>,
    k: nat,
)
    requires
        pa.len() > 0,
        qa.len() > 0,
        ya.len() == xa.len(),
        k <= xa.len(),
        forall|i: int|
            0 <= i < xa.len() ==> (#[trigger] ya[i]) < qa.last().len() && xa[i] < pa.last().len()
                && qa.last()[ya[i] as int] == pa.last()[xa[i] as int],
    ensures
        printed(qa, ya, k) == printed(pa, xa, k),
    decreases k,
{
    if k > 0 {
        lemma_printed_thin(pa, qa, xa, ya, (k - 1) as nat);
        assert(ya[k - 1] < qa.last().len());
    }
}

/// An operand is the same in both programs.
pub proof fn lemma_operand_thin(
    pa: Seq<Seq<Value>>,
    qa: Seq<Seq<Value>>,
    xa: Seq<u32>,
    ya: Seq<u32>,
    i: int,
)
    requires
        pa.len() > 0,
        qa.len() > 0,
        ya.len() == xa.len(),
        forall|i: int|
            0 <= i < xa.len() ==> (#[trigger] ya[i]) < qa.last().len() && xa[i] < pa.last().len()
                && qa.last()[ya[i] as int] == pa.last()[xa[i] as int],
    ensures
        operand(qa, ya, i) == operand(pa, xa, i),
{
    if 0 <= i < xa.len() {
        assert(ya[i] < qa.last().len());
    }
}

/// A kept operation with a destination that ends well in the first
/// program, without a collection, ends in the same way in the second, with
/// the same heap; and what it writes, it writes with the same value.
pub proof fn lemma_value_thin(
    p: BBProgram,
    q: BBProgram,
    ts: Seq<Thin>,
    op: ValueOp,
    d: u32,
    e: u32,
    xa: Seq<u32>,
    ya: Seq<u32>,
    la: Seq<String>,
    lb: Seq<String>,
    fa: Seq<String>,
    fb: Seq<String>,
    ps: Store,
    qs: Store,
    xl: Option<String>,
    yl: Option<String>,
)
    requires
        program_thin(p, q, ts),
        names(la) == names(lb),
        names(fa) == names(fb),
        labels_same(xl, yl),
        qs.heap == ps.heap,
        ps.scopes.len() > 0,
        qs.scopes.len() > 0,
        ya.len() == xa.len(),
        forall|i: int|
            0 <= i < xa.len() ==> (#[trigger] ya[i]) < qs.scopes.last().len() && xa[i]
                < ps.scopes.last().len() && qs.scopes.last()[ya[i] as int]
                == ps.scopes.last()[xa[i] as int],
        e < qs.scopes.last().len(),
        value_step(p, op, d, xa, la, fa, ps, xl).result is Ok,
        op == ValueOp::Alloc ==> match operand(ps.scopes, xa, 0) {
            Some(Value::Int(n)) => !ps.heap.gc_due(n),
            _ => true,
        },
    ensures
        value_step(q, op, e, ya, lb, fb, qs, yl).result == value_step(
            p,
            op,
            d,
            xa,
            la,
            fa,
            ps,
            xl,
        ).result,
        value_step(q, op, e, ya, lb, fb, qs, yl).store.heap == value_step(
            p,
            op,
            d,
            xa,
            la,
            fa,
            ps,
            xl,
        ).store.heap,
        match value_step(p, op, d, xa, la, fa, ps, xl).result {
            Ok(ValueOutcome::Call(c)) => {
                &&& c < p.functions.len()
                &&& value_step(p, op, d, xa, la, fa, ps, xl).store.scopes.len() == ps.scopes.len()
                    + 1
                &&& value_step(p, op, d, xa, la, fa, ps, xl).store.scopes.drop_last() == ps.scopes
                &&& value_step(q, op, e, ya, lb, fb, qs, yl).store.scopes.len() == qs.scopes.len()
                    + 1
                &&& value_step(q, op, e, ya, lb, fb, qs, yl).store.scopes.drop_last() == qs.scopes
                &&& scope_exact(
                    value_step(p, op, d, xa, la, fa, ps, xl).store.scopes.last(),
                    value_step(q, op, e, ya, lb, fb, qs, yl).store.scopes.last(),
                    p.functions[c as int],
                    q.functions[c as int],
                    ts[c as int],
                )
            },
            Ok(ValueOutcome::Done) => both_written(
                ps.scopes,
                value_step(p, op, d, xa, la, fa, ps, xl).store.scopes,
                qs.scopes,
                value_step(q, op, e, ya, lb, fb, qs, yl).store.scopes,
                d,
                e,
            ),
            _ => value_step(p, op, d, xa, la, fa, ps, xl).store.scopes == ps.scopes && value_step(
                q,
                op,
                e,
                ya,
                lb,
                fb,
                qs,
                yl,
            ).store.scopes == qs.scopes,
        },
        op != ValueOp::Alloc && op != ValueOp::Call ==> value_step(
            p,
            op,
            d,
            xa,
            la,
            fa,
            ps,
            xl,
        ).store.heap == ps.heap,
{
    let va = value_step(p, op, d, xa, la, fa, ps, xl);
    let vb = value_step(q, op, e, ya, lb, fb, qs, yl);
    assert(la.len() == names(la).len());
    assert(lb.len() == names(lb).len());
    assert(fa.len() == names(fa).len());
    assert(fb.len() == names(fb).len());
    lemma_operand_thin(ps.scopes, qs.scopes, xa, ya, 0);
    lemma_operand_thin(ps.scopes, qs.scopes, xa, ya, 1);
    if op == ValueOp::Call {
        if fa.len() > 0 {
            assert(names(fa)[0] == fa[0]@);
            assert(names(fb)[0] == fb[0]@);
            lemma_index_thin(p, q, ts, fa[0]@, p.functions.len() as nat);
            match p.index_of(fa[0]@) {
                Some(c) => {
                    let f = p.functions[c as int];
                    let g = q.functions[c as int];
                    assert(function_thin(f, g, ts[c as int]));
                    let count = bound_count(f, xa);
                    assert(bound_count(g, ya) == count);
                    lemma_bound_thin(
                        f,
                        g,
                        ts[c as int],
                        xa,
                        ya,
                        ps.scopes.last(),
                        qs.scopes.last(),
                        count,
                    );
                    let np = bound_args(f, xa, ps.scopes.last(), count)->0;
                    let nq = bound_args(g, ya, qs.scopes.last(), count)->0;
                    assert(va.store.scopes == ps.scopes.push(np));
                    assert(vb.store.scopes == qs.scopes.push(nq));
                    assert(va.store.scopes.drop_last() =~= ps.scopes);
                    assert(vb.store.scopes.drop_last() =~= qs.scopes);
                },
                None => {},
            }
        }
    } else if op == ValueOp::Phi {
        match xl {
            Some(last) => {
                lemma_place_same(la, lb, last@, la.len());
                match label_place(la, last@, la.len()) {
                    Some(i) => {
                        lemma_operand_thin(ps.scopes, qs.scopes, xa, ya, i);
                        let v = operand(ps.scopes, xa, i)->0;
                        assert(va.store.scopes == written(ps.scopes, d, v));
                        assert(vb.store.scopes == written(qs.scopes, e, v));
                    },
                    None => {},
                }
            },
            None => {},
        }
    } else if is_pure(op) {
        let v = crate::interp::ops::computed(op, operand(ps.scopes, xa, 0), operand(ps.scopes, xa, 1))->Ok_0;
        assert(va.store.scopes == written(ps.scopes, d, v));
        assert(vb.store.scopes == written(qs.scopes, e, v));
    } else if crate::interp::ops::is_float(op) {
    } else if op == ValueOp::Alloc {
        match operand(ps.scopes, xa, 0) {
            Some(Value::Int(n)) => {
                let v = Value::Pointer(
                    crate::interp::value::Pointer { base: ps.heap.base_ptr, offset: 0 },
                );
                assert(va.store.scopes == written(ps.scopes, d, v));
                assert(vb.store.scopes == written(qs.scopes, e, v));
            },
            _ => {},
        }
    } else {
        match operand(ps.scopes, xa, 0) {
            Some(Value::Pointer(ptr)) => {
                let cell = crate::interp::heap::Heap::cell_of(ptr)->0;
                let v = ps.heap.memory[cell];
                assert(va.store.scopes == written(ps.scopes, d, v));
                assert(vb.store.scopes == written(qs.scopes, e, v));
            },
            _ => {},
        }
    }
}


/// Whether the second block to run next is the first among the blocks that
/// are left.
pub open spec fn next_thin(f: BBFunction, t: Thin, x: Option<usize>, y: Option<usize>) -> bool {
    match x {
        Some(e) => e < f.blocks.len() && !gone(f, t, e as int) && y is Some && y->0 == place(
            f,
            t,
            e as int,
        ),
        None => y is None,
    }
}

/// A kept operation without a destination that ends well in the first
/// program ends in the same way in the second, with the same heap and with
/// the block to run next among the blocks that are left.
pub proof fn lemma_effect_thin(
    p: BBProgram,
    q: BBProgram,
    ts: Seq<Thin>,
    f: BBFunction,
    g: BBFunction,
    t: Thin,
    op: EffectOp,
    xa: Seq<u32>,
    ya: Seq<u32>,
    fa: Seq<String>,
    fb: Seq<String>,
    xe: Seq<usize>,
    ye: Seq<usize>,
    ps: Store,
    qs: Store,
    xn: Option<usize>,
    yn: Option<usize>,
)
    requires
        program_thin(p, q, ts),
        function_thin(f, g, t),
        names(fa) == names(fb),
        exits_thin(f, t, xe, ye),
        next_thin(f, t, xn, yn),
        qs.heap == ps.heap,
        ps.scopes.len() > 0,
        qs.scopes.len() > 0,
        ya.len() == xa.len(),
        forall|i: int|
            0 <= i < xa.len() ==> (#[trigger] ya[i]) < qs.scopes.last().len() && xa[i]
                < ps.scopes.last().len() && qs.scopes.last()[ya[i] as int]
                == ps.scopes.last()[xa[i] as int],
        effect_step(p, f, op, xa, fa, xe, ps, xn).result is Ok,
    ensures
        effect_step(q, g, op, ya, fb, ye, qs, yn).result == effect_step(
            p,
            f,
            op,
            xa,
            fa,
            xe,
            ps,
            xn,
        ).result,
        effect_step(q, g, op, ya, fb, ye, qs, yn).store.heap == effect_step(
            p,
            f,
            op,
            xa,
            fa,
            xe,
            ps,
            xn,
        ).store.heap,
        next_thin(
            f,
            t,
            effect_step(p, f, op, xa, fa, xe, ps, xn).next_block,
            effect_step(q, g, op, ya, fb, ye, qs, yn).next_block,
        ),
        match effect_step(p, f, op, xa, fa, xe, ps, xn).result {
            Ok(EffectOutcomeView::Call(c)) => {
                &&& c < p.functions.len()
                &&& effect_step(p, f, op, xa, fa, xe, ps, xn).store.scopes.len() == ps.scopes.len()
                    + 1
                &&& effect_step(p, f, op, xa, fa, xe, ps, xn).store.scopes.drop_last() == ps.scopes
                &&& effect_step(q, g, op, ya, fb, ye, qs, yn).store.scopes.len() == qs.scopes.len()
                    + 1
                &&& effect_step(q, g, op, ya, fb, ye, qs, yn).store.scopes.drop_last() == qs.scopes
                &&& scope_exact(
                    effect_step(p, f, op, xa, fa, xe, ps, xn).store.scopes.last(),
                    effect_step(q, g, op, ya, fb, ye, qs, yn).store.scopes.last(),
                    p.functions[c as int],
                    q.functions[c as int],
                    ts[c as int],
                )
            },
            _ => effect_step(p, f, op, xa, fa, xe, ps, xn).store.scopes == ps.scopes && effect_step(
                q,
                g,
                op,
                ya,
                fb,
                ye,
                qs,
                yn,
            ).store.scopes == qs.scopes,
        },
{
    let ea = effect_step(p, f, op, xa, fa, xe, ps, xn);
    let eb = effect_step(q, g, op, ya, fb, ye, qs, yn);
    assert(fa.len() == names(fa).len());
    assert(fb.len() == names(fb).len());
    lemma_operand_thin(ps.scopes, qs.scopes, xa, ya, 0);
    lemma_operand_thin(ps.scopes, qs.scopes, xa, ya, 1);
    match op {
        EffectOp::Call => {
            if fa.len() > 0 {
                assert(names(fa)[0] == fa[0]@);
                assert(names(fb)[0] == fb[0]@);
                lemma_index_thin(p, q, ts, fa[0]@, p.functions.len() as nat);
                match p.index_of(fa[0]@) {
                    Some(c) => {
                        let cf = p.functions[c as int];
                        let cg = q.functions[c as int];
                        assert(function_thin(cf, cg, ts[c as int]));
                        let count = bound_count(cf, xa);
                        assert(bound_count(cg, ya) == count);
                        lemma_bound_thin(
                            cf,
                            cg,
                            ts[c as int],
                            xa,
                            ya,
                            ps.scopes.last(),
                            qs.scopes.last(),
                            count,
                        );
                        let np = bound_args(cf, xa, ps.scopes.last(), count)->0;
                        let nq = bound_args(cg, ya, qs.scopes.last(), count)->0;
                        assert(ea.store.scopes == ps.scopes.push(np));
                        assert(eb.store.scopes == qs.scopes.push(nq));
                        assert(ea.store.scopes.drop_last() =~= ps.scopes);
                        assert(eb.store.scopes.drop_last() =~= qs.scopes);
                    },
                    None => {},
                }
            }
        },
        EffectOp::Print => {
            lemma_printed_thin(ps.scopes, qs.scopes, xa, ya, xa.len());
        },
        EffectOp::Jump => {
            assert(xe[0] < f.blocks.len());
        },
        EffectOp::Branch => {
            if xe.len() > 0 {
                assert(xe[0] < f.blocks.len());
            }
            if xe.len() > 1 {
                assert(xe[1] < f.blocks.len());
            }
        },
        _ => {},
    }
}

/// Whether the second place to write is the first in the numbering of the
/// function that lacks definitions.
pub open spec fn dest_thin(x: Option<u32>, y: Option<u32>, rho: Seq<u32>) -> bool {
    match x {
        Some(d) => y is Some && y->0 < rho.len() && rho[y->0 as int] == d,
        None => y is None,
    }
}

/// Whether a running function of the first program and one of the second
/// are at the same place: in the same function; in a block and in its place
/// among the blocks that are left, at an instruction and at the kept
/// instruction that is the next from there on; or, in a first block that is
/// gone, with the second at the start of the block that is then the first.
pub open spec fn act_thin(x: Activation, y: Activation, p: BBProgram, q: BBProgram, ts: Seq<Thin>) -> bool {
    let f = p.functions[x.func as int];
    let g = q.functions[x.func as int];
    let t = ts[x.func as int];
    &&& x.func < p.functions.len()
    &&& x.block < f.blocks.len()
    &&& x.index <= f.blocks[x.block as int].instrs.len()
    &&& y.func == x.func
    &&& y.result == x.result
    &&& if gone(f, t, x.block as int) {
        &&& x.block == 0
        &&& y.block == 0
        &&& y.index == 0
        &&& x.last_label is None
        &&& x.current_label is None
        &&& y.last_label is None
        &&& y.current_label == g.blocks[0].label
        &&& y.next_block == default_next(g.blocks[0])
        &&& x.next_block == Some(1usize)
        &&& x.result is None
    } else {
        &&& y.block == place(f, t, x.block as int)
        &&& y.index == kept_before(t.keep[x.block as int], x.index as int)
        &&& labels_same(x.last_label, y.last_label)
        &&& labels_same(x.current_label, y.current_label)
        &&& next_thin(f, t, x.next_block, y.next_block)
    }
}

/// Whether running function `i` of two runs is at the same place, with
/// variables that agree but for those whose values do not matter. For the
/// function that runs, they agree at its next instruction; for one that
/// waits for a callee, at the call, which writes what the callee returns.
pub open spec fn frame_thin(
    a: MachineView,
    b: MachineView,
    p: BBProgram,
    q: BBProgram,
    ts: Seq<Thin>,
    i: int,
) -> bool {
    let x = a.stack[i];
    let y = b.stack[i];
    let f = p.functions[x.func as int];
    let g = q.functions[x.func as int];
    let t = ts[x.func as int];
    let blk = f.blocks[x.block as int];
    &&& act_thin(x, y, p, q, ts)
    &&& if i == a.stack.len() - 1 {
        scope_thin(a.store.scopes[i], b.store.scopes[i], f, g, t, blk, x.index as int)
    } else {
        &&& x.index >= 1
        &&& scope_thin(a.store.scopes[i], b.store.scopes[i], f, g, t, blk, x.index - 1)
        &&& a.stack[i + 1].dest == writes(blk.instrs[x.index - 1])
        &&& dest_thin(a.stack[i + 1].dest, b.stack[i + 1].dest, t.rho)
    }
}

/// Whether two runs are at the same place: with the same heap, with
/// running functions at the same places, and with variables that agree but
/// for those whose values do not matter.
pub open spec fn runs_thin(a: MachineView, b: MachineView, p: BBProgram, q: BBProgram, ts: Seq<Thin>) -> bool {
    &&& b.store.heap == a.store.heap
    &&& b.stack.len() == a.stack.len()
    &&& a.stack.len() > 0 ==> a.store.scopes.len() == a.stack.len() && b.store.scopes.len()
        == a.stack.len()
    &&& forall|i: int| 0 <= i < a.stack.len() ==> #[trigger] frame_thin(a, b, p, q, ts, i)
    &&& a.awaited is None
    &&& b.awaited is None
}


/// Whether the next step of a run is no allocation for which a collection
/// is due.
pub open spec fn no_collection(a: MachineView, p: BBProgram) -> bool {
    a.stack.len() > 0 && a.stack.last().func < p.functions.len() && a.stack.last().block
        < p.functions[a.stack.last().func as int].blocks.len() && a.stack.last().index
        < p.functions[a.stack.last().func as int].blocks[a.stack.last().block as int].instrs.len()
        ==> match p.functions[a.stack.last().func as int].blocks[a.stack.last().block as int].instrs[a.stack.last().index as int] {
        Instr::Value { op, args, .. } => op == ValueOp::Alloc ==> match operand(
            a.store.scopes,
            args@,
            0,
        ) {
            Some(Value::Int(n)) => !a.store.heap.gc_due(n),
            _ => true,
        },
        _ => true,
    }
}

/// After a call the runs are at the same place: the callers wait at the
/// call, and the callees are at their start.
pub proof fn lemma_call_thin(
    a: MachineView,
    b: MachineView,
    a1: MachineView,
    b1: MachineView,
    p: BBProgram,
    q: BBProgram,
    ts: Seq<Thin>,
    c: usize,
    d: Option<u32>,
    e: Option<u32>,
    pos: Option<crate::interp::program::Position>,
)
    requires
        program_thin(p, q, ts),
        runs_thin(a, b, p, q, ts),
        a.stack.len() > 0,
        a.stack.last().index < p.functions[a.stack.last().func as int].blocks[a.stack.last().block as int].instrs.len(),
        c < p.functions.len(),
        a1.stack.len() == a.stack.len(),
        forall|i: int| 0 <= i < a.stack.len() - 1 ==> a1.stack[i] == a.stack[i],
        a1.stack.last().func == a.stack.last().func,
        a1.stack.last().block == a.stack.last().block,
        a1.stack.last().index == a.stack.last().index + 1,
        a1.stack.last().dest == a.stack.last().dest,
        b1.stack.len() == a.stack.len(),
        forall|i: int| 0 <= i < a.stack.len() - 1 ==> b1.stack[i] == b.stack[i],
        act_thin(a1.stack.last(), b1.stack.last(), p, q, ts),
        b1.stack.last().dest == b.stack.last().dest,
        a1.awaited is None,
        b1.awaited is None,
        a1.count == a.count,
        a1.store.heap == b1.store.heap,
        a1.store.scopes.len() == a.store.scopes.len() + 1,
        a1.store.scopes.drop_last() == a.store.scopes,
        b1.store.scopes.len() == b.store.scopes.len() + 1,
        b1.store.scopes.drop_last() == b.store.scopes,
        scope_exact(
            a1.store.scopes.last(),
            b1.store.scopes.last(),
            p.functions[c as int],
            q.functions[c as int],
            ts[c as int],
        ),
        d == writes(
            p.functions[a.stack.last().func as int].blocks[a.stack.last().block as int].instrs[a.stack.last().index as int],
        ),
        dest_thin(d, e, ts[a.stack.last().func as int].rho),
        after_call(a1, p, c, d, pos).result is Ok,
    ensures
        after_call(b1, q, c, e, pos).result == after_call(a1, p, c, d, pos).result,
        runs_thin(after_call(a1, p, c, d, pos).machine, after_call(b1, q, c, e, pos).machine, p, q, ts),
{
    let last = a.stack.len() - 1;
    let cf = p.functions[c as int];
    let cg = q.functions[c as int];
    let tc = ts[c as int];
    assert(function_thin(cf, cg, tc));
    let sa = after_call(a1, p, c, d, pos).machine;
    let sb = after_call(b1, q, c, e, pos).machine;
    let x = at_block(cf, called(c, d), 0);
    let y = at_block(cg, called(c, e), 0);
    lemma_place(cf, tc, 0, cf.blocks.len() as int);
    if !gone(cf, tc, 0) {
        assert(block_thin(cf, tc, 0, cg.blocks[place(cf, tc, 0)]));
    } else {
        lemma_place(cf, tc, 1, cf.blocks.len() as int);
        assert(place(cf, tc, 1) == 0);
        assert(block_thin(cf, tc, 1, cg.blocks[place(cf, tc, 1)]));
    }
    assert(act_thin(x, y, p, q, ts));
    assert(frame_thin(a, b, p, q, ts, last));
    assert forall|i: int| 0 <= i < sa.stack.len() implies #[trigger] frame_thin(
        sa,
        sb,
        p,
        q,
        ts,
        i,
    ) by {
        if i < last {
            assert(frame_thin(a, b, p, q, ts, i));
            assert(sa.stack[i] == a.stack[i]);
            assert(sb.stack[i] == b.stack[i]);
            assert(sa.store.scopes[i] == a.store.scopes.drop_last()[i]);
            assert(sa.store.scopes[i] == a1.store.scopes.drop_last()[i]);
            assert(sb.store.scopes[i] == b1.store.scopes.drop_last()[i]);
            if i + 1 < last {
                assert(sa.stack[i + 1] == a.stack[i + 1]);
                assert(sb.stack[i + 1] == b.stack[i + 1]);
            } else {
                assert(sa.stack[i + 1].dest == a.stack[i + 1].dest);
                assert(sb.stack[i + 1].dest == b.stack[i + 1].dest);
            }
        } else if i == last {
            assert(sa.store.scopes[i] == a1.store.scopes.drop_last()[i]);
            assert(sb.store.scopes[i] == b1.store.scopes.drop_last()[i]);
            assert(sa.stack[i] == a1.stack[last]);
            assert(sb.stack[i] == b1.stack[last]);
            assert(sa.stack[i + 1] == x);
            assert(sb.stack[i + 1] == y);
        } else {
            assert(sa.stack[i] == x);
            assert(sb.stack[i] == y);
            assert(sa.store.scopes[i] == a1.store.scopes.last());
            assert(sb.store.scopes[i] == b1.store.scopes.last());
        }
    }
}


/// Whether a step asks for nothing that must be answered from outside
/// before the run can go on.
pub open spec fn settled(s: Stepped) -> bool {
    s.result is Ok && s.machine.awaited is None
}

/// A plain operation that ends well writes its destination and does
/// nothing else.
pub proof fn lemma_plain_value(
    p: BBProgram,
    op: ValueOp,
    d: u32,
    xa: Seq<u32>,
    la: Seq<String>,
    fa: Seq<String>,
    ps: Store,
    xl: Option<String>,
)
    requires
        is_pure(op) || op == ValueOp::Phi || op == ValueOp::Load,
        value_step(p, op, d, xa, la, fa, ps, xl).result is Ok,
    ensures
        value_step(p, op, d, xa, la, fa, ps, xl).result == Ok::<
            ValueOutcome,
            crate::interp::program::InterpError,
        >(ValueOutcome::Done),
        value_step(p, op, d, xa, la, fa, ps, xl).store.heap == ps.heap,
        can_write(ps.scopes, d),
        exists|v: Value| value_step(p, op, d, xa, la, fa, ps, xl).store.scopes == written(ps.scopes, d, v),
{
    let va = value_step(p, op, d, xa, la, fa, ps, xl);
    if is_pure(op) {
        let v = crate::interp::ops::computed(op, operand(ps.scopes, xa, 0), operand(ps.scopes, xa, 1))->Ok_0;
        assert(va.store.scopes == written(ps.scopes, d, v));
    } else if op == ValueOp::Phi {
        let last = xl->0;
        let i = label_place(la, last@, la.len())->0;
        let v = operand(ps.scopes, xa, i)->0;
        assert(va.store.scopes == written(ps.scopes, d, v));
    } else {
        match operand(ps.scopes, xa, 0) {
            Some(Value::Pointer(ptr)) => {
                let cell = crate::interp::heap::Heap::cell_of(ptr)->0;
                let v = ps.heap.memory[cell];
                assert(va.store.scopes == written(ps.scopes, d, v));
            },
            _ => {},
        }
    }
}

/// An instruction that is not kept runs in the first program alone: the
/// step asks for nothing, and the runs are at the same place after it.
pub proof fn lemma_dropped_step(a: MachineView, b: MachineView, p: BBProgram, q: BBProgram, ts: Seq<Thin>)
    requires
        program_thin(p, q, ts),
        runs_thin(a, b, p, q, ts),
        a.stack.len() > 0,
        a.stack.last().index < p.functions[a.stack.last().func as int].blocks[a.stack.last().block as int].instrs.len(),
        !ts[a.stack.last().func as int].keep[a.stack.last().block as int][a.stack.last().index as int],
        stepped(a, p).result is Ok,
    ensures
        silent(stepped(a, p)),
        runs_thin(stepped(a, p).machine, b, p, q, ts),
{
    let last = a.stack.len() - 1;
    let x = a.stack.last();
    let y = b.stack.last();
    assert(frame_thin(a, b, p, q, ts, last));
    let f = p.functions[x.func as int];
    let g = q.functions[x.func as int];
    let t = ts[x.func as int];
    assert(function_thin(f, g, t));
    let k = x.block as int;
    let index = x.index as int;
    let blk = f.blocks[k];
    let xi = blk.instrs[index];
    assert(may_go(f, k, index));
    let d = writes(xi)->0;
    let sa = stepped(a, p);
    let ux = Activation { index: (x.index + 1) as usize, ..x };
    let a1 = MachineView { stack: a.stack.update(last, ux), ..a };
    assert(sa == after_instr(a1, p, xi));
    let ps = a.store.scopes[last];
    let qs = b.store.scopes[last];
    match xi {
        Instr::Value { op, dest, args, labels, funcs, pos } => {
            lemma_plain_value(p, op, dest, args@, labels@, funcs@, a.store, x.last_label);
        },
        _ => {},
    }
    let v = choose|v: Value| sa.machine.store.scopes == written(a.store.scopes, d, v);
    assert(sa.machine.store.scopes == written(a.store.scopes, d, v));
    let ps2 = ps.update(d as int, v);
    assert(sa.machine.store.scopes[last] == ps2);
    lemma_scope_next(ps, qs, f, g, t, blk, index, ps2, qs);
    if !gone(f, t, k) {
        lemma_kept_before(t.keep[k], index, index + 1);
    }
    assert(act_thin(ux, y, p, q, ts));
    assert forall|i: int| 0 <= i < sa.machine.stack.len() implies #[trigger] frame_thin(
        sa.machine,
        b,
        p,
        q,
        ts,
        i,
    ) by {
        assert(frame_thin(a, b, p, q, ts, i));
        if i < last {
            assert(sa.machine.stack[i] == a.stack[i]);
            assert(sa.machine.store.scopes[i] == a.store.scopes[i]);
            assert(sa.machine.stack[i + 1].dest == a.stack[i + 1].dest);
        }
    }
}

/// At the end of a first block that is gone, the first program alone goes
/// on to the next block: the step asks for nothing, and the runs are at the
/// same place after it.
pub proof fn lemma_gone_end(a: MachineView, b: MachineView, p: BBProgram, q: BBProgram, ts: Seq<Thin>)
    requires
        program_thin(p, q, ts),
        runs_thin(a, b, p, q, ts),
        a.stack.len() > 0,
        a.stack.last().index == p.functions[a.stack.last().func as int].blocks[a.stack.last().block as int].instrs.len(),
        gone(
            p.functions[a.stack.last().func as int],
            ts[a.stack.last().func as int],
            a.stack.last().block as int,
        ),
        stepped(a, p).result is Ok,
    ensures
        silent(stepped(a, p)),
        runs_thin(stepped(a, p).machine, b, p, q, ts),
{
    let last = a.stack.len() - 1;
    let x = a.stack.last();
    let y = b.stack.last();
    assert(frame_thin(a, b, p, q, ts, last));
    let f = p.functions[x.func as int];
    let g = q.functions[x.func as int];
    let t = ts[x.func as int];
    assert(function_thin(f, g, t));
    let sa = stepped(a, p);
    assert(sa == after_block(a, p));
    let nx = at_block(f, x, 1);
    assert(place(f, t, 1) == 0) by {
        assert(place(f, t, 0) == 0);
    }
    assert(block_thin(f, t, 1, g.blocks[place(f, t, 1)]));
    assert(act_thin(nx, y, p, q, ts));
    lemma_scope_fresh(
        a.store.scopes[last],
        b.store.scopes[last],
        f,
        g,
        t,
        f.blocks[0],
        x.index as int,
        f.blocks[1],
        0,
    );
    assert forall|i: int| 0 <= i < sa.machine.stack.len() implies #[trigger] frame_thin(
        sa.machine,
        b,
        p,
        q,
        ts,
        i,
    ) by {
        assert(frame_thin(a, b, p, q, ts, i));
        if i < last {
            assert(sa.machine.stack[i] == a.stack[i]);
            assert(sa.machine.stack[i + 1].dest == a.stack[i + 1].dest);
        }
    }
}

/// The end of a block that is not gone ends alike in both programs, and
/// leaves the runs at the same place.
pub proof fn lemma_block_end_thin(a: MachineView, b: MachineView, p: BBProgram, q: BBProgram, ts: Seq<Thin>)
    requires
        program_thin(p, q, ts),
        runs_thin(a, b, p, q, ts),
        a.stack.len() > 0,
        a.stack.last().index == p.functions[a.stack.last().func as int].blocks[a.stack.last().block as int].instrs.len(),
        !gone(
            p.functions[a.stack.last().func as int],
            ts[a.stack.last().func as int],
            a.stack.last().block as int,
        ),
        stepped(a, p).result is Ok,
    ensures
        stepped(b, q).result == stepped(a, p).result,
        runs_thin(stepped(a, p).machine, stepped(b, q).machine, p, q, ts),
        no_collection(b, q),
{
    let last = a.stack.len() - 1;
    let x = a.stack.last();
    let y = b.stack.last();
    assert(frame_thin(a, b, p, q, ts, last));
    let f = p.functions[x.func as int];
    let g = q.functions[x.func as int];
    let t = ts[x.func as int];
    assert(function_thin(f, g, t));
    let k = x.block as int;
    lemma_place(f, t, k, f.blocks.len() as int);
    assert(block_thin(f, t, k, g.blocks[place(f, t, k)]));
    let sa = stepped(a, p);
    let sb = stepped(b, q);
    assert(sa == after_block(a, p));
    assert(sb == after_block(b, q));
    match x.next_block {
        Some(e) => {
            lemma_place(f, t, e as int, f.blocks.len() as int);
            assert(block_thin(f, t, e as int, g.blocks[place(f, t, e as int)]));
            let nx = at_block(f, x, e);
            let ny = at_block(g, y, y.next_block->0);
            assert(act_thin(nx, ny, p, q, ts));
            lemma_scope_fresh(
                a.store.scopes[last],
                b.store.scopes[last],
                f,
                g,
                t,
                f.blocks[k],
                x.index as int,
                f.blocks[e as int],
                0,
            );
            assert forall|i: int| 0 <= i < sa.machine.stack.len() implies #[trigger] frame_thin(
                sa.machine,
                sb.machine,
                p,
                q,
                ts,
                i,
            ) by {
                assert(frame_thin(a, b, p, q, ts, i));
                if i < last {
                    assert(sa.machine.stack[i] == a.stack[i]);
                    assert(sb.machine.stack[i] == b.stack[i]);
                    assert(sa.machine.stack[i + 1].dest == a.stack[i + 1].dest);
                    assert(sb.machine.stack[i + 1].dest == b.stack[i + 1].dest);
                }
            }
        },
        None => {
            if last > 0 {
                let c = last - 1;
                assert(frame_thin(a, b, p, q, ts, c));
                let cx = a.stack[c];
                let cf = p.functions[cx.func as int];
                let cg = q.functions[cx.func as int];
                let ct = ts[cx.func as int];
                assert(function_thin(cf, cg, ct));
                let cb = cf.blocks[cx.block as int];
                let ps = a.store.scopes[c];
                let qs = b.store.scopes[c];
                let pa = a.store.scopes.drop_last();
                let qa = b.store.scopes.drop_last();
                assert(pa.last() == ps);
                assert(qa.last() == qs);
                let ps2 = sa.machine.store.scopes[c];
                let qs2 = sb.machine.store.scopes[c];
                match x.dest {
                    Some(d) => {
                        let e = y.dest->0;
                        let v = x.result->0;
                        assert(ps2 == ps.update(d as int, v));
                        assert(qs2 == qs.update(e as int, v));
                        assert forall|z: int| 0 <= z < qs.len() implies {
                            ||| #[trigger] qs2[z] == ps2[ct.rho[z] as int]
                            ||| (qs2[z] == qs[z] && ps2[ct.rho[z] as int] == ps[ct.rho[z] as int]
                                && writes(cb.instrs[cx.index - 1]) != Some(ct.rho[z]))
                            ||| stale(cf, cb, cx.index - 1 + 1, ct.rho[z])
                        } by {
                            if z != e {
                                assert(ct.rho[z] != ct.rho[e as int]);
                            }
                        }
                    },
                    None => {
                        assert(ps2 == ps);
                        assert(qs2 == qs);
                    },
                }
                lemma_scope_next(ps, qs, cf, cg, ct, cb, cx.index - 1, ps2, qs2);
                assert forall|i: int| 0 <= i < sa.machine.stack.len() implies #[trigger] frame_thin(
                    sa.machine,
                    sb.machine,
                    p,
                    q,
                    ts,
                    i,
                ) by {
                    assert(frame_thin(a, b, p, q, ts, i));
                    assert(sa.machine.stack[i] == a.stack[i]);
                    assert(sb.machine.stack[i] == b.stack[i]);
                    if i < c {
                        assert(sa.machine.store.scopes[i] == a.store.scopes[i]);
                        assert(sb.machine.store.scopes[i] == b.store.scopes[i]);
                        assert(sa.machine.stack[i + 1] == a.stack[i + 1]);
                        assert(sb.machine.stack[i + 1] == b.stack[i + 1]);
                    }
                }
            }
        },
    }
}


/// The arguments of an instruction are variables that it reads.
pub proof fn lemma_reads_own(i: Instr)
    ensures
        match i {
            Instr::Value { args, .. } => reads_all(i, args@),
            Instr::Effect { args, .. } => reads_all(i, args@),
            _ => true,
        },
{
    match i {
        Instr::Value { args, .. } => {
            assert forall|j: int| 0 <= j < args@.len() implies reads(i, #[trigger] args@[j]) by {
                assert(args@[j] == args@[j]);
            }
        },
        Instr::Effect { args, .. } => {
            assert forall|j: int| 0 <= j < args@.len() implies reads(i, #[trigger] args@[j]) by {
                assert(args@[j] == args@[j]);
            }
        },
        _ => {},
    }
}

/// A kept instruction that ends well in the first program, without a
/// collection, ends in the same way in the second; and unless the run then
/// waits for a value from outside, the runs are at the same place after it.
pub proof fn lemma_kept_step(a: MachineView, b: MachineView, p: BBProgram, q: BBProgram, ts: Seq<Thin>)
    requires
        program_thin(p, q, ts),
        runs_thin(a, b, p, q, ts),
        a.stack.len() > 0,
        a.stack.last().index < p.functions[a.stack.last().func as int].blocks[a.stack.last().block as int].instrs.len(),
        ts[a.stack.last().func as int].keep[a.stack.last().block as int][a.stack.last().index as int],
        stepped(a, p).result is Ok,
        no_collection(a, p),
    ensures
        stepped(b, q).result == stepped(a, p).result,
        stepped(a, p).machine.awaited is None ==> runs_thin(
            stepped(a, p).machine,
            stepped(b, q).machine,
            p,
            q,
            ts,
        ),
        no_collection(b, q),
{
    let last = a.stack.len() - 1;
    let x = a.stack.last();
    let y = b.stack.last();
    assert(frame_thin(a, b, p, q, ts, last));
    let f = p.functions[x.func as int];
    let g = q.functions[x.func as int];
    let t = ts[x.func as int];
    assert(function_thin(f, g, t));
    let k = x.block as int;
    let index = x.index as int;
    let blk = f.blocks[k];
    let xi = blk.instrs[index];
    lemma_kept_before(t.keep[k], index, blk.instrs.len() as int);
    lemma_kept_before(t.keep[k], index, index + 1);
    assert(!gone(f, t, k));
    lemma_place(f, t, k, f.blocks.len() as int);
    let gb = g.blocks[place(f, t, k)];
    assert(block_thin(f, t, k, gb));
    let yi = gb.instrs[kept_before(t.keep[k], index)];
    assert(thin_instr(xi, yi, t.rho));
    let ux = Activation { index: (x.index + 1) as usize, ..x };
    let uy = Activation { index: (y.index + 1) as usize, ..y };
    let a1 = MachineView { stack: a.stack.update(last, ux), ..a };
    let b1 = MachineView { stack: b.stack.update(last, uy), ..b };
    let sa = stepped(a, p);
    let sb = stepped(b, q);
    assert(sa == after_instr(a1, p, xi));
    assert(sb == after_instr(b1, q, yi));
    assert(act_thin(ux, uy, p, q, ts));
    let ps = a.store.scopes[last];
    let qs = b.store.scopes[last];
    assert(a.store.scopes.last() == ps);
    assert(b.store.scopes.last() == qs);
    lemma_reads_own(xi);
    match (xi, yi) {
        (
            Instr::Constant { dest, const_type, value, pos },
            Instr::Constant { dest: e, const_type: ct, value: cv, pos: cp },
        ) => {
            if sa.machine.awaited is None {
                let v = if const_type == Type::Float {
                    Value::Float(value->Float_0)
                } else {
                    literal_value(value)
                };
                let ps2 = ps.update(dest as int, v);
                let qs2 = qs.update(e as int, v);
                assert(sa.machine.store.scopes[last] == ps2);
                assert(sb.machine.store.scopes[last] == qs2);
                assert forall|z: int| 0 <= z < qs.len() implies {
                    ||| #[trigger] qs2[z] == ps2[t.rho[z] as int]
                    ||| (qs2[z] == qs[z] && ps2[t.rho[z] as int] == ps[t.rho[z] as int] && writes(
                        blk.instrs[index],
                    ) != Some(t.rho[z]))
                    ||| stale(f, blk, index + 1, t.rho[z])
                } by {
                    if z != e {
                        assert(t.rho[z] != t.rho[e as int]);
                    }
                }
                lemma_scope_next(ps, qs, f, g, t, blk, index, ps2, qs2);
                assert forall|i: int| 0 <= i < sa.machine.stack.len() implies #[trigger] frame_thin(
                    sa.machine,
                    sb.machine,
                    p,
                    q,
                    ts,
                    i,
                ) by {
                    assert(frame_thin(a, b, p, q, ts, i));
                    if i < last {
                        assert(sa.machine.stack[i] == a.stack[i]);
                        assert(sb.machine.stack[i] == b.stack[i]);
                        assert(sa.machine.store.scopes[i] == a.store.scopes[i]);
                        assert(sb.machine.store.scopes[i] == b.store.scopes[i]);
                        assert(sa.machine.stack[i + 1].dest == a.stack[i + 1].dest);
                        assert(sb.machine.stack[i + 1].dest == b.stack[i + 1].dest);
                    }
                }
            }
        },
        (
            Instr::Value { op, dest, args, labels, funcs, pos },
            Instr::Value { op: o, dest: e, args: ar, labels: l, funcs: fs, pos: cp },
        ) => {
            lemma_args_same(ps, qs, f, g, t, k, index, args@, ar@);
            lemma_operand_thin(a.store.scopes, b.store.scopes, args@, ar@, 0);
            lemma_value_thin(
                p,
                q,
                ts,
                op,
                dest,
                e,
                args@,
                ar@,
                labels@,
                l@,
                funcs@,
                fs@,
                a.store,
                b.store,
                x.last_label,
                y.last_label,
            );
            let va = value_step(p, op, dest, args@, labels@, funcs@, a.store, x.last_label);
            let vb = value_step(q, op, e, ar@, l@, fs@, b.store, y.last_label);
            match va.result {
                Ok(ValueOutcome::Call(c)) => {
                    let a2 = MachineView { store: va.store, ..a1 };
                    let b2 = MachineView { store: vb.store, ..b1 };
                    lemma_call_thin(a, b, a2, b2, p, q, ts, c, Some(dest), Some(e), pos);
                },
                Ok(ValueOutcome::Done) => {
                    let v = choose|v: Value|
                        va.store.scopes == written(a.store.scopes, dest, v) && vb.store.scopes
                            == written(b.store.scopes, e, v);
                    let ps2 = ps.update(dest as int, v);
                    let qs2 = qs.update(e as int, v);
                    assert(sa.machine.store.scopes[last] == ps2);
                    assert(sb.machine.store.scopes[last] == qs2);
                    assert forall|z: int| 0 <= z < qs.len() implies {
                        ||| #[trigger] qs2[z] == ps2[t.rho[z] as int]
                        ||| (qs2[z] == qs[z] && ps2[t.rho[z] as int] == ps[t.rho[z] as int]
                            && writes(blk.instrs[index]) != Some(t.rho[z]))
                        ||| stale(f, blk, index + 1, t.rho[z])
                    } by {
                        if z != e {
                            assert(t.rho[z] != t.rho[e as int]);
                        }
                    }
                    lemma_scope_next(ps, qs, f, g, t, blk, index, ps2, qs2);
                    assert forall|i: int| 0 <= i < sa.machine.stack.len() implies #[trigger] frame_thin(
                        sa.machine,
                        sb.machine,
                        p,
                        q,
                        ts,
                        i,
                    ) by {
                        assert(frame_thin(a, b, p, q, ts, i));
                        if i < last {
                            assert(sa.machine.stack[i] == a.stack[i]);
                            assert(sb.machine.stack[i] == b.stack[i]);
                            assert(sa.machine.store.scopes[i] == a.store.scopes[i]);
                            assert(sb.machine.store.scopes[i] == b.store.scopes[i]);
                            assert(sa.machine.stack[i + 1].dest == a.stack[i + 1].dest);
                            assert(sb.machine.stack[i + 1].dest == b.stack[i + 1].dest);
                        }
                    }
                },
                _ => {},
            }
        },
        (
            Instr::Effect { op, args, funcs, pos },
            Instr::Effect { op: o, args: ar, funcs: fs, pos: cp },
        ) => {
            lemma_args_same(ps, qs, f, g, t, k, index, args@, ar@);
            lemma_effect_thin(
                p,
                q,
                ts,
                f,
                g,
                t,
                op,
                args@,
                ar@,
                funcs@,
                fs@,
                blk.exit@,
                gb.exit@,
                a.store,
                b.store,
                x.next_block,
                y.next_block,
            );
            let ea = effect_step(p, f, op, args@, funcs@, blk.exit@, a.store, x.next_block);
            let eb = effect_step(q, g, op, ar@, fs@, gb.exit@, b.store, y.next_block);
            let oa = ea.result->Ok_0;
            let vx = Activation {
                next_block: ea.next_block,
                result: match oa {
                    EffectOutcomeView::Return(v) => v,
                    _ => None,
                },
                ..ux
            };
            let vy = Activation {
                next_block: eb.next_block,
                result: match oa {
                    EffectOutcomeView::Return(v) => v,
                    _ => None,
                },
                ..uy
            };
            assert(act_thin(vx, vy, p, q, ts));
            match oa {
                EffectOutcomeView::Call(c) => {
                    let a2 = MachineView {
                        store: ea.store,
                        stack: a.stack.update(last, vx),
                        ..a
                    };
                    let b2 = MachineView {
                        store: eb.store,
                        stack: b.stack.update(last, vy),
                        ..b
                    };
                    assert(a.stack.update(last, ux).update(last, vx) =~= a.stack.update(
                        last,
                        vx,
                    ));
                    assert(b.stack.update(last, uy).update(last, vy) =~= b.stack.update(
                        last,
                        vy,
                    ));
                    lemma_call_thin(a, b, a2, b2, p, q, ts, c, None, None, pos);
                },
                _ => {
                    assert forall|z: int| 0 <= z < qs.len() implies {
                        ||| #[trigger] qs[z] == ps[t.rho[z] as int]
                        ||| (qs[z] == qs[z] && ps[t.rho[z] as int] == ps[t.rho[z] as int]
                            && writes(blk.instrs[index]) != Some(t.rho[z]))
                        ||| stale(f, blk, index + 1, t.rho[z])
                    } by {}
                    lemma_scope_next(ps, qs, f, g, t, blk, index, ps, qs);
                    assert forall|i: int| 0 <= i < sa.machine.stack.len() implies #[trigger] frame_thin(
                        sa.machine,
                        sb.machine,
                        p,
                        q,
                        ts,
                        i,
                    ) by {
                        assert(frame_thin(a, b, p, q, ts, i));
                        if i < last {
                            assert(sa.machine.stack[i] == a.stack[i]);
                            assert(sb.machine.stack[i] == b.stack[i]);
                            assert(sa.machine.stack[i + 1].dest == a.stack[i + 1].dest);
                            assert(sb.machine.stack[i + 1].dest == b.stack[i + 1].dest);
                        }
                    }
                },
            }
        },
        _ => {},
    }
}

/// A program that lacks dead definitions runs as the program with them
/// does. Where two runs are at the same place, a step of the first that
/// ends well, without a collection, either is a step that the second lacks
/// and asks for nothing, or is answered by a step of the second that asks
/// for the same; and unless the run then waits for a value from outside,
/// the runs are at the same place again.
pub proof fn lemma_step_thin(a: MachineView, b: MachineView, p: BBProgram, q: BBProgram, ts: Seq<Thin>)
    requires
        program_thin(p, q, ts),
        runs_thin(a, b, p, q, ts),
        stepped(a, p).result is Ok,
        no_collection(a, p),
    ensures
        ({
            ||| silent(stepped(a, p)) && runs_thin(stepped(a, p).machine, b, p, q, ts)
            ||| stepped(b, q).result == stepped(a, p).result && no_collection(b, q) && (stepped(
                a,
                p,
            ).machine.awaited is None ==> runs_thin(
                stepped(a, p).machine,
                stepped(b, q).machine,
                p,
                q,
                ts,
            ))
        }),
{
    if a.stack.len() > 0 {
        let last = a.stack.len() - 1;
        let x = a.stack.last();
        assert(frame_thin(a, b, p, q, ts, last));
        let f = p.functions[x.func as int];
        let t = ts[x.func as int];
        assert(function_thin(f, q.functions[x.func as int], t));
        let blk = f.blocks[x.block as int];
        if x.index < blk.instrs.len() {
            if t.keep[x.block as int][x.index as int] {
                lemma_kept_step(a, b, p, q, ts);
            } else {
                lemma_dropped_step(a, b, p, q, ts);
            }
        } else if gone(f, t, x.block as int) {
            lemma_gone_end(a, b, p, q, ts);
        } else {
            lemma_block_end_thin(a, b, p, q, ts);
        }
    }
}


/// Whether none of the first `k` steps of a run is an allocation for which
/// a collection is due.
pub open spec fn never_collects(a: MachineView, p: BBProgram, k: nat) -> bool {
    forall|i: nat| i < k ==> #[trigger] no_collection(after_steps(a, p, i), p)
}

/// Whether `j` steps of the second run answer `k` steps of the first: they
/// end well, without a collection, and ask for what the steps of the first
/// ask for, in order, but for the steps that ask for nothing; and the runs
/// are then at the same place unless the first waits for a value from
/// outside.
pub open spec fn run_thin(
    a: MachineView,
    b: MachineView,
    p: BBProgram,
    q: BBProgram,
    ts: Seq<Thin>,
    k: nat,
    j: nat,
) -> bool {
    &&& shown(b, q, j) == shown(a, p, k)
    &&& runs_well(b, q, j)
    &&& never_collects(b, q, j)
    &&& after_steps(a, p, k).awaited is None ==> runs_thin(
        after_steps(a, p, k),
        after_steps(b, q, j),
        p,
        q,
        ts,
    )
}

/// One more step of the first run that ends well, without a collection,
/// is answered by the steps of the second that answered the steps before,
/// or by one more.
pub proof fn lemma_run_next(
    a: MachineView,
    b: MachineView,
    p: BBProgram,
    q: BBProgram,
    ts: Seq<Thin>,
    i: nat,
    j: nat,
)
    requires
        program_thin(p, q, ts),
        run_thin(a, b, p, q, ts, i, j),
        asked(a, p, i) is Ok,
        no_collection(after_steps(a, p, i), p),
    ensures
        run_thin(a, b, p, q, ts, i + 1, j) || run_thin(a, b, p, q, ts, i + 1, j + 1),
{
    let x = after_steps(a, p, i);
    let y = after_steps(b, q, j);
    assert(x.awaited is None);
    lemma_step_thin(x, y, p, q, ts);
    let sa = stepped(x, p);
    let sb = stepped(y, q);
    assert(after_steps(a, p, i + 1) == sa.machine);
    assert(after_steps(b, q, j + 1) == sb.machine);
    assert(asked(b, q, j) == sb.result);
    assert(asked(a, p, i) == sa.result);
    let ra = asked(a, p, i);
    assert(shown(a, p, i + 1) == if ra == Ok::<
        crate::interp::machine::ActionView,
        crate::interp::program::PositionalInterpError,
    >(crate::interp::machine::ActionView::Continue) {
        shown(a, p, i)
    } else {
        shown(a, p, i).push(ra)
    });
    if silent(sa) && runs_thin(sa.machine, y, p, q, ts) {
        assert(run_thin(a, b, p, q, ts, i + 1, j));
    } else {
        let rb = asked(b, q, j);
        assert(shown(b, q, j + 1) == if rb == Ok::<
            crate::interp::machine::ActionView,
            crate::interp::program::PositionalInterpError,
        >(crate::interp::machine::ActionView::Continue) {
            shown(b, q, j)
        } else {
            shown(b, q, j).push(rb)
        });
        assert forall|n: nat| n < j + 1 implies (#[trigger] asked(b, q, n)) is Ok by {
            if n < j {
            }
        }
        assert forall|n: nat| n < j + 1 implies #[trigger] no_collection(
            after_steps(b, q, n),
            q,
        ) by {
            if n < j {
            }
        }
        assert(run_thin(a, b, p, q, ts, i + 1, j + 1));
    }
}

/// A program that lacks dead definitions shows what the program with them
/// shows. Where two runs are at the same place and the first takes `k`
/// steps that end well, without a collection, the second answers them with
/// steps of its own: what they ask for is what the steps of the first ask
/// for, in order, but for the steps that ask for nothing.
pub proof fn lemma_run_thin(
    a: MachineView,
    b: MachineView,
    p: BBProgram,
    q: BBProgram,
    ts: Seq<Thin>,
    k: nat,
)
    requires
        program_thin(p, q, ts),
        runs_thin(a, b, p, q, ts),
        runs_well(a, p, k),
        never_collects(a, p, k),
    ensures
        exists|j: nat| #[trigger] run_thin(a, b, p, q, ts, k, j),
    decreases k,
{
    if k == 0 {
        assert(run_thin(a, b, p, q, ts, 0, 0));
    } else {
        let i = (k - 1) as nat;
        assert forall|n: nat| n < i implies (#[trigger] asked(a, p, n)) is Ok by {}
        assert forall|n: nat| n < i implies #[trigger] no_collection(after_steps(a, p, n), p) by {}
        lemma_run_thin(a, b, p, q, ts, i);
        let j = choose|j: nat| #[trigger] run_thin(a, b, p, q, ts, i, j);
        assert(asked(a, p, i) is Ok);
        assert(no_collection(after_steps(a, p, i), p));
        lemma_run_next(a, b, p, q, ts, i, j);
    }
}

/// The inputs of a run give the same values to the parameters in both
/// programs.
pub proof fn lemma_inputs_thin(
    f: BBFunction,
    g: BBFunction,
    t: Thin,
    ps: Seq<Value>,
    qs: Seq<Value>,
    inputs: Seq<Input>,
    k: nat,
)
    requires
        function_thin(f, g, t),
        scope_exact(ps, qs, f, g, t),
        k <= f.args.len(),
        k <= f.args_as_nums.len(),
        bound_inputs(seq![ps], f.args@, f.args_as_nums@, inputs, k) is Ok,
    ensures
        bound_inputs(seq![qs], g.args@, g.args_as_nums@, inputs, k) is Ok,
        bound_inputs(seq![ps], f.args@, f.args_as_nums@, inputs, k)->Ok_0.len() == 1,
        bound_inputs(seq![qs], g.args@, g.args_as_nums@, inputs, k)->Ok_0.len() == 1,
        scope_exact(
            bound_inputs(seq![ps], f.args@, f.args_as_nums@, inputs, k)->Ok_0[0],
            bound_inputs(seq![qs], g.args@, g.args_as_nums@, inputs, k)->Ok_0[0],
            f,
            g,
            t,
        ),
    decreases k,
{
    if k > 0 {
        lemma_inputs_thin(f, g, t, ps, qs, inputs, (k - 1) as nat);
        let bp = bound_inputs(seq![ps], f.args@, f.args_as_nums@, inputs, (k - 1) as nat)->Ok_0;
        let bq = bound_inputs(seq![qs], g.args@, g.args_as_nums@, inputs, (k - 1) as nat)->Ok_0;
        let np = bound_inputs(seq![ps], f.args@, f.args_as_nums@, inputs, k)->Ok_0;
        let nq = bound_inputs(seq![qs], g.args@, g.args_as_nums@, inputs, k)->Ok_0;
        let gy = g.args_as_nums@[k - 1];
        assert(gy < t.rho.len() && t.rho[gy as int] == f.args_as_nums@[k - 1]);
        assert(g.args[k - 1].arg_type == f.args[k - 1].arg_type);
        assert(bp.last() == bp[0]);
        assert(bq.last() == bq[0]);
        assert forall|y: int| 0 <= y < nq[0].len() implies #[trigger] nq[0][y] == np[0][t.rho[y] as int] by {
            assert(bq[0][y] == bp[0][t.rho[y] as int]);
            if y != gy {
                assert(t.rho[y] != t.rho[gy as int]);
            }
        }
    }
}

/// Where the program with the definitions can start, the program that
/// lacks them can, and the runs are then at the same place.
pub proof fn lemma_start_thin(p: BBProgram, q: BBProgram, ts: Seq<Thin>, inputs: Seq<Input>)
    requires
        program_thin(p, q, ts),
        started(p, inputs) is Ok,
    ensures
        started(q, inputs) is Ok,
        runs_thin(started(p, inputs)->Ok_0, started(q, inputs)->Ok_0, p, q, ts),
{
    lemma_index_thin(p, q, ts, "main"@, p.functions.len() as nat);
    let idx = p.index_of("main"@)->0;
    let f = p.functions[idx as int];
    let g = q.functions[idx as int];
    let t = ts[idx as int];
    assert(function_thin(f, g, t));
    let sp = Seq::new(f.num_of_vars as nat, |i: int| Value::Uninitialized);
    let sq = Seq::new(g.num_of_vars as nat, |i: int| Value::Uninitialized);
    assert(scope_exact(sp, sq, f, g, t));
    let count = if f.args@.len() <= f.args_as_nums@.len() {
        f.args@.len()
    } else {
        f.args_as_nums@.len() as nat
    };
    if !(f.args@.len() == 0 && inputs.len() == 0) {
        lemma_inputs_thin(f, g, t, sp, sq, inputs, count);
    }
    let a = started(p, inputs)->Ok_0;
    let b = started(q, inputs)->Ok_0;
    let x = at_block(f, called(idx, None), 0);
    let y = at_block(g, called(idx, None), 0);
    lemma_place(f, t, 0, f.blocks.len() as int);
    if !gone(f, t, 0) {
        assert(block_thin(f, t, 0, g.blocks[place(f, t, 0)]));
    } else {
        lemma_place(f, t, 1, f.blocks.len() as int);
        assert(place(f, t, 1) == 0);
        assert(block_thin(f, t, 1, g.blocks[place(f, t, 1)]));
    }
    assert(act_thin(x, y, p, q, ts));
    assert(a.stack[0] == x);
    assert(b.stack[0] == y);
    assert(scope_exact(a.store.scopes[0], b.store.scopes[0], f, g, t));
    assert(frame_thin(a, b, p, q, ts, 0));
}

} // verus!
