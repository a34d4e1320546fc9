//! Programs with every jump written out: a program in which blocks end
//! with the jump to the block that follows them, and functions may start
//! with a block that only jumps to the first, runs as the program without
//! those jumps does.
use crate::interp::machine::{
    after_block, after_call, after_instr, at_block, bound_inputs, called, started, stepped,
    ActionView, Activation, Input, MachineView, Stepped,
};
use crate::interp::ops::{
    bound_args, bound_count, effect_step, label_place, value_step, EffectOutcomeView, Store,
    ValueOutcome,
};
use crate::interp::program::{
    function_index, BBFunction, BBProgram, BasicBlock, EffectOp, Instr, PositionalInterpError,
    ValueOp,
};
use crate::interp::relocation::{after_steps, asked};
use crate::interp::value::Value;
use crate::ir::{names, Argument};
use vstd::prelude::*;

verus! {

/// Whether two instructions are the same: the same operation on the same
/// variables, with the same labels and functions by name.
pub open spec fn same_instr(x: Instr, y: Instr) -> bool {
    match (x, y) {
        (
            Instr::Constant { dest, const_type, value, pos },
            Instr::Constant { dest: d, const_type: t, value: v, pos: q },
        ) => dest == d && const_type == t && value == v && pos == q,
        (
            Instr::Value { op, dest, args, labels, funcs, pos },
            Instr::Value { op: o, dest: d, args: a, labels: l, funcs: f, pos: q },
        ) => op == o && dest == d && args@ == a@ && names(labels@) == names(l@) && names(funcs@)
            == names(f@) && pos == q,
        (
            Instr::Effect { op, args, funcs, pos },
            Instr::Effect { op: o, args: a, funcs: f, pos: q },
        ) => op == o && args@ == a@ && names(funcs@) == names(f@) && pos == q,
        _ => false,
    }
}

/// Whether the instruction is a jump.
pub open spec fn is_jump(i: Instr) -> bool {
    match i {
        Instr::Effect { op, .. } => op == EffectOp::Jump,
        _ => false,
    }
}

/// Whether the instruction is a return.
pub open spec fn is_return(i: Instr) -> bool {
    match i {
        Instr::Effect { op, .. } => op == EffectOp::Return,
        _ => false,
    }
}

/// Whether the instruction is a terminator: a jump, a branch or a return.
pub open spec fn is_control(i: Instr) -> bool {
    match i {
        Instr::Effect { op, .. } => op == EffectOp::Jump || op == EffectOp::Branch || op
            == EffectOp::Return,
        _ => false,
    }
}

/// Whether the second label is the first, where there is a first.
pub open spec fn same_label(x: Option<String>, y: Option<String>) -> bool {
    match x {
        Some(l) => y is Some && y->0@ == l@,
        None => true,
    }
}

/// Whether the second list holds the indices of the first, each moved up
/// by `sh`.
pub open spec fn shifted(xs: Seq<usize>, ys: Seq<usize>, sh: int) -> bool {
    ys.len() == xs.len() && forall|i: int| 0 <= i < xs.len() ==> #[trigger] ys[i] == xs[i] + sh
}

/// Whether a block is tidy: a terminator stands only at its end, and a
/// block that ends with a return has no exit.
pub open spec fn tidy(x: BasicBlock) -> bool {
    &&& forall|i: int| 0 <= i < x.instrs.len() - 1 ==> !is_control(#[trigger] x.instrs[i])
    &&& x.instrs.len() > 0 && is_return(x.instrs[x.instrs.len() - 1]) ==> x.exit.len() == 0
}

/// Whether the block `y` is the block `x` with its jump written out: the
/// same label, where `x` has one; the same instructions; the same exits,
/// moved up by `sh`; and, where `x` holds no terminator, `y` may end with
/// one more instruction: a jump, if `x` has one exit, or a return, if it
/// has none and the function returns no value.
pub open spec fn block_explicit(x: BasicBlock, y: BasicBlock, sh: int, valued: bool) -> bool {
    &&& tidy(x)
    &&& same_label(x.label, y.label)
    &&& x.instrs.len() <= y.instrs.len()
    &&& forall|i: int| 0 <= i < x.instrs.len() ==> same_instr(x.instrs[i], #[trigger] y.instrs[i])
    &&& shifted(x.exit@, y.exit@, sh)
    &&& y.instrs.len() != x.instrs.len() ==> {
        &&& y.instrs.len() == x.instrs.len() + 1
        &&& forall|i: int| 0 <= i < x.instrs.len() ==> !is_control(#[trigger] x.instrs[i])
        &&& if x.exit.len() == 1 {
            is_jump(y.instrs[y.instrs.len() - 1])
        } else {
            x.exit.len() == 0 && !valued && is_return(y.instrs[y.instrs.len() - 1])
        }
    }
}

/// By how many blocks the function `g` is longer than `f`.
pub open spec fn lead(f: BBFunction, g: BBFunction) -> int {
    g.blocks.len() - f.blocks.len()
}

/// Whether the function `g` is the function `f` with its jumps written
/// out: the same name, parameters, variables and return type; the blocks of
/// `f` with their jumps written out; and before them, if `g` is longer, one
/// block that only jumps to the first of them.
pub open spec fn function_explicit(f: BBFunction, g: BBFunction) -> bool {
    let sh = lead(f, g);
    &&& sh == 0 || sh == 1
    &&& sh == 1 ==> f.blocks.len() > 0
    &&& g.name@ == f.name@
    &&& g.args_as_nums@ == f.args_as_nums@
    &&& g.num_of_vars == f.num_of_vars
    &&& g.return_type == f.return_type
    &&& g.args.len() == f.args.len()
    &&& forall|i: int|
        0 <= i < f.args.len() ==> (#[trigger] g.args[i]).arg_type == f.args[i].arg_type
    &&& sh == 1 ==> g.blocks[0].instrs.len() == 1 && is_jump(g.blocks[0].instrs[0])
        && g.blocks[0].exit@ == seq![1usize]
    &&& forall|k: int|
        0 <= k < f.blocks.len() ==> block_explicit(
            #[trigger] f.blocks[k],
            g.blocks[k + sh],
            sh,
            f.return_type is Some,
        )
}

/// Whether the program `q` is the program `p` with its jumps written out,
/// function by function.
pub open spec fn program_explicit(p: BBProgram, q: BBProgram) -> bool {
    &&& q.functions.len() == p.functions.len()
    &&& forall|i: int|
        0 <= i < p.functions.len() ==> function_explicit(#[trigger] p.functions[i], q.functions[i])
}

/// A name finds the same function in both programs.
pub proof fn lemma_index_same(p: BBProgram, q: BBProgram, name: Seq<char>, k: nat)
    requires
        program_explicit(p, q),
        k <= p.functions.len(),
    ensures
        function_index(q.functions@, name, k) == function_index(p.functions@, name, k),
        match function_index(p.functions@, name, k) {
            Some(c) => c < k,
            None => true,
        },
    decreases k,
{
    if k > 0 {
        lemma_index_same(p, q, name, (k - 1) as nat);
        assert(function_explicit(p.functions[k - 1], q.functions[k - 1]));
    }
}

/// The arguments of a call are bound in the same way for both functions.
pub proof fn lemma_bound_same(f: BBFunction, g: BBFunction, args: Seq<u32>, caller: Seq<Value>, k: nat)
    requires
        function_explicit(f, g),
    ensures
        bound_args(g, args, caller, k) == bound_args(f, args, caller, k),
    decreases k,
{
    if k > 0 {
        lemma_bound_same(f, g, args, caller, (k - 1) as nat);
        assert(g.args_as_nums@[k - 1] == f.args_as_nums@[k - 1]);
    }
}

/// A label has the same place among labels of the same names.
pub proof fn lemma_place_same(la: Seq<String>, lb: Seq<String>, label: Seq<char>, k: nat)
    requires
        names(la) == names(lb),
        k <= la.len(),
    ensures
        label_place(lb, label, k) == label_place(la, label, k),
    decreases k,
{
    assert(la.len() == names(la).len());
    assert(lb.len() == names(lb).len());
    if k > 0 {
        lemma_place_same(la, lb, label, (k - 1) as nat);
        assert(names(la)[k - 1] == la[k - 1]@);
        assert(names(lb)[k - 1] == lb[k - 1]@);
    }
}

/// An operation with a destination that ends well in the one program ends
/// in the same way in the other, with the same variables and heap.
pub proof fn lemma_value_explicit(
    p: BBProgram,
    q: BBProgram,
    op: ValueOp,
    dest: u32,
    args: Seq<u32>,
    la: Seq<String>,
    lb: Seq<String>,
    fa: Seq<String>,
    fb: Seq<String>,
    st: Store,
    xl: Option<String>,
    yl: Option<String>,
)
    requires
        program_explicit(p, q),
        names(la) == names(lb),
        names(fa) == names(fb),
        same_label(xl, yl),
        value_step(p, op, dest, args, la, fa, st, xl).result is Ok,
    ensures
        value_step(q, op, dest, args, lb, fb, st, yl).result == value_step(
            p,
            op,
            dest,
            args,
            la,
            fa,
            st,
            xl,
        ).result,
        value_step(q, op, dest, args, lb, fb, st, yl).store == value_step(
            p,
            op,
            dest,
            args,
            la,
            fa,
            st,
            xl,
        ).store,
        match value_step(p, op, dest, args, la, fa, st, xl).result {
            Ok(ValueOutcome::Call(c)) => c < p.functions.len(),
            _ => true,
        },
{
    assert(la.len() == names(la).len());
    assert(lb.len() == names(lb).len());
    assert(fa.len() == names(fa).len());
    assert(fb.len() == names(fb).len());
    if op == ValueOp::Call {
        if fa.len() > 0 {
            assert(names(fa)[0] == fa[0]@);
            assert(names(fb)[0] == fb[0]@);
            lemma_index_same(p, q, fa[0]@, p.functions.len() as nat);
            match p.index_of(fa[0]@) {
                Some(c) => {
                    assert(function_explicit(p.functions[c as int], q.functions[c as int]));
                    if st.scopes.len() > 0 {
                        lemma_bound_same(
                            p.functions[c as int],
                            q.functions[c as int],
                            args,
                            st.scopes.last(),
                            bound_count(p.functions[c as int], args),
                        );
                    }
                },
                None => {},
            }
        }
    } else if op == ValueOp::Phi {
        match xl {
            Some(last) => {
                lemma_place_same(la, lb, last@, la.len());
            },
            None => {},
        }
    }
}

/// Whether the second block to run next is the first, moved up by `sh`.
pub open spec fn next_shifted(x: Option<usize>, y: Option<usize>, sh: int) -> bool {
    match x {
        Some(i) => y is Some && y->0 == i + sh,
        None => y is None,
    }
}

/// An operation without a destination that ends well in the one program
/// ends in the same way in the other, with the same variables and heap, and
/// with the block to run next moved up as the exits are.
pub proof fn lemma_effect_explicit(
    p: BBProgram,
    q: BBProgram,
    f: BBFunction,
    g: BBFunction,
    op: EffectOp,
    args: Seq<u32>,
    fa: Seq<String>,
    fb: Seq<String>,
    xe: Seq<usize>,
    ye: Seq<usize>,
    st: Store,
    xn: Option<usize>,
    yn: Option<usize>,
    sh: int,
)
    requires
        program_explicit(p, q),
        function_explicit(f, g),
        names(fa) == names(fb),
        shifted(xe, ye, sh),
        next_shifted(xn, yn, sh),
        effect_step(p, f, op, args, fa, xe, st, xn).result is Ok,
    ensures
        effect_step(q, g, op, args, fb, ye, st, yn).result == effect_step(
            p,
            f,
            op,
            args,
            fa,
            xe,
            st,
            xn,
        ).result,
        effect_step(q, g, op, args, fb, ye, st, yn).store == effect_step(
            p,
            f,
            op,
            args,
            fa,
            xe,
            st,
            xn,
        ).store,
        next_shifted(
            effect_step(p, f, op, args, fa, xe, st, xn).next_block,
            effect_step(q, g, op, args, fb, ye, st, yn).next_block,
            sh,
        ),
        !is_control_op(op) ==> effect_step(p, f, op, args, fa, xe, st, xn).next_block == xn,
        match effect_step(p, f, op, args, fa, xe, st, xn).result {
            Ok(EffectOutcomeView::Call(c)) => c < p.functions.len(),
            Ok(EffectOutcomeView::Return(_)) => op == EffectOp::Return,
            _ => true,
        },
        op == EffectOp::Return ==> effect_step(p, f, op, args, fa, xe, st, xn).next_block == xn,
{
    assert(fa.len() == names(fa).len());
    assert(fb.len() == names(fb).len());
    if op == EffectOp::Call {
        if fa.len() > 0 {
            assert(names(fa)[0] == fa[0]@);
            assert(names(fb)[0] == fb[0]@);
            lemma_index_same(p, q, fa[0]@, p.functions.len() as nat);
            match p.index_of(fa[0]@) {
                Some(c) => {
                    assert(function_explicit(p.functions[c as int], q.functions[c as int]));
                    if st.scopes.len() > 0 {
                        lemma_bound_same(
                            p.functions[c as int],
                            q.functions[c as int],
                            args,
                            st.scopes.last(),
                            bound_count(p.functions[c as int], args),
                        );
                    }
                },
                None => {},
            }
        }
    }
}

/// Whether the operation is that of a terminator.
pub open spec fn is_control_op(op: EffectOp) -> bool {
    op == EffectOp::Jump || op == EffectOp::Branch || op == EffectOp::Return
}


/// The block that runs after a block unless a terminator says otherwise:
/// its exit, if it has just one.
pub open spec fn default_next(b: BasicBlock) -> Option<usize> {
    if b.exit.len() == 1 {
        Some(b.exit[0])
    } else {
        None
    }
}

/// Whether no terminator stands among the first `index` instructions of the
/// block.
pub open spec fn quiet_before(b: BasicBlock, index: int) -> bool {
    forall|i: int| 0 <= i < index && i < b.instrs.len() ==> !is_control(#[trigger] b.instrs[i])
}

/// Whether a running function of the one program and one of the other are
/// at the same place: in the same function, in the same block but for the
/// block that may stand before the blocks of the second, at the same
/// instruction, with the same value to return and the same place for it,
/// and with the next block to run moved up likewise.
///
/// The first has not left the block: it runs its block's exit next unless a
/// terminator was run; and it holds a value to return only at the end of a
/// block that ends with a return and has no block to run next.
pub open spec fn act_explicit(x: Activation, y: Activation, p: BBProgram, q: BBProgram) -> bool {
    let f = p.functions[x.func as int];
    let g = q.functions[x.func as int];
    let sh = lead(f, g);
    let b = f.blocks[x.block as int];
    &&& x.func < p.functions.len()
    &&& x.block < f.blocks.len()
    &&& x.index <= b.instrs.len()
    &&& y.func == x.func
    &&& y.block == x.block + sh
    &&& y.index == x.index
    &&& y.dest == x.dest
    &&& y.result == x.result
    &&& next_shifted(x.next_block, y.next_block, sh)
    &&& same_label(x.last_label, y.last_label)
    &&& same_label(x.current_label, y.current_label)
    &&& quiet_before(b, x.index as int) ==> x.next_block == default_next(b)
    &&& x.result is Some ==> x.index == b.instrs.len() && x.index > 0 && is_return(
        b.instrs[x.index - 1],
    ) && x.next_block is None
}

/// Whether a run of the one program and a run of the other are at the
/// same place: with the same variables and heap, waiting for the same, and
/// with running functions at the same places.
pub open spec fn runs_explicit(a: MachineView, b: MachineView, p: BBProgram, q: BBProgram) -> bool {
    &&& b.store == a.store
    &&& b.awaited == a.awaited
    &&& b.stack.len() == a.stack.len()
    &&& forall|i: int|
        0 <= i < a.stack.len() ==> #[trigger] act_explicit(a.stack[i], b.stack[i], p, q)
}

/// Whether a step of the second run answers a step of the first: it asks
/// for the same and leaves the runs at the same place.
pub open spec fn answers(sa: Stepped, sb: Stepped, p: BBProgram, q: BBProgram) -> bool {
    sb.result == sa.result && runs_explicit(sa.machine, sb.machine, p, q)
}

/// Whether the step asks for nothing.
pub open spec fn silent(s: Stepped) -> bool {
    s.result == Ok::<ActionView, crate::interp::program::PositionalInterpError>(ActionView::Continue)
}

/// Whether the second run follows a step of the first: with its next step,
/// or with its second or third after steps that ask for nothing.
pub open spec fn follows(sa: Stepped, b: MachineView, p: BBProgram, q: BBProgram) -> bool {
    let s1 = stepped(b, q);
    let s2 = stepped(s1.machine, q);
    let s3 = stepped(s2.machine, q);
    ||| answers(sa, s1, p, q)
    ||| silent(s1) && answers(sa, s2, p, q)
    ||| silent(s1) && silent(s2) && answers(sa, s3, p, q)
}

/// Whether the second run is at the place of the first after no step or
/// after two steps that ask for nothing.
pub open spec fn settles(a: MachineView, b: MachineView, p: BBProgram, q: BBProgram) -> bool {
    let s1 = stepped(b, q);
    let s2 = stepped(s1.machine, q);
    ||| runs_explicit(a, b, p, q)
    ||| silent(s1) && silent(s2) && runs_explicit(a, s2.machine, p, q)
}

/// After a call the runs are at the same place, once the second has left
/// the block that may stand before the blocks of the callee.
pub proof fn lemma_call_explicit(
    a: MachineView,
    b: MachineView,
    p: BBProgram,
    q: BBProgram,
    c: usize,
    dest: Option<u32>,
    pos: Option<crate::interp::program::Position>,
)
    requires
        program_explicit(p, q),
        runs_explicit(a, b, p, q),
        a.awaited is None,
        c < p.functions.len(),
        after_call(a, p, c, dest, pos).result is Ok,
    ensures
        after_call(b, q, c, dest, pos).result == after_call(a, p, c, dest, pos).result,
        silent(after_call(a, p, c, dest, pos)),
        settles(after_call(a, p, c, dest, pos).machine, after_call(b, q, c, dest, pos).machine, p, q),
{
    let f = p.functions[c as int];
    let g = q.functions[c as int];
    assert(function_explicit(f, g));
    let sh = lead(f, g);
    let sa = after_call(a, p, c, dest, pos).machine;
    let sb = after_call(b, q, c, dest, pos).machine;
    let x = at_block(f, called(c, dest), 0);
    let y = at_block(g, called(c, dest), 0);
    assert(block_explicit(f.blocks[0], g.blocks[0 + sh], sh, f.return_type is Some));
    if sh == 0 {
        assert(act_explicit(x, y, p, q));
        assert forall|i: int| 0 <= i < sa.stack.len() implies #[trigger] act_explicit(
            sa.stack[i],
            sb.stack[i],
            p,
            q,
        ) by {
            if i < a.stack.len() {
                assert(act_explicit(a.stack[i], b.stack[i], p, q));
            }
        }
        assert(runs_explicit(sa, sb, p, q));
    } else {
        let s1 = stepped(sb, q);
        let s2 = stepped(s1.machine, q);
        assert(sb.stack.last() == y);
        let jump = g.blocks[0].instrs[0];
        assert(is_jump(jump));
        assert(silent(s1));
        let y1 = s1.machine.stack.last();
        assert(y1.index == 1);
        assert(y1.next_block == Some(1usize));
        assert(silent(s2));
        let y2 = s2.machine.stack.last();
        assert(y2 == at_block(g, y1, 1));
        assert(act_explicit(x, y2, p, q));
        assert forall|i: int| 0 <= i < sa.stack.len() implies #[trigger] act_explicit(
            sa.stack[i],
            s2.machine.stack[i],
            p,
            q,
        ) by {
            if i < a.stack.len() {
                assert(act_explicit(a.stack[i], b.stack[i], p, q));
                assert(s2.machine.stack[i] == b.stack[i]);
            }
        }
        assert(runs_explicit(sa, s2.machine, p, q));
    }
}


/// An instruction that ends well in the one run ends in the same way in
/// the other, and leaves the runs at the same place, once the second has
/// left the block that may stand before the blocks of a callee.
pub proof fn lemma_instr_explicit(
    a: MachineView,
    b: MachineView,
    p: BBProgram,
    q: BBProgram,
    xi: Instr,
    yi: Instr,
)
    requires
        program_explicit(p, q),
        runs_explicit(a, b, p, q),
        a.awaited is None,
        a.stack.len() > 0,
        a.stack.last().index >= 1,
        a.stack.last().result is None,
        xi == p.functions[a.stack.last().func as int].blocks[a.stack.last().block as int].instrs[
            a.stack.last().index - 1],
        same_instr(xi, yi),
        quiet_before(
            p.functions[a.stack.last().func as int].blocks[a.stack.last().block as int],
            a.stack.last().index - 1,
        ) ==> a.stack.last().next_block == default_next(
            p.functions[a.stack.last().func as int].blocks[a.stack.last().block as int],
        ),
        after_instr(a, p, xi).result is Ok,
    ensures
        after_instr(b, q, yi).result == after_instr(a, p, xi).result,
        settles(after_instr(a, p, xi).machine, after_instr(b, q, yi).machine, p, q),
        !silent(after_instr(a, p, xi)) ==> runs_explicit(
            after_instr(a, p, xi).machine,
            after_instr(b, q, yi).machine,
            p,
            q,
        ),
{
    let last = a.stack.len() - 1;
    let x = a.stack.last();
    let y = b.stack.last();
    assert(act_explicit(a.stack[last], b.stack[last], p, q));
    let f = p.functions[x.func as int];
    let g = q.functions[x.func as int];
    assert(function_explicit(f, g));
    let sh = lead(f, g);
    let xb = f.blocks[x.block as int];
    let yb = g.blocks[x.block + sh];
    assert(block_explicit(xb, yb, sh, f.return_type is Some));
    let sa = after_instr(a, p, xi);
    let sb = after_instr(b, q, yi);
    match (xi, yi) {
        (
            Instr::Value { op, dest, args, labels, funcs, pos },
            Instr::Value { op: o, dest: d, args: ar, labels: l, funcs: fs, pos: ps },
        ) => {
            lemma_value_explicit(
                p,
                q,
                op,
                dest,
                args@,
                labels@,
                l@,
                funcs@,
                fs@,
                a.store,
                x.last_label,
                y.last_label,
            );
            let va = value_step(p, op, dest, args@, labels@, funcs@, a.store, x.last_label);
            let a1 = MachineView { store: va.store, ..a };
            let b1 = MachineView { store: va.store, ..b };
            assert(runs_explicit(a1, b1, p, q)) by {
                assert forall|i: int| 0 <= i < a1.stack.len() implies #[trigger] act_explicit(
                    a1.stack[i],
                    b1.stack[i],
                    p,
                    q,
                ) by {
                    assert(act_explicit(a.stack[i], b.stack[i], p, q));
                }
            }
            match va.result {
                Ok(ValueOutcome::Call(c)) => {
                    lemma_call_explicit(a1, b1, p, q, c, Some(dest), pos);
                },
                Ok(ValueOutcome::Float { .. }) => {
                    assert forall|i: int| 0 <= i < sa.machine.stack.len() implies #[trigger] act_explicit(
                        sa.machine.stack[i],
                        sb.machine.stack[i],
                        p,
                        q,
                    ) by {
                        assert(act_explicit(a.stack[i], b.stack[i], p, q));
                    }
                },
                _ => {},
            }
        },
        (
            Instr::Effect { op, args, funcs, pos },
            Instr::Effect { op: o, args: ar, funcs: fs, pos: ps },
        ) => {
            lemma_effect_explicit(
                p,
                q,
                f,
                g,
                op,
                args@,
                funcs@,
                fs@,
                xb.exit@,
                yb.exit@,
                a.store,
                x.next_block,
                y.next_block,
                sh,
            );
            let ea = effect_step(p, f, op, args@, funcs@, xb.exit@, a.store, x.next_block);
            let eb = effect_step(q, g, op, args@, fs@, yb.exit@, a.store, y.next_block);
            let oa = ea.result->Ok_0;
            let ux = Activation {
                next_block: ea.next_block,
                result: match oa {
                    EffectOutcomeView::Return(v) => v,
                    _ => None,
                },
                ..x
            };
            let uy = Activation {
                next_block: eb.next_block,
                result: match oa {
                    EffectOutcomeView::Return(v) => v,
                    _ => None,
                },
                ..y
            };
            if is_control(xi) {
                assert(x.index - 1 >= xb.instrs.len() - 1);
                assert(quiet_before(xb, x.index - 1));
            }
            assert(act_explicit(ux, uy, p, q));
            let a2 = MachineView {
                store: ea.store,
                stack: a.stack.update(last, ux),
                ..a
            };
            let b2 = MachineView {
                store: ea.store,
                stack: b.stack.update(last, uy),
                ..b
            };
            assert(runs_explicit(a2, b2, p, q)) by {
                assert forall|i: int| 0 <= i < a2.stack.len() implies #[trigger] act_explicit(
                    a2.stack[i],
                    b2.stack[i],
                    p,
                    q,
                ) by {
                    if i < last {
                        assert(act_explicit(a.stack[i], b.stack[i], p, q));
                    }
                }
            }
            match oa {
                EffectOutcomeView::Call(c) => {
                    lemma_call_explicit(a2, b2, p, q, c, None, pos);
                },
                _ => {},
            }
        },
        (Instr::Constant { .. }, Instr::Constant { .. }) => {
            assert forall|i: int| 0 <= i < sa.machine.stack.len() implies #[trigger] act_explicit(
                sa.machine.stack[i],
                sb.machine.stack[i],
                p,
                q,
            ) by {
                assert(act_explicit(a.stack[i], b.stack[i], p, q));
            }
        },
        _ => {},
    }
}

/// Whether two running functions are at the end of the same block.
pub open spec fn ends_alike(x: Activation, y: Activation, p: BBProgram, q: BBProgram) -> bool {
    let f = p.functions[x.func as int];
    let g = q.functions[x.func as int];
    let sh = lead(f, g);
    &&& x.func < p.functions.len()
    &&& x.block < f.blocks.len()
    &&& y.func == x.func
    &&& y.block == x.block + sh
    &&& y.dest == x.dest
    &&& y.result == x.result
    &&& next_shifted(x.next_block, y.next_block, sh)
    &&& same_label(x.current_label, y.current_label)
    &&& x.next_block is Some ==> x.result is None
}

/// The end of a block that ends well in the one run ends in the same way
/// in the other, and leaves the runs at the same place.
pub proof fn lemma_block_end_explicit(a: MachineView, b: MachineView, p: BBProgram, q: BBProgram)
    requires
        program_explicit(p, q),
        b.store == a.store,
        b.awaited == a.awaited,
        b.stack.len() == a.stack.len(),
        a.stack.len() > 0,
        forall|i: int|
            0 <= i < a.stack.len() - 1 ==> #[trigger] act_explicit(a.stack[i], b.stack[i], p, q),
        ends_alike(a.stack.last(), b.stack.last(), p, q),
        after_block(a, p).result is Ok,
    ensures
        answers(after_block(a, p), after_block(b, q), p, q),
{
    let last = a.stack.len() - 1;
    let x = a.stack.last();
    let y = b.stack.last();
    let f = p.functions[x.func as int];
    let g = q.functions[x.func as int];
    assert(function_explicit(f, g));
    let sh = lead(f, g);
    let sa = after_block(a, p);
    let sb = after_block(b, q);
    match x.next_block {
        Some(idx) => {
            assert(idx < f.blocks.len());
            assert(block_explicit(f.blocks[idx as int], g.blocks[idx + sh], sh, f.return_type is Some));
            let nx = at_block(f, x, idx);
            let ny = at_block(g, y, y.next_block->0);
            assert(act_explicit(nx, ny, p, q));
            assert forall|i: int| 0 <= i < sa.machine.stack.len() implies #[trigger] act_explicit(
                sa.machine.stack[i],
                sb.machine.stack[i],
                p,
                q,
            ) by {
                if i < last {
                    assert(act_explicit(a.stack[i], b.stack[i], p, q));
                }
            }
        },
        None => {
            assert forall|i: int| 0 <= i < sa.machine.stack.len() implies #[trigger] act_explicit(
                sa.machine.stack[i],
                sb.machine.stack[i],
                p,
                q,
            ) by {
                assert(act_explicit(a.stack[i], b.stack[i], p, q));
            }
        },
    }
}

/// A program with its jumps written out runs as the program without them
/// does. Where two runs are at the same place, a step of the first that
/// ends well is followed by the second: with one step that asks for the
/// same, or with two or three of which the last asks for the same and the
/// others for nothing; and then the runs are at the same place again.
pub proof fn lemma_step_explicit(a: MachineView, b: MachineView, p: BBProgram, q: BBProgram)
    requires
        program_explicit(p, q),
        runs_explicit(a, b, p, q),
        stepped(a, p).result is Ok,
    ensures
        follows(stepped(a, p), b, p, q),
{
    let sa = stepped(a, p);
    let s1 = stepped(b, q);
    let s2 = stepped(s1.machine, q);
    let s3 = stepped(s2.machine, q);
    if a.stack.len() == 0 {
        assert(answers(sa, s1, p, q));
    } else {
        let last = a.stack.len() - 1;
        let x = a.stack.last();
        let y = b.stack.last();
        assert(act_explicit(a.stack[last], b.stack[last], p, q));
        let f = p.functions[x.func as int];
        let g = q.functions[x.func as int];
        assert(function_explicit(f, g));
        let sh = lead(f, g);
        let xb = f.blocks[x.block as int];
        let yb = g.blocks[x.block + sh];
        assert(block_explicit(xb, yb, sh, f.return_type is Some));
        if x.index < xb.instrs.len() {
            let xi = xb.instrs[x.index as int];
            let yi = yb.instrs[x.index as int];
            let ux = Activation { index: (x.index + 1) as usize, ..x };
            let uy = Activation { index: (y.index + 1) as usize, ..y };
            let a1 = MachineView { stack: a.stack.update(last, ux), ..a };
            let b1 = MachineView { stack: b.stack.update(last, uy), ..b };
            assert(act_explicit(ux, uy, p, q));
            assert(runs_explicit(a1, b1, p, q)) by {
                assert forall|i: int| 0 <= i < a1.stack.len() implies #[trigger] act_explicit(
                    a1.stack[i],
                    b1.stack[i],
                    p,
                    q,
                ) by {
                    if i < last {
                        assert(act_explicit(a.stack[i], b.stack[i], p, q));
                    }
                }
            }
            lemma_instr_explicit(a1, b1, p, q, xi, yi);
            assert(s1 == after_instr(b1, q, yi));
        } else if yb.instrs.len() == xb.instrs.len() {
            assert(ends_alike(x, y, p, q));
            lemma_block_end_explicit(a, b, p, q);
            assert(answers(sa, s1, p, q));
        } else {
            assert(quiet_before(xb, x.index as int));
            assert(x.result is None);
            let yi = yb.instrs[x.index as int];
            assert(silent(s1));
            let b1 = s1.machine;
            assert(b1.stack.len() == a.stack.len());
            assert(ends_alike(x, b1.stack.last(), p, q));
            assert forall|i: int| 0 <= i < a.stack.len() - 1 implies #[trigger] act_explicit(
                a.stack[i],
                b1.stack[i],
                p,
                q,
            ) by {
                assert(act_explicit(a.stack[i], b.stack[i], p, q));
                assert(b1.stack[i] == b.stack[i]);
            }
            lemma_block_end_explicit(a, b1, p, q);
            assert(s2 == after_block(b1, q));
            assert(answers(sa, s2, p, q));
        }
    }
}


/// What the first `k` steps of a run ask for, in order, but for the steps
/// that ask for nothing.
pub open spec fn shown(m: MachineView, prog: BBProgram, k: nat) -> Seq<
    Result<ActionView, PositionalInterpError>,
>
    decreases k,
{
    if k == 0 {
        Seq::empty()
    } else {
        let prev = shown(m, prog, (k - 1) as nat);
        let r = asked(m, prog, (k - 1) as nat);
        if r == Ok::<ActionView, PositionalInterpError>(ActionView::Continue) {
            prev
        } else {
            prev.push(r)
        }
    }
}

/// Whether each of the first `k` steps of a run ends well.
pub open spec fn runs_well(m: MachineView, prog: BBProgram, k: nat) -> bool {
    forall|i: nat| i < k ==> (#[trigger] asked(m, prog, i)) is Ok
}

/// A program with its jumps written out shows what the program without
/// them shows. Where two runs are at the same place and the first takes `k`
/// steps that end well, the second comes to the same place in steps of its
/// own, and what its steps ask for is what the steps of the first ask for,
/// in order, but for the steps that ask for nothing.
pub proof fn lemma_run_explicit(
    a: MachineView,
    b: MachineView,
    p: BBProgram,
    q: BBProgram,
    k: nat,
)
    requires
        program_explicit(p, q),
        settles(a, b, p, q),
        runs_well(a, p, k),
    ensures
        exists|j: nat|
            runs_explicit(after_steps(a, p, k), #[trigger] after_steps(b, q, j), p, q) && shown(
                b,
                q,
                j,
            ) == shown(a, p, k),
    decreases k,
{
    reveal_with_fuel(after_steps, 4);
    reveal_with_fuel(shown, 4);
    if k == 0 {
        if runs_explicit(a, b, p, q) {
            assert(runs_explicit(after_steps(a, p, 0), after_steps(b, q, 0), p, q));
            assert(shown(b, q, 0) == shown(a, p, 0));
        } else {
            assert(runs_explicit(after_steps(a, p, 0), after_steps(b, q, 2), p, q));
            assert(asked(b, q, 0) == stepped(b, q).result);
            assert(asked(b, q, 1) == stepped(stepped(b, q).machine, q).result);
            assert(shown(b, q, 2) =~= shown(a, p, 0));
        }
    } else {
        let i = (k - 1) as nat;
        assert forall|n: nat| n < i implies (#[trigger] asked(a, p, n)) is Ok by {}
        lemma_run_explicit(a, b, p, q, i);
        let j = choose|j: nat|
            runs_explicit(after_steps(a, p, i), #[trigger] after_steps(b, q, j), p, q) && shown(
                b,
                q,
                j,
            ) == shown(a, p, i);
        let x = after_steps(a, p, i);
        let y = after_steps(b, q, j);
        assert(asked(a, p, i) is Ok);
        lemma_step_explicit(x, y, p, q);
        let sa = stepped(x, p);
        let s1 = stepped(y, q);
        let s2 = stepped(s1.machine, q);
        let s3 = stepped(s2.machine, q);
        assert(after_steps(b, q, j + 1) == s1.machine);
        assert(after_steps(b, q, j + 2) == s2.machine);
        assert(after_steps(b, q, j + 3) == s3.machine);
        assert(asked(b, q, j) == s1.result);
        assert(asked(b, q, j + 1) == s2.result);
        assert(asked(b, q, j + 2) == s3.result);
        assert(after_steps(a, p, k) == sa.machine);
        assert(asked(a, p, i) == sa.result);
        if answers(sa, s1, p, q) {
            assert(runs_explicit(after_steps(a, p, k), after_steps(b, q, j + 1), p, q));
            assert(shown(b, q, j + 1) == shown(a, p, k));
        } else if silent(s1) && answers(sa, s2, p, q) {
            assert(runs_explicit(after_steps(a, p, k), after_steps(b, q, j + 2), p, q));
            assert(shown(b, q, j + 1) == shown(b, q, j));
            assert(shown(b, q, j + 2) == shown(a, p, k));
        } else {
            assert(runs_explicit(after_steps(a, p, k), after_steps(b, q, j + 3), p, q));
            assert(shown(b, q, j + 1) == shown(b, q, j));
            assert(shown(b, q, j + 2) == shown(b, q, j));
            assert(shown(b, q, j + 3) == shown(a, p, k));
        }
    }
}

/// The inputs of a run give the same values to the parameters of two
/// functions with the same parameters.
pub proof fn lemma_inputs_same(
    scopes: Seq<Seq<Value>>,
    fa: Seq<Argument>,
    ga: Seq<Argument>,
    nums: Seq<u32>,
    inputs: Seq<Input>,
    k: nat,
)
    requires
        ga.len() == fa.len(),
        k <= fa.len(),
        forall|i: int| 0 <= i < fa.len() ==> (#[trigger] ga[i]).arg_type == fa[i].arg_type,
        bound_inputs(scopes, fa, nums, inputs, k) is Ok,
    ensures
        bound_inputs(scopes, ga, nums, inputs, k) == bound_inputs(scopes, fa, nums, inputs, k),
    decreases k,
{
    if k > 0 {
        lemma_inputs_same(scopes, fa, ga, nums, inputs, (k - 1) as nat);
        assert(ga[k - 1].arg_type == fa[k - 1].arg_type);
    }
}

/// Where the program without the jumps can start, the program with its
/// jumps written out can, and is then at the same place, once it has left
/// the block that may stand before the blocks of the main function.
pub proof fn lemma_start_explicit(p: BBProgram, q: BBProgram, inputs: Seq<Input>)
    requires
        program_explicit(p, q),
        started(p, inputs) is Ok,
    ensures
        started(q, inputs) is Ok,
        settles(started(p, inputs)->Ok_0, started(q, inputs)->Ok_0, p, q),
{
    lemma_index_same(p, q, "main"@, p.functions.len() as nat);
    let idx = p.index_of("main"@)->0;
    let f = p.functions[idx as int];
    let g = q.functions[idx as int];
    assert(function_explicit(f, g));
    let sh = lead(f, g);
    let scope = Seq::new(f.num_of_vars as nat, |i: int| Value::Uninitialized);
    let count = if f.args@.len() <= f.args_as_nums@.len() {
        f.args@.len()
    } else {
        f.args_as_nums@.len() as nat
    };
    if !(f.args@.len() == 0 && inputs.len() == 0) {
        lemma_inputs_same(seq![scope], f.args@, g.args@, f.args_as_nums@, inputs, count);
    }
    let a = started(p, inputs)->Ok_0;
    let b = started(q, inputs)->Ok_0;
    let x = at_block(f, called(idx, None), 0);
    let y = at_block(g, called(idx, None), 0);
    assert(block_explicit(f.blocks[0], g.blocks[0 + sh], sh, f.return_type is Some));
    if sh == 0 {
        assert(act_explicit(x, y, p, q));
        assert(act_explicit(a.stack[0], b.stack[0], p, q));
        assert(runs_explicit(a, b, p, q));
    } else {
        let s1 = stepped(b, q);
        let s2 = stepped(s1.machine, q);
        assert(b.stack.last() == y);
        assert(is_jump(g.blocks[0].instrs[0]));
        assert(silent(s1));
        let y1 = s1.machine.stack.last();
        assert(y1.index == 1);
        assert(y1.next_block == Some(1usize));
        assert(silent(s2));
        let y2 = s2.machine.stack.last();
        assert(y2 == at_block(g, y1, 1));
        assert(act_explicit(x, y2, p, q));
        assert(act_explicit(a.stack[0], s2.machine.stack[0], p, q));
        assert(runs_explicit(a, s2.machine, p, q));
    }
}

} // verus!
