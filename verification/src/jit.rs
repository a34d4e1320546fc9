//! The driver of a tracing just-in-time compiler: a recorded trace is cut
//! at its first side effect, turned into guarded straight-line code, and
//! put before the body of the main function.
use crate::ir::{
    codes, effect, is_str, names, Code, CodeView, Function, InstrView, Instruction, Literal,
    Program, Type,
};
use vstd::prelude::*;
use vstd::string::*;

verus! {

/// An instruction of a trace, with the line of the main function that it
/// was recorded at.
#[derive(Debug)]
pub struct TraceItem {
    pub instr: Instruction,
    pub line_num: i64,
}

/// Whether the operation has an effect that cannot be undone: `print`,
/// `call`, `store`, `alloc` or `free`.
pub open spec fn has_side_effect(instr: InstrView) -> bool {
    match instr {
        InstrView::Constant { .. } => false,
        _ => instr.op() == "print"@ || instr.op() == "call"@ || instr.op() == "store"@
            || instr.op() == "alloc"@ || instr.op() == "free"@,
    }
}

/// The place of the first item with a side effect among the first `k`
/// items, if there is one.
pub open spec fn first_effect(trace: Seq<TraceItem>, k: nat) -> Option<int>
    decreases k,
{
    if k == 0 {
        None
    } else {
        match first_effect(trace, (k - 1) as nat) {
            Some(i) => Some(i),
            None => if has_side_effect(trace[k - 1].instr@) {
                Some(k - 1)
            } else {
                None
            },
        }
    }
}

/// The number of items of a trace that are kept: those up to and including
/// the first with a side effect, or all of them where none has one.
pub open spec fn kept_len(trace: Seq<TraceItem>) -> nat {
    match first_effect(trace, trace.len()) {
        Some(i) => (i + 1) as nat,
        None => trace.len(),
    }
}

/// A side effect found among the first items is the first among more.
pub proof fn lemma_effect_found(trace: Seq<TraceItem>, i: nat, k: nat)
    requires
        i < k <= trace.len(),
        first_effect(trace, i) is None,
        has_side_effect(trace[i as int].instr@),
    ensures
        first_effect(trace, k) == Some(i as int),
    decreases k,
{
    if k > i + 1 {
        lemma_effect_found(trace, i, (k - 1) as nat);
    }
}

fn side_effect(instr: &Instruction) -> (r: bool)
    ensures
        r == has_side_effect(instr@),
{
    match instr {
        Instruction::Constant { .. } => false,
        Instruction::Value { op, .. } | Instruction::Effect { op, .. } => is_str(op, "print")
            || is_str(op, "call") || is_str(op, "store") || is_str(op, "alloc") || is_str(
            op,
            "free",
        ),
    }
}

/// Cuts the trace after its first instruction with a side effect.
pub fn cutoff_trace(trace: Vec<TraceItem>) -> (new_trace: Vec<TraceItem>)
    ensures
        new_trace.len() == kept_len(trace@),
        forall|i: int|
            0 <= i < new_trace.len() ==> (#[trigger] new_trace[i]).instr@ == trace[i].instr@
                && new_trace[i].line_num == trace[i].line_num,
{
    let mut new_trace: Vec<TraceItem> = Vec::new();
    let mut i: usize = 0;
    while i < trace.len()
        invariant
            i <= trace.len(),
            new_trace.len() == i,
            first_effect(trace@, i as nat) is None,
            forall|k: int|
                0 <= k < i ==> (#[trigger] new_trace[k]).instr@ == trace[k].instr@
                    && new_trace[k].line_num == trace[k].line_num,
        decreases trace.len() - i,
    {
        let stop = side_effect(&trace[i].instr);
        new_trace.push(TraceItem { instr: trace[i].instr.clone(), line_num: trace[i].line_num });
        if stop {
            proof {
                lemma_effect_found(trace@, i as nat, trace.len() as nat);
            }
            return new_trace;
        }
        i += 1;
    }
    new_trace
}

/// The index of the last function named `main` among the first `k`
/// functions, if there is one.
pub open spec fn last_main(functions: Seq<Function>, k: nat) -> Option<int>
    decreases k,
{
    if k == 0 {
        None
    } else if functions[k - 1].name@ == "main"@ {
        Some(k - 1)
    } else {
        last_main(functions, (k - 1) as nat)
    }
}

fn find_main(program: &Program) -> (r: Option<usize>)
    ensures
        match r {
            Some(i) => last_main(program.functions@, program.functions.len() as nat) == Some(
                i as int,
            ) && i < program.functions.len(),
            None => last_main(program.functions@, program.functions.len() as nat) is None,
        },
{
    let mut k: usize = program.functions.len();
    while k > 0
        invariant
            k <= program.functions.len(),
            last_main(program.functions@, program.functions.len() as nat) == last_main(
                program.functions@,
                k as nat,
            ),
        decreases k,
    {
        k -= 1;
        if is_str(&program.functions[k].name, "main") {
            return Some(k);
        }
    }
    None
}

/// Whether the end of a trace can be marked in the program: the trace is
/// not empty, the program has a function `main`, and the line of the last
/// item of the trace is a place in the body of `main`.
pub open spec fn can_mark(program: Program, trace: Seq<TraceItem>) -> bool {
    &&& trace.len() > 0
    &&& last_main(program.functions@, program.functions.len() as nat) is Some
    &&& 0 <= trace.last().line_num <= program.functions[last_main(
        program.functions@,
        program.functions.len() as nat,
    )->0].instrs.len()
}

/// Marks the end of the trace: the label `traceend` is put into the body of
/// `main` at the line of the last item of the trace, and that item leaves
/// the trace. Returns whether the end could be marked; if not, nothing
/// changes.
pub fn insert_trace_end_label(program: &mut Program, trace: &mut Vec<TraceItem>) -> (ok: bool)
    ensures
        ok == can_mark(*old(program), old(trace)@),
        !ok ==> *final(program) == *old(program) && *final(trace) == *old(trace),
        ok ==> {
            let m = last_main(old(program).functions@, old(program).functions.len() as nat)->0;
            let loc = old(trace)@.last().line_num as int;
            &&& final(trace)@ == old(trace)@.drop_last()
            &&& final(program).functions.len() == old(program).functions.len()
            &&& forall|i: int|
                0 <= i < old(program).functions.len() && i != m ==> final(program).functions[i]
                    == old(program).functions[i]
            &&& final(program).functions[m].name == old(program).functions[m].name
            &&& final(program).functions[m].args == old(program).functions[m].args
            &&& final(program).functions[m].return_type == old(program).functions[m].return_type
            &&& codes(final(program).functions[m].instrs@) == codes(
                old(program).functions[m].instrs@,
            ).insert(loc, CodeView::Label { label: "traceend"@ })
        },
{
    if trace.len() == 0 {
        return false;
    }
    let loc = trace[trace.len() - 1].line_num;
    let m = match find_main(program) {
        Some(m) => m,
        None => {
            return false;
        },
    };
    if loc < 0 || loc as u64 > program.functions[m].instrs.len() as u64 {
        return false;
    }
    let ghost before = codes(program.functions[m as int].instrs@);
    program.functions[m].instrs.insert(
        loc as usize,
        Code::Label { label: String::from_str("traceend") },
    );
    assert(codes(program.functions[m as int].instrs@) =~= before.insert(
        loc as int,
        CodeView::Label { label: "traceend"@ },
    ));
    trace.pop();
    true
}

/// The instructions of a trace, without their lines.
pub fn strip_trace_line_num(trace: Vec<TraceItem>) -> (instrs: Vec<Instruction>)
    ensures
        instrs.len() == trace.len(),
        forall|i: int| 0 <= i < instrs.len() ==> (#[trigger] instrs[i])@ == trace[i].instr@,
{
    let mut instrs: Vec<Instruction> = Vec::new();
    let mut i: usize = 0;
    while i < trace.len()
        invariant
            i <= trace.len(),
            instrs.len() == i,
            forall|k: int| 0 <= k < i ==> (#[trigger] instrs[k])@ == trace[k].instr@,
        decreases trace.len() - i,
    {
        instrs.push(trace[i].instr.clone());
        i += 1;
    }
    instrs
}

/// An effect without arguments, labels and functions.
pub open spec fn bare(op: Seq<char>) -> CodeView {
    CodeView::Instruction(
        InstrView::Effect { op, args: Seq::empty(), labels: Seq::empty(), funcs: Seq::empty() },
    )
}

/// The guard that stands for a branch on a trace: it tests the condition
/// of the branch and leaves the trace for `abort` where the test fails.
pub open spec fn guard_of(args: Seq<Seq<char>>) -> CodeView {
    CodeView::Instruction(
        InstrView::Effect {
            op: "guard"@,
            args: if args.len() > 0 {
                seq![args[0]]
            } else {
                Seq::empty()
            },
            labels: seq!["abort"@],
            funcs: Seq::empty(),
        },
    )
}

/// The first `k` instructions of a trace as straight-line code: a jump is
/// dropped, a branch becomes a guard, and every other instruction stays.
pub open spec fn straight(trace: Seq<InstrView>, k: nat) -> Seq<CodeView>
    decreases k,
{
    if k == 0 {
        Seq::empty()
    } else {
        let prev = straight(trace, (k - 1) as nat);
        match trace[k - 1] {
            InstrView::Effect { op, args, .. } => if op == "jmp"@ {
                prev
            } else if op == "br"@ {
                prev.push(guard_of(args))
            } else {
                prev.push(CodeView::Instruction(trace[k - 1]))
            },
            other => prev.push(CodeView::Instruction(other)),
        }
    }
}

/// The models of a list of instructions.
pub open spec fn instr_views(v: Seq<Instruction>) -> Seq<InstrView> {
    v.map_values(|i: Instruction| i@)
}

/// The code that a trace becomes: `speculate`, the trace as straight-line
/// code, `commit`, a jump to `traceend`, and the label `abort`.
pub open spec fn trace_code(trace: Seq<InstrView>) -> Seq<CodeView> {
    seq![bare("speculate"@)] + straight(trace, trace.len()) + seq![
        bare("commit"@),
        CodeView::Instruction(crate::cfg::jmp_view("traceend"@)),
        CodeView::Label { label: "abort"@ },
    ]
}

/// Turns a trace into guarded straight-line code.
pub fn convert_trace_to_straight_line(trace: Vec<Instruction>) -> (code: Vec<Code>)
    ensures
        codes(code@) == trace_code(instr_views(trace@)),
{
    let ghost views = instr_views(trace@);
    let mut code: Vec<Code> = Vec::new();
    code.push(Code::Instruction(effect("speculate", Vec::new())));
    proof {
        assert(names(Seq::<String>::empty()) =~= Seq::<Seq<char>>::empty());
        assert(codes(code@) =~= seq![bare("speculate"@)] + straight(views, 0));
    }
    let mut i: usize = 0;
    while i < trace.len()
        invariant
            i <= trace.len(),
            views == instr_views(trace@),
            codes(code@) == seq![bare("speculate"@)] + straight(views, i as nat),
        decreases trace.len() - i,
    {
        let ghost before = codes(code@);
        assert(views[i as int] == trace[i as int]@);
        let item = match &trace[i] {
            Instruction::Effect { op, args, .. } => {
                if is_str(op, "jmp") {
                    None
                } else if is_str(op, "br") {
                    let mut cond: Vec<String> = Vec::new();
                    if args.len() > 0 {
                        cond.push(args[0].clone());
                        assert(names(cond@) =~= seq![args[0]@]);
                        assert(names(args@)[0] == args[0]@);
                    } else {
                        assert(names(cond@) =~= Seq::<Seq<char>>::empty());
                    }
                    let mut labels: Vec<String> = Vec::new();
                    labels.push(String::from_str("abort"));
                    assert(names(labels@) =~= seq!["abort"@]);
                    let funcs: Vec<String> = Vec::new();
                    assert(names(funcs@) =~= Seq::<Seq<char>>::empty());
                    Some(
                        Code::Instruction(
                            Instruction::Effect {
                                op: String::from_str("guard"),
                                args: cond,
                                funcs,
                                labels,
                            },
                        ),
                    )
                } else {
                    Some(Code::Instruction(trace[i].clone()))
                }
            },
            _ => Some(Code::Instruction(trace[i].clone())),
        };
        if let Some(item) = item {
            code.push(item);
            assert(codes(code@) =~= before.push(item@));
        }
        proof {
            assert(codes(code@) =~= seq![bare("speculate"@)] + straight(views, (i + 1) as nat));
        }
        i += 1;
    }
    let ghost body = codes(code@);
    code.push(Code::Instruction(effect("commit", Vec::new())));
    let mut target: Vec<String> = Vec::new();
    target.push(String::from_str("traceend"));
    assert(names(target@) =~= seq!["traceend"@]);
    code.push(Code::Instruction(effect("jmp", target)));
    code.push(Code::Label { label: String::from_str("abort") });
    assert(codes(code@) =~= body + seq![
        bare("commit"@),
        CodeView::Instruction(crate::cfg::jmp_view("traceend"@)),
        CodeView::Label { label: "abort"@ },
    ]);
    code
}

/// Puts the code of a trace before the body of a function.
pub fn insert_trace(program: &mut Function, trace: Vec<Code>)
    ensures
        codes(final(program).instrs@) == codes(trace@) + codes(old(program).instrs@),
        final(program).name == old(program).name,
        final(program).args == old(program).args,
        final(program).return_type == old(program).return_type,
{
    let mut trace = trace;
    let ghost head = codes(trace@);
    let ghost body = codes(program.instrs@);
    let mut i: usize = 0;
    while i < program.instrs.len()
        invariant
            i <= program.instrs.len(),
            program.instrs == old(program).instrs,
            program.name == old(program).name,
            program.args == old(program).args,
            program.return_type == old(program).return_type,
            body == codes(program.instrs@),
            codes(trace@) == head + body.take(i as int),
        decreases program.instrs.len() - i,
    {
        let ghost cur = codes(trace@);
        trace.push(program.instrs[i].clone());
        assert(codes(trace@) =~= cur.push(body[i as int]));
        assert(body.take(i + 1) =~= body.take(i as int).push(body[i as int]));
        i += 1;
    }
    assert(body.take(i as int) =~= body);
    program.instrs = trace;
}

/// The code that ends a body with a way out for an aborted trace: a jump to
/// `exit`, and under `abort` the printing of a marker value.
pub open spec fn abort_code() -> Seq<CodeView> {
    seq![
        CodeView::Instruction(crate::cfg::jmp_view("exit"@)),
        CodeView::Label { label: "abort"@ },
        CodeView::Instruction(
            InstrView::Constant {
                dest: "fourtytwo"@,
                const_type: Some(Type::Int),
                value: Literal::Int(42),
            },
        ),
        CodeView::Instruction(
            InstrView::Effect {
                op: "print"@,
                args: seq!["fourtytwo"@],
                labels: Seq::empty(),
                funcs: Seq::empty(),
            },
        ),
        CodeView::Label { label: "exit"@ },
    ]
}

/// Ends a body with a way out for an aborted trace.
pub fn add_abort(code: Vec<Code>) -> (r: Vec<Code>)
    ensures
        codes(r@) == codes(code@) + abort_code(),
{
    let mut code = code;
    let ghost before = codes(code@);
    let mut target: Vec<String> = Vec::new();
    target.push(String::from_str("exit"));
    assert(names(target@) =~= seq!["exit"@]);
    code.push(Code::Instruction(effect("jmp", target)));
    code.push(Code::Label { label: String::from_str("abort") });
    code.push(
        Code::Instruction(
            Instruction::Constant {
                dest: String::from_str("fourtytwo"),
                const_type: Some(Type::Int),
                value: Literal::Int(42),
            },
        ),
    );
    let mut args: Vec<String> = Vec::new();
    args.push(String::from_str("fourtytwo"));
    assert(names(args@) =~= seq!["fourtytwo"@]);
    let none: Vec<String> = Vec::new();
    assert(names(none@) =~= Seq::<Seq<char>>::empty());
    code.push(
        Code::Instruction(
            Instruction::Effect {
                op: String::from_str("print"),
                args,
                labels: none,
                funcs: Vec::new(),
            },
        ),
    );
    code.push(Code::Label { label: String::from_str("exit") });
    assert(codes(code@) =~= before + abort_code());
    code
}

} // verus!
