//! Counting the additions of a program.
use crate::fresh::{decimal, decimal_string};
use crate::ir::{codes, is_str, Code, CodeView, InstrView, Instruction, Program};
use vstd::prelude::*;
use vstd::string::*;

verus! {

/// Whether the item is an addition: an operation `add` with a destination.
pub open spec fn is_addition(c: CodeView) -> bool {
    match c {
        CodeView::Instruction(InstrView::Value { op, .. }) => op == "add"@,
        _ => false,
    }
}

/// The number of additions among the first `k` items.
pub open spec fn additions(items: Seq<CodeView>, k: nat) -> nat
    decreases k,
{
    if k == 0 {
        0
    } else {
        additions(items, (k - 1) as nat) + if is_addition(items[k - 1]) {
            1nat
        } else {
            0nat
        }
    }
}

/// The number of additions in the first `k` functions.
pub open spec fn program_additions(program: Program, k: nat) -> nat
    decreases k,
{
    if k == 0 {
        0
    } else {
        program_additions(program, (k - 1) as nat) + additions(
            codes(program.functions[k - 1].instrs@),
            program.functions[k - 1].instrs.len() as nat,
        )
    }
}

/// One for an addition, zero for any other instruction.
pub fn is_add(instr: &Instruction) -> (r: i32)
    ensures
        r == if is_addition(CodeView::Instruction(instr@)) {
            1int
        } else {
            0int
        },
{
    match instr {
        Instruction::Value { op, .. } => if is_str(op, "add") {
            1
        } else {
            0
        },
        _ => 0,
    }
}

/// The number of additions in a program.
pub fn count_adds(program: &Program) -> (n: u128)
    ensures
        n == program_additions(*program, program.functions.len() as nat),
{
    let mut total: u128 = 0;
    let mut f: usize = 0;
    while f < program.functions.len()
        invariant
            f <= program.functions.len(),
            total == program_additions(*program, f as nat),
            total <= f * 0x1_0000_0000_0000_0000,
        decreases program.functions.len() - f,
    {
        let instrs = &program.functions[f].instrs;
        let ghost items = codes(instrs@);
        let mut count: u64 = 0;
        let mut i: usize = 0;
        while i < instrs.len()
            invariant
                i <= instrs.len(),
                items == codes(instrs@),
                count == additions(items, i as nat),
                count <= i,
            decreases instrs.len() - i,
        {
            assert(items[i as int] == instrs[i as int]@);
            if let Code::Instruction(instr) = &instrs[i] {
                if is_add(instr) == 1 {
                    count += 1;
                }
            }
            i += 1;
        }
        assert((f + 1) * 0x1_0000_0000_0000_0000 == f * 0x1_0000_0000_0000_0000
            + 0x1_0000_0000_0000_0000) by (nonlinear_arith);
        total += count as u128;
        f += 1;
    }
    total
}

/// The sentence that tells the number of additions.
pub open spec fn report_text(n: nat) -> Seq<char> {
    if n == 1 {
        "Program contains 1 add instruction"@
    } else {
        "Program contains "@ + decimal(n) + " add instructions"@
    }
}

/// The sentence that tells the number of additions.
pub fn report(n: u128) -> (text: String)
    ensures
        text@ == report_text(n as nat),
{
    if n == 1 {
        String::from_str("Program contains 1 add instruction")
    } else {
        let mut text = String::from_str("Program contains ");
        let digits = decimal_string(n);
        text.append(digits.as_str());
        text.append(" add instructions");
        text
    }
}

} // verus!
