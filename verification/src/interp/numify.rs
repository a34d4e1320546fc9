//! The passage from a program as it is written, with variables and labels
//! by name, to the program that the interpreter runs, with variables as
//! dense numbers and the exits of every block by index.
use crate::df::{args_of, dest_of};
use crate::form_blocks::{block_views, blocks_of, form_blocks, Block};
use crate::interp::program::{
    BBFunction, BBProgram, BasicBlock, EffectOp, Instr, ValueOp,
};
use crate::ir::{
    clone_names, clone_type, codes, is_str, names, Argument, Code, CodeView, Function, InstrView,
    Instruction, Program,
};
use vstd::prelude::*;
use vstd::string::*;

verus! {

/// The operation with a destination that a name stands for.
pub open spec fn value_op_named(s: Seq<char>) -> Option<ValueOp> {
    if s == "add"@ {
        Some(ValueOp::Add)
    } else if s == "mul"@ {
        Some(ValueOp::Mul)
    } else if s == "sub"@ {
        Some(ValueOp::Sub)
    } else if s == "div"@ {
        Some(ValueOp::Div)
    } else if s == "eq"@ {
        Some(ValueOp::Eq)
    } else if s == "lt"@ {
        Some(ValueOp::Lt)
    } else if s == "gt"@ {
        Some(ValueOp::Gt)
    } else if s == "le"@ {
        Some(ValueOp::Le)
    } else if s == "ge"@ {
        Some(ValueOp::Ge)
    } else if s == "not"@ {
        Some(ValueOp::Not)
    } else if s == "and"@ {
        Some(ValueOp::And)
    } else if s == "or"@ {
        Some(ValueOp::Or)
    } else if s == "id"@ {
        Some(ValueOp::Id)
    } else if s == "fadd"@ {
        Some(ValueOp::Fadd)
    } else if s == "fmul"@ {
        Some(ValueOp::Fmul)
    } else if s == "fsub"@ {
        Some(ValueOp::Fsub)
    } else if s == "fdiv"@ {
        Some(ValueOp::Fdiv)
    } else if s == "feq"@ {
        Some(ValueOp::Feq)
    } else if s == "flt"@ {
        Some(ValueOp::Flt)
    } else if s == "fgt"@ {
        Some(ValueOp::Fgt)
    } else if s == "fle"@ {
        Some(ValueOp::Fle)
    } else if s == "fge"@ {
        Some(ValueOp::Fge)
    } else if s == "call"@ {
        Some(ValueOp::Call)
    } else if s == "phi"@ {
        Some(ValueOp::Phi)
    } else if s == "alloc"@ {
        Some(ValueOp::Alloc)
    } else if s == "load"@ {
        Some(ValueOp::Load)
    } else if s == "ptradd"@ {
        Some(ValueOp::PtrAdd)
    } else {
        None
    }
}

/// The operation without a destination that a name stands for.
pub open spec fn effect_op_named(s: Seq<char>) -> Option<EffectOp> {
    if s == "jmp"@ {
        Some(EffectOp::Jump)
    } else if s == "br"@ {
        Some(EffectOp::Branch)
    } else if s == "ret"@ {
        Some(EffectOp::Return)
    } else if s == "print"@ {
        Some(EffectOp::Print)
    } else if s == "nop"@ {
        Some(EffectOp::Nop)
    } else if s == "call"@ {
        Some(EffectOp::Call)
    } else if s == "store"@ {
        Some(EffectOp::Store)
    } else if s == "free"@ {
        Some(EffectOp::Free)
    } else if s == "speculate"@ {
        Some(EffectOp::Speculate)
    } else if s == "commit"@ {
        Some(EffectOp::Commit)
    } else if s == "guard"@ {
        Some(EffectOp::Guard)
    } else {
        None
    }
}

/// The operation with a destination that a name stands for.
pub fn value_op_of(op: &String) -> (r: Option<ValueOp>)
    ensures
        r == value_op_named(op@),
{
    if is_str(op, "add") {
        Some(ValueOp::Add)
    } else if is_str(op, "mul") {
        Some(ValueOp::Mul)
    } else if is_str(op, "sub") {
        Some(ValueOp::Sub)
    } else if is_str(op, "div") {
        Some(ValueOp::Div)
    } else if is_str(op, "eq") {
        Some(ValueOp::Eq)
    } else if is_str(op, "lt") {
        Some(ValueOp::Lt)
    } else if is_str(op, "gt") {
        Some(ValueOp::Gt)
    } else if is_str(op, "le") {
        Some(ValueOp::Le)
    } else if is_str(op, "ge") {
        Some(ValueOp::Ge)
    } else if is_str(op, "not") {
        Some(ValueOp::Not)
    } else if is_str(op, "and") {
        Some(ValueOp::And)
    } else if is_str(op, "or") {
        Some(ValueOp::Or)
    } else if is_str(op, "id") {
        Some(ValueOp::Id)
    } else if is_str(op, "fadd") {
        Some(ValueOp::Fadd)
    } else if is_str(op, "fmul") {
        Some(ValueOp::Fmul)
    } else if is_str(op, "fsub") {
        Some(ValueOp::Fsub)
    } else if is_str(op, "fdiv") {
        Some(ValueOp::Fdiv)
    } else if is_str(op, "feq") {
        Some(ValueOp::Feq)
    } else if is_str(op, "flt") {
        Some(ValueOp::Flt)
    } else if is_str(op, "fgt") {
        Some(ValueOp::Fgt)
    } else if is_str(op, "fle") {
        Some(ValueOp::Fle)
    } else if is_str(op, "fge") {
        Some(ValueOp::Fge)
    } else if is_str(op, "call") {
        Some(ValueOp::Call)
    } else if is_str(op, "phi") {
        Some(ValueOp::Phi)
    } else if is_str(op, "alloc") {
        Some(ValueOp::Alloc)
    } else if is_str(op, "load") {
        Some(ValueOp::Load)
    } else if is_str(op, "ptradd") {
        Some(ValueOp::PtrAdd)
    } else {
        None
    }
}

/// The operation without a destination that a name stands for.
pub fn effect_op_of(op: &String) -> (r: Option<EffectOp>)
    ensures
        r == effect_op_named(op@),
{
    if is_str(op, "jmp") {
        Some(EffectOp::Jump)
    } else if is_str(op, "br") {
        Some(EffectOp::Branch)
    } else if is_str(op, "ret") {
        Some(EffectOp::Return)
    } else if is_str(op, "print") {
        Some(EffectOp::Print)
    } else if is_str(op, "nop") {
        Some(EffectOp::Nop)
    } else if is_str(op, "call") {
        Some(EffectOp::Call)
    } else if is_str(op, "store") {
        Some(EffectOp::Store)
    } else if is_str(op, "free") {
        Some(EffectOp::Free)
    } else if is_str(op, "speculate") {
        Some(EffectOp::Speculate)
    } else if is_str(op, "commit") {
        Some(EffectOp::Commit)
    } else if is_str(op, "guard") {
        Some(EffectOp::Guard)
    } else {
        None
    }
}

/// The place of the first occurrence of a name among the first `k` names,
/// if it is there.
pub open spec fn name_place(table: Seq<Seq<char>>, name: Seq<char>, k: nat) -> Option<int>
    decreases k,
{
    if k == 0 {
        None
    } else {
        match name_place(table, name, (k - 1) as nat) {
            Some(i) => Some(i),
            None => if table[k - 1] == name {
                Some(k - 1)
            } else {
                None
            },
        }
    }
}

/// The number of a variable: the place of its name in the table.
pub open spec fn var_num(table: Seq<Seq<char>>, name: Seq<char>) -> Option<int> {
    name_place(table, name, table.len())
}

/// A name found among the first names is the one found among more.
pub proof fn lemma_name_found(table: Seq<Seq<char>>, name: Seq<char>, i: nat, k: nat)
    requires
        i < k <= table.len(),
        name_place(table, name, i) is None,
        table[i as int] == name,
    ensures
        name_place(table, name, k) == Some(i as int),
    decreases k,
{
    if k > i + 1 {
        lemma_name_found(table, name, i, (k - 1) as nat);
    }
}

/// The number of a variable, if the table has its name.
pub fn lookup_var(table: &Vec<String>, name: &String) -> (r: Option<usize>)
    ensures
        match r {
            Some(i) => var_num(names(table@), name@) == Some(i as int) && i < table.len(),
            None => var_num(names(table@), name@) is None,
        },
{
    let mut i: usize = 0;
    let ghost t = names(table@);
    while i < table.len()
        invariant
            i <= table.len(),
            t == names(table@),
            name_place(t, name@, i as nat) is None,
        decreases table.len() - i,
    {
        assert(t[i as int] == table[i as int]@);
        if table[i] == *name {
            proof {
                lemma_name_found(t, name@, i as nat, t.len());
            }
            return Some(i);
        }
        i += 1;
    }
    None
}

/// The table with a name added unless the table has it.
pub open spec fn with_var(table: Seq<Seq<char>>, name: Seq<char>) -> Seq<Seq<char>> {
    if var_num(table, name) is Some {
        table
    } else {
        table.push(name)
    }
}

/// The table with the first `k` of the names added, in order.
pub open spec fn with_vars(table: Seq<Seq<char>>, list: Seq<Seq<char>>, k: nat) -> Seq<Seq<char>>
    decreases k,
{
    if k == 0 {
        table
    } else {
        with_var(with_vars(table, list, (k - 1) as nat), list[k - 1])
    }
}

/// The table after the variables of an item were added: its arguments in
/// order, then its destination.
pub open spec fn with_item(table: Seq<Seq<char>>, item: CodeView) -> Seq<Seq<char>> {
    let read = with_vars(table, args_of(item), args_of(item).len());
    match dest_of(item) {
        Some(d) => with_var(read, d),
        None => read,
    }
}

/// The table after the parameters and the variables of the first `k` items
/// of the body were added.
pub open spec fn var_table(params: Seq<Seq<char>>, items: Seq<CodeView>, k: nat) -> Seq<Seq<char>>
    decreases k,
{
    if k == 0 {
        with_vars(Seq::empty(), params, params.len())
    } else {
        with_item(var_table(params, items, (k - 1) as nat), items[k - 1])
    }
}

fn add_var(table: &mut Vec<String>, name: &String)
    ensures
        names(final(table)@) == with_var(names(old(table)@), name@),
{
    if lookup_var(table, name).is_none() {
        let ghost before = names(table@);
        table.push(name.clone());
        assert(names(table@) =~= before.push(name@));
    }
}

fn add_vars(table: &mut Vec<String>, list: &Vec<String>)
    ensures
        names(final(table)@) == with_vars(names(old(table)@), names(list@), list.len() as nat),
{
    let ghost start = names(table@);
    let mut k: usize = 0;
    while k < list.len()
        invariant
            k <= list.len(),
            names(table@) == with_vars(start, names(list@), k as nat),
        decreases list.len() - k,
    {
        assert(names(list@)[k as int] == list[k as int]@);
        add_var(table, &list[k]);
        k += 1;
    }
}

/// The names of all variables of a function, each at the place of its
/// number: the parameters first, then the variables of the body in the order
/// in which they first occur.
pub fn variables(func: &Function) -> (table: Vec<String>)
    ensures
        names(table@) == var_table(
            crate::ssa::param_names(func.args@),
            codes(func.instrs@),
            func.instrs.len() as nat,
        ),
{
    let mut table: Vec<String> = Vec::new();
    let ghost params = crate::ssa::param_names(func.args@);
    let ghost items = codes(func.instrs@);
    let mut p: usize = 0;
    assert(names(table@) =~= Seq::<Seq<char>>::empty());
    while p < func.args.len()
        invariant
            p <= func.args.len(),
            params == crate::ssa::param_names(func.args@),
            names(table@) == with_vars(Seq::empty(), params, p as nat),
        decreases func.args.len() - p,
    {
        assert(params[p as int] == func.args[p as int].name@);
        add_var(&mut table, &func.args[p].name);
        p += 1;
    }
    let mut k: usize = 0;
    while k < func.instrs.len()
        invariant
            k <= func.instrs.len(),
            params == crate::ssa::param_names(func.args@),
            items == codes(func.instrs@),
            names(table@) == var_table(params, items, k as nat),
        decreases func.instrs.len() - k,
    {
        assert(items[k as int] == func.instrs[k as int]@);
        let ghost before = names(table@);
        if let Code::Instruction(instr) = &func.instrs[k] {
            match instr {
                Instruction::Constant { dest, .. } => {
                    assert(args_of(items[k as int]) =~= Seq::<Seq<char>>::empty());
                    add_var(&mut table, dest);
                },
                Instruction::Value { args, dest, .. } => {
                    add_vars(&mut table, args);
                    add_var(&mut table, dest);
                },
                Instruction::Effect { args, .. } => {
                    add_vars(&mut table, args);
                },
            }
        } else {
            assert(args_of(items[k as int]) =~= Seq::<Seq<char>>::empty());
        }
        k += 1;
    }
    table
}


/// Why a program cannot be made ready for the interpreter.
#[derive(Debug)]
pub enum NumifyError {
    /// An operation is not one of the language.
    UnknownOp(String),
    /// A constant has no type.
    MissingType(String),
    /// A variable has no number.
    UnknownVar(String),
    /// A terminator names a label that no block bears.
    UnknownLabel(String),
    /// The function has more variables than numbers.
    TooManyVars,
}

/// The model of a [`NumifyError`].
pub enum Fault {
    UnknownOp(Seq<char>),
    MissingType(Seq<char>),
    UnknownVar(Seq<char>),
    UnknownLabel(Seq<char>),
    TooManyVars,
}

impl View for NumifyError {
    type V = Fault;

    open spec fn view(&self) -> Fault {
        match self {
            NumifyError::UnknownOp(s) => Fault::UnknownOp(s@),
            NumifyError::MissingType(s) => Fault::MissingType(s@),
            NumifyError::UnknownVar(s) => Fault::UnknownVar(s@),
            NumifyError::UnknownLabel(s) => Fault::UnknownLabel(s@),
            NumifyError::TooManyVars => Fault::TooManyVars,
        }
    }
}

/// The number of a variable as the interpreter holds it.
pub open spec fn as_num(table: Seq<Seq<char>>, name: Seq<char>) -> Option<u32> {
    match var_num(table, name) {
        Some(i) => if i <= u32::MAX {
            Some(i as u32)
        } else {
            None
        },
        None => None,
    }
}

/// Whether the numbers are those of the names, one for one.
pub open spec fn nums_match(table: Seq<Seq<char>>, list: Seq<Seq<char>>, nums: Seq<u32>) -> bool {
    nums.len() == list.len() && forall|i: int|
        0 <= i < list.len() ==> as_num(table, #[trigger] list[i]) == Some(nums[i])
}

/// Whether every name has a number.
pub open spec fn all_numbered(table: Seq<Seq<char>>, list: Seq<Seq<char>>) -> bool {
    forall|i: int| 0 <= i < list.len() ==> as_num(table, #[trigger] list[i]) is Some
}

/// The first name among the first `k` that has no number, if there is one.
pub open spec fn first_unnumbered(table: Seq<Seq<char>>, list: Seq<Seq<char>>, k: nat) -> Option<
    Seq<char>,
>
    decreases k,
{
    if k == 0 {
        None
    } else {
        match first_unnumbered(table, list, (k - 1) as nat) {
            Some(x) => Some(x),
            None => if as_num(table, list[k - 1]) is None {
                Some(list[k - 1])
            } else {
                None
            },
        }
    }
}

/// A name without a number that is the first among the first names is the
/// first among more.
pub proof fn lemma_unnumbered_found(table: Seq<Seq<char>>, list: Seq<Seq<char>>, i: nat, k: nat)
    requires
        i < k <= list.len(),
        first_unnumbered(table, list, i) is None,
        as_num(table, list[i as int]) is None,
    ensures
        first_unnumbered(table, list, k) == Some(list[i as int]),
    decreases k,
{
    if k > i + 1 {
        lemma_unnumbered_found(table, list, i, (k - 1) as nat);
    }
}

/// There is no first name without a number just when every name has one.
pub proof fn lemma_unnumbered_none(table: Seq<Seq<char>>, list: Seq<Seq<char>>, k: nat)
    requires
        k <= list.len(),
    ensures
        first_unnumbered(table, list, k) is None <==> forall|i: int|
            0 <= i < k ==> as_num(table, #[trigger] list[i]) is Some,
    decreases k,
{
    if k > 0 {
        lemma_unnumbered_none(table, list, (k - 1) as nat);
        if first_unnumbered(table, list, (k - 1) as nat) is None {
            if as_num(table, list[k - 1]) is Some {
                assert forall|i: int| 0 <= i < k implies as_num(table, #[trigger] list[i])
                    is Some by {
                    if i < k - 1 {
                    }
                }
            }
        }
    }
}

/// Why an instruction cannot be made ready, if it cannot: its operation is
/// not one of the language; a constant has no type; or a variable has no
/// number, the destination before the arguments, and these in order.
pub open spec fn instr_fault(table: Seq<Seq<char>>, iv: InstrView) -> Option<Fault> {
    match iv {
        InstrView::Constant { dest, const_type, .. } => if const_type is None {
            Some(Fault::MissingType(dest))
        } else if as_num(table, dest) is None {
            Some(Fault::UnknownVar(dest))
        } else {
            None
        },
        InstrView::Value { op, dest, args, .. } => if value_op_named(op) is None {
            Some(Fault::UnknownOp(op))
        } else if as_num(table, dest) is None {
            Some(Fault::UnknownVar(dest))
        } else {
            match first_unnumbered(table, args, args.len()) {
                Some(x) => Some(Fault::UnknownVar(x)),
                None => None,
            }
        },
        InstrView::Effect { op, args, .. } => if effect_op_named(op) is None {
            Some(Fault::UnknownOp(op))
        } else {
            match first_unnumbered(table, args, args.len()) {
                Some(x) => Some(Fault::UnknownVar(x)),
                None => None,
            }
        },
    }
}

/// An instruction can be made ready just when nothing is wrong with it.
pub proof fn lemma_instr_fault(table: Seq<Seq<char>>, iv: InstrView)
    ensures
        instr_fault(table, iv) is None <==> convertible(table, iv),
{
    match iv {
        InstrView::Constant { .. } => {},
        InstrView::Value { args, .. } => {
            lemma_unnumbered_none(table, args, args.len());
        },
        InstrView::Effect { args, .. } => {
            lemma_unnumbered_none(table, args, args.len());
        },
    }
}

/// Why the first instruction among the first `k` that cannot be made ready
/// cannot, if there is one.
pub open spec fn first_instr_fault(table: Seq<Seq<char>>, instrs: Seq<InstrView>, k: nat) -> Option<
    Fault,
>
    decreases k,
{
    if k == 0 {
        None
    } else {
        match first_instr_fault(table, instrs, (k - 1) as nat) {
            Some(f) => Some(f),
            None => instr_fault(table, instrs[k - 1]),
        }
    }
}

/// An instruction that is the first among the first instructions that
/// cannot be made ready is the first among more.
pub proof fn lemma_instr_fault_found(
    table: Seq<Seq<char>>,
    instrs: Seq<InstrView>,
    i: nat,
    k: nat,
)
    requires
        i < k <= instrs.len(),
        first_instr_fault(table, instrs, i) is None,
        instr_fault(table, instrs[i as int]) is Some,
    ensures
        first_instr_fault(table, instrs, k) == instr_fault(table, instrs[i as int]),
    decreases k,
{
    if k > i + 1 {
        lemma_instr_fault_found(table, instrs, i, (k - 1) as nat);
    }
}

/// Nothing is wrong with the first instructions just when each can be made
/// ready.
pub proof fn lemma_instr_fault_none(table: Seq<Seq<char>>, instrs: Seq<InstrView>, k: nat)
    requires
        k <= instrs.len(),
    ensures
        first_instr_fault(table, instrs, k) is None <==> forall|i: int|
            0 <= i < k ==> convertible(table, #[trigger] instrs[i]),
    decreases k,
{
    if k > 0 {
        lemma_instr_fault_none(table, instrs, (k - 1) as nat);
        lemma_instr_fault(table, instrs[k - 1]);
        if first_instr_fault(table, instrs, (k - 1) as nat) is None {
            if convertible(table, instrs[k - 1]) {
                assert forall|i: int| 0 <= i < k implies convertible(table, #[trigger] instrs[i]) by {
                    if i < k - 1 {
                    }
                }
            }
        }
    }
}

/// Whether an instruction can be made ready: its operation is one of the
/// language, its variables have numbers, and a constant has a type.
pub open spec fn convertible(table: Seq<Seq<char>>, iv: InstrView) -> bool {
    match iv {
        InstrView::Constant { dest, const_type, .. } => const_type is Some && as_num(table, dest)
            is Some,
        InstrView::Value { op, dest, args, .. } => value_op_named(op) is Some && as_num(
            table,
            dest,
        ) is Some && all_numbered(table, args),
        InstrView::Effect { op, args, .. } => effect_op_named(op) is Some && all_numbered(
            table,
            args,
        ),
    }
}

/// Whether an instruction of the interpreter is the given instruction made
/// ready: the same operation, with every variable by its number.
pub open spec fn instr_matches(table: Seq<Seq<char>>, iv: InstrView, instr: Instr) -> bool {
    match (iv, instr) {
        (
            InstrView::Constant { dest, const_type, value },
            Instr::Constant { dest: d, const_type: t, value: v, pos },
        ) => const_type == Some(t) && as_num(table, dest) == Some(d) && v == value && pos is None,
        (
            InstrView::Value { op, dest, args, labels, funcs, .. },
            Instr::Value { op: o, dest: d, args: a, labels: l, funcs: f, pos },
        ) => value_op_named(op) == Some(o) && as_num(table, dest) == Some(d) && nums_match(
            table,
            args,
            a@,
        ) && names(l@) == labels && names(f@) == funcs && pos is None,
        (
            InstrView::Effect { op, args, funcs, .. },
            Instr::Effect { op: o, args: a, funcs: f, pos },
        ) => effect_op_named(op) == Some(o) && nums_match(table, args, a@) && names(f@) == funcs
            && pos is None,
        _ => false,
    }
}

fn numbers(table: &Vec<String>, list: &Vec<String>) -> (r: Result<Vec<u32>, String>)
    ensures
        r is Ok <==> all_numbered(names(table@), names(list@)),
        r is Ok ==> nums_match(names(table@), names(list@), r->Ok_0@),
        r is Err ==> first_unnumbered(names(table@), names(list@), list.len() as nat) == Some(
            r->Err_0@,
        ),
{
    let mut nums: Vec<u32> = Vec::new();
    let ghost t = names(table@);
    let ghost l = names(list@);
    let mut i: usize = 0;
    while i < list.len()
        invariant
            i <= list.len(),
            t == names(table@),
            l == names(list@),
            nums.len() == i,
            forall|k: int| 0 <= k < i ==> as_num(t, #[trigger] l[k]) == Some(nums[k]),
            first_unnumbered(t, l, i as nat) is None,
        decreases list.len() - i,
    {
        assert(l[i as int] == list[i as int]@);
        let found = match lookup_var(table, &list[i]) {
            Some(n) => if n > u32::MAX as usize {
                None
            } else {
                Some(n as u32)
            },
            None => None,
        };
        match found {
            Some(n) => {
                nums.push(n);
            },
            None => {
                proof {
                    assert(as_num(t, l[i as int]) is None);
                    lemma_unnumbered_found(t, l, i as nat, l.len());
                }
                return Err(list[i].clone());
            },
        }
        i += 1;
    }
    Ok(nums)
}

fn number(table: &Vec<String>, name: &String) -> (r: Option<u32>)
    ensures
        r == as_num(names(table@), name@),
{
    match lookup_var(table, name) {
        Some(n) => if n > u32::MAX as usize {
            None
        } else {
            Some(n as u32)
        },
        None => None,
    }
}

/// Makes an instruction ready for the interpreter, or says what is wrong
/// with it.
pub fn convert_instr(table: &Vec<String>, instr: &Instruction) -> (r: Result<Instr, NumifyError>)
    ensures
        r is Ok <==> convertible(names(table@), instr@),
        r is Ok ==> instr_matches(names(table@), instr@, r->Ok_0),
        r is Err ==> instr_fault(names(table@), instr@) == Some(r->Err_0@),
{
    proof {
        lemma_instr_fault(names(table@), instr@);
    }
    match instr {
        Instruction::Constant { dest, const_type, value } => {
            let t = match const_type {
                Some(t) => t.clone(),
                None => {
                    return Err(NumifyError::MissingType(dest.clone()));
                },
            };
            match number(table, dest) {
                Some(d) => Ok(Instr::Constant { dest: d, const_type: t, value: *value, pos: None }),
                None => Err(NumifyError::UnknownVar(dest.clone())),
            }
        },
        Instruction::Value { op, dest, args, labels, funcs, .. } => {
            let o = match value_op_of(op) {
                Some(o) => o,
                None => {
                    return Err(NumifyError::UnknownOp(op.clone()));
                },
            };
            let d = match number(table, dest) {
                Some(d) => d,
                None => {
                    return Err(NumifyError::UnknownVar(dest.clone()));
                },
            };
            match numbers(table, args) {
                Ok(a) => Ok(
                    Instr::Value {
                        op: o,
                        dest: d,
                        args: a,
                        labels: clone_names(labels),
                        funcs: clone_names(funcs),
                        pos: None,
                    },
                ),
                Err(name) => Err(NumifyError::UnknownVar(name)),
            }
        },
        Instruction::Effect { op, args, funcs, .. } => {
            let o = match effect_op_of(op) {
                Some(o) => o,
                None => {
                    return Err(NumifyError::UnknownOp(op.clone()));
                },
            };
            match numbers(table, args) {
                Ok(a) => Ok(
                    Instr::Effect { op: o, args: a, funcs: clone_names(funcs), pos: None },
                ),
                Err(name) => Err(NumifyError::UnknownVar(name)),
            }
        },
    }
}

/// The label that a block starts with, if it starts with one.
pub open spec fn label_of(b: Seq<CodeView>) -> Option<Seq<char>> {
    if b.len() > 0 {
        match b[0] {
            CodeView::Label { label } => Some(label),
            _ => None,
        }
    } else {
        None
    }
}

/// The index of the first block among the first `k` that starts with the
/// label, if there is one.
pub open spec fn block_named(bs: Seq<Seq<CodeView>>, label: Seq<char>, k: nat) -> Option<int>
    decreases k,
{
    if k == 0 {
        None
    } else {
        match block_named(bs, label, (k - 1) as nat) {
            Some(i) => Some(i),
            None => if label_of(bs[k - 1]) == Some(label) {
                Some(k - 1)
            } else {
                None
            },
        }
    }
}

/// A block found among the first blocks is the one found among more.
pub proof fn lemma_block_found(bs: Seq<Seq<CodeView>>, label: Seq<char>, i: nat, k: nat)
    requires
        i < k <= bs.len(),
        block_named(bs, label, i) is None,
        label_of(bs[i as int]) == Some(label),
    ensures
        block_named(bs, label, k) == Some(i as int),
    decreases k,
{
    if k > i + 1 {
        lemma_block_found(bs, label, i, (k - 1) as nat);
    }
}

/// Whether the indices are those of the blocks that the labels name, one
/// for one.
pub open spec fn exits_match(bs: Seq<Seq<CodeView>>, labels: Seq<Seq<char>>, exits: Seq<usize>) -> bool {
    exits.len() == labels.len() && forall|i: int|
        0 <= i < labels.len() ==> block_named(bs, #[trigger] labels[i], bs.len()) == Some(
            exits[i] as int,
        )
}

/// Whether every label names a block.
pub open spec fn all_named(bs: Seq<Seq<CodeView>>, labels: Seq<Seq<char>>) -> bool {
    forall|i: int| 0 <= i < labels.len() ==> block_named(bs, #[trigger] labels[i], bs.len()) is Some
}

/// The first label among the first `k` that names no block, if there is
/// one.
pub open spec fn first_unnamed(bs: Seq<Seq<CodeView>>, labels: Seq<Seq<char>>, k: nat) -> Option<
    Seq<char>,
>
    decreases k,
{
    if k == 0 {
        None
    } else {
        match first_unnamed(bs, labels, (k - 1) as nat) {
            Some(l) => Some(l),
            None => if block_named(bs, labels[k - 1], bs.len()) is None {
                Some(labels[k - 1])
            } else {
                None
            },
        }
    }
}

/// A label that names no block and is the first such among the first
/// labels is the first among more.
pub proof fn lemma_unnamed_found(bs: Seq<Seq<CodeView>>, labels: Seq<Seq<char>>, i: nat, k: nat)
    requires
        i < k <= labels.len(),
        first_unnamed(bs, labels, i) is None,
        block_named(bs, labels[i as int], bs.len()) is None,
    ensures
        first_unnamed(bs, labels, k) == Some(labels[i as int]),
    decreases k,
{
    if k > i + 1 {
        lemma_unnamed_found(bs, labels, i, (k - 1) as nat);
    }
}

/// There is no first label that names no block just when every label
/// names one.
pub proof fn lemma_unnamed_none(bs: Seq<Seq<CodeView>>, labels: Seq<Seq<char>>, k: nat)
    requires
        k <= labels.len(),
    ensures
        first_unnamed(bs, labels, k) is None <==> forall|i: int|
            0 <= i < k ==> block_named(bs, #[trigger] labels[i], bs.len()) is Some,
    decreases k,
{
    if k > 0 {
        lemma_unnamed_none(bs, labels, (k - 1) as nat);
        if first_unnamed(bs, labels, (k - 1) as nat) is None {
            if block_named(bs, labels[k - 1], bs.len()) is Some {
                assert forall|i: int| 0 <= i < k implies block_named(
                    bs,
                    #[trigger] labels[i],
                    bs.len(),
                ) is Some by {
                    if i < k - 1 {
                    }
                }
            }
        }
    }
}

/// Whether the block ends with a `jmp` or a `br`.
pub open spec fn ends_in_jump(b: Seq<CodeView>) -> bool {
    b.len() > 0 && match b.last() {
        CodeView::Instruction(i) => i.op() == "jmp"@ || i.op() == "br"@,
        CodeView::Label { .. } => false,
    }
}

/// Whether the block ends with a `ret`.
pub open spec fn ends_in_ret(b: Seq<CodeView>) -> bool {
    b.len() > 0 && match b.last() {
        CodeView::Instruction(i) => i.op() == "ret"@,
        CodeView::Label { .. } => false,
    }
}

/// Whether the exits are those of block `k`: the blocks that its jump
/// names; none after a `ret`; and otherwise the next block, if there is
/// one.
pub open spec fn block_exits(bs: Seq<Seq<CodeView>>, k: int, exits: Seq<usize>) -> bool {
    if ends_in_jump(bs[k]) {
        exits_match(bs, crate::cfg::jump_labels(bs[k]), exits)
    } else if ends_in_ret(bs[k]) || k + 1 >= bs.len() {
        exits.len() == 0
    } else {
        exits == seq![(k + 1) as usize]
    }
}

/// The instructions of a block, without its labels.
pub open spec fn block_instrs(b: Seq<CodeView>, k: nat) -> Seq<InstrView>
    decreases k,
{
    if k == 0 {
        Seq::empty()
    } else {
        let prev = block_instrs(b, (k - 1) as nat);
        match b[k - 1] {
            CodeView::Instruction(i) => prev.push(i),
            CodeView::Label { .. } => prev,
        }
    }
}

/// Whether a block of the interpreter is block `k` made ready.
pub open spec fn block_matches(
    table: Seq<Seq<char>>,
    bs: Seq<Seq<CodeView>>,
    k: int,
    bb: BasicBlock,
) -> bool {
    let wanted = block_instrs(bs[k], bs[k].len());
    &&& match (bb.label, label_of(bs[k])) {
        (Some(l), Some(w)) => l@ == w,
        (None, None) => true,
        _ => false,
    }
    &&& bb.instrs.len() == wanted.len()
    &&& forall|i: int|
        0 <= i < wanted.len() ==> instr_matches(table, wanted[i], #[trigger] bb.instrs[i])
    &&& block_exits(bs, k, bb.exit@)
}

/// Whether a block can be made ready: its instructions can, and the labels
/// of its jump name blocks.
pub open spec fn block_ready(table: Seq<Seq<char>>, bs: Seq<Seq<CodeView>>, k: int) -> bool {
    let wanted = block_instrs(bs[k], bs[k].len());
    &&& forall|i: int| 0 <= i < wanted.len() ==> convertible(table, #[trigger] wanted[i])
    &&& ends_in_jump(bs[k]) ==> all_named(bs, crate::cfg::jump_labels(bs[k]))
}

/// Why a block cannot be made ready, if it cannot: the first of its
/// instructions that cannot be made ready; or, with all of them ready, the
/// first label of its jump that names no block.
pub open spec fn block_fault(table: Seq<Seq<char>>, bs: Seq<Seq<CodeView>>, k: int) -> Option<Fault> {
    let wanted = block_instrs(bs[k], bs[k].len());
    match first_instr_fault(table, wanted, wanted.len()) {
        Some(f) => Some(f),
        None => if ends_in_jump(bs[k]) {
            match first_unnamed(
                bs,
                crate::cfg::jump_labels(bs[k]),
                crate::cfg::jump_labels(bs[k]).len(),
            ) {
                Some(l) => Some(Fault::UnknownLabel(l)),
                None => None,
            }
        } else {
            None
        },
    }
}

/// A block can be made ready just when nothing is wrong with it.
pub proof fn lemma_block_fault(table: Seq<Seq<char>>, bs: Seq<Seq<CodeView>>, k: int)
    ensures
        block_fault(table, bs, k) is None <==> block_ready(table, bs, k),
{
    let wanted = block_instrs(bs[k], bs[k].len());
    lemma_instr_fault_none(table, wanted, wanted.len());
    let labels = crate::cfg::jump_labels(bs[k]);
    lemma_unnamed_none(bs, labels, labels.len());
}

/// Why the first block among the first `k` that cannot be made ready
/// cannot, if there is one.
pub open spec fn first_block_fault(table: Seq<Seq<char>>, bs: Seq<Seq<CodeView>>, k: nat) -> Option<
    Fault,
>
    decreases k,
{
    if k == 0 {
        None
    } else {
        match first_block_fault(table, bs, (k - 1) as nat) {
            Some(f) => Some(f),
            None => block_fault(table, bs, k - 1),
        }
    }
}

/// A block that is the first among the first blocks that cannot be made
/// ready is the first among more.
pub proof fn lemma_block_fault_found(table: Seq<Seq<char>>, bs: Seq<Seq<CodeView>>, i: nat, k: nat)
    requires
        i < k <= bs.len(),
        first_block_fault(table, bs, i) is None,
        block_fault(table, bs, i as int) is Some,
    ensures
        first_block_fault(table, bs, k) == block_fault(table, bs, i as int),
    decreases k,
{
    if k > i + 1 {
        lemma_block_fault_found(table, bs, i, (k - 1) as nat);
    }
}

/// Why a function cannot be made ready, if it cannot: it has more
/// variables than numbers; or the first of its blocks that cannot be made
/// ready cannot.
pub open spec fn function_fault(func: Function) -> Option<Fault> {
    let table = function_table(func);
    let bs = blocks_of(codes(func.instrs@));
    if table.len() > u32::MAX || !all_numbered(table, crate::ssa::param_names(func.args@)) {
        Some(Fault::TooManyVars)
    } else {
        first_block_fault(table, bs, bs.len())
    }
}

/// Why the first function among the first `k` that cannot be made ready
/// cannot, if there is one.
pub open spec fn first_function_fault(funcs: Seq<Function>, k: nat) -> Option<Fault>
    decreases k,
{
    if k == 0 {
        None
    } else {
        match first_function_fault(funcs, (k - 1) as nat) {
            Some(f) => Some(f),
            None => function_fault(funcs[k - 1]),
        }
    }
}

/// A function that is the first among the first functions that cannot be
/// made ready is the first among more.
pub proof fn lemma_function_fault_found(funcs: Seq<Function>, i: nat, k: nat)
    requires
        i < k <= funcs.len(),
        first_function_fault(funcs, i) is None,
        function_fault(funcs[i as int]) is Some,
    ensures
        first_function_fault(funcs, k) == function_fault(funcs[i as int]),
    decreases k,
{
    if k > i + 1 {
        lemma_function_fault_found(funcs, i, (k - 1) as nat);
    }
}

/// The table of the variables of a function.
pub open spec fn function_table(func: Function) -> Seq<Seq<char>> {
    var_table(
        crate::ssa::param_names(func.args@),
        codes(func.instrs@),
        func.instrs.len() as nat,
    )
}

/// Whether a function can be made ready for the interpreter.
pub open spec fn numifiable(func: Function) -> bool {
    let table = function_table(func);
    let bs = blocks_of(codes(func.instrs@));
    &&& table.len() <= u32::MAX
    &&& all_numbered(table, crate::ssa::param_names(func.args@))
    &&& forall|k: int| 0 <= k < bs.len() ==> #[trigger] block_ready(table, bs, k)
}

/// Whether a function of the interpreter is the given function made ready:
/// the blocks of its body in order, every variable by its number, and the
/// exits of every block by index.
pub open spec fn is_numified(func: Function, bb: BBFunction) -> bool {
    let table = function_table(func);
    let bs = blocks_of(codes(func.instrs@));
    &&& bb.name@ == func.name@
    &&& bb.args.len() == func.args.len()
    &&& forall|i: int|
        0 <= i < func.args.len() ==> (#[trigger] bb.args[i]).name@ == func.args[i].name@
            && bb.args[i].arg_type == func.args[i].arg_type
    &&& nums_match(table, crate::ssa::param_names(func.args@), bb.args_as_nums@)
    &&& bb.return_type == func.return_type
    &&& bb.num_of_vars == table.len()
    &&& bb.pos is None
    &&& bb.blocks.len() == bs.len()
    &&& forall|k: int| 0 <= k < bs.len() ==> block_matches(table, bs, k, #[trigger] bb.blocks[k])
}

fn find_block(blocks: &Vec<Block>, label: &String) -> (r: Option<usize>)
    ensures
        match r {
            Some(i) => block_named(block_views(blocks@), label@, blocks.len() as nat) == Some(
                i as int,
            ),
            None => block_named(block_views(blocks@), label@, blocks.len() as nat) is None,
        },
{
    let ghost bs = block_views(blocks@);
    let mut i: usize = 0;
    while i < blocks.len()
        invariant
            i <= blocks.len(),
            bs == block_views(blocks@),
            block_named(bs, label@, i as nat) is None,
        decreases blocks.len() - i,
    {
        assert(bs[i as int] == blocks[i as int]@);
        let found = if blocks[i].instrs.len() > 0 {
            assert(bs[i as int][0] == blocks[i as int].instrs[0]@);
            match &blocks[i].instrs[0] {
                Code::Label { label: l } => *l == *label,
                Code::Instruction(_) => false,
            }
        } else {
            false
        };
        if found {
            proof {
                lemma_block_found(bs, label@, i as nat, bs.len());
            }
            return Some(i);
        }
        i += 1;
    }
    None
}

fn exits_of(blocks: &Vec<Block>, k: usize) -> (r: Result<Vec<usize>, String>)
    requires
        k < blocks.len(),
    ensures
        r is Ok <==> (ends_in_jump(block_views(blocks@)[k as int]) ==> all_named(
            block_views(blocks@),
            crate::cfg::jump_labels(block_views(blocks@)[k as int]),
        )),
        r is Ok ==> block_exits(block_views(blocks@), k as int, r->Ok_0@),
        r is Err ==> ends_in_jump(block_views(blocks@)[k as int]) && first_unnamed(
            block_views(blocks@),
            crate::cfg::jump_labels(block_views(blocks@)[k as int]),
            crate::cfg::jump_labels(block_views(blocks@)[k as int]).len(),
        ) == Some(r->Err_0@),
{
    let ghost bs = block_views(blocks@);
    let block = &blocks[k];
    assert(bs[k as int] == block@);
    let mut exits: Vec<usize> = Vec::new();
    if block.instrs.len() > 0 {
        assert(block@.last() == block.instrs[block.instrs.len() - 1]@);
        if let Code::Instruction(instr) = &block.instrs[block.instrs.len() - 1] {
            let op = instr.get_op();
            if is_str(&op, "jmp") || is_str(&op, "br") {
                let none: Vec<String> = Vec::new();
                let labels = match instr {
                    Instruction::Value { labels, .. } | Instruction::Effect { labels, .. } => labels,
                    Instruction::Constant { .. } => {
                        assert(names(none@) =~= Seq::<Seq<char>>::empty());
                        &none
                    },
                };
                let ghost wanted = crate::cfg::jump_labels(bs[k as int]);
                assert(wanted == names(labels@));
                let mut i: usize = 0;
                while i < labels.len()
                    invariant
                        i <= labels.len(),
                        bs == block_views(blocks@),
                        k < blocks.len(),
                        ends_in_jump(bs[k as int]),
                        wanted == crate::cfg::jump_labels(bs[k as int]),
                        wanted == names(labels@),
                        exits.len() == i,
                        forall|j: int|
                            0 <= j < i ==> block_named(bs, #[trigger] wanted[j], bs.len()) == Some(
                                exits[j] as int,
                            ),
                        first_unnamed(bs, wanted, i as nat) is None,
                    decreases labels.len() - i,
                {
                    assert(wanted[i as int] == labels[i as int]@);
                    match find_block(blocks, &labels[i]) {
                        Some(b) => {
                            exits.push(b);
                        },
                        None => {
                            proof {
                                assert(block_named(bs, wanted[i as int], bs.len()) is None);
                                lemma_unnamed_found(bs, wanted, i as nat, wanted.len());
                            }
                            return Err(labels[i].clone());
                        },
                    }
                    i += 1;
                }
                return Ok(exits);
            }
            if is_str(&op, "ret") {
                return Ok(exits);
            }
        }
    }
    if k + 1 < blocks.len() {
        exits.push(k + 1);
        assert(exits@ =~= seq![(k + 1) as usize]);
    }
    Ok(exits)
}

fn convert_block(table: &Vec<String>, blocks: &Vec<Block>, k: usize) -> (r: Result<
    BasicBlock,
    NumifyError,
>)
    requires
        k < blocks.len(),
    ensures
        r is Ok <==> block_ready(names(table@), block_views(blocks@), k as int),
        r is Ok ==> block_matches(names(table@), block_views(blocks@), k as int, r->Ok_0),
        r is Err ==> block_fault(names(table@), block_views(blocks@), k as int) == Some(
            r->Err_0@,
        ),
{
    let ghost bs = block_views(blocks@);
    let ghost t = names(table@);
    let block = &blocks[k];
    let ghost b = block@;
    assert(bs[k as int] == b);
    let ghost all = block_instrs(b, b.len());
    let mut instrs: Vec<Instr> = Vec::new();
    let mut i: usize = 0;
    while i < block.instrs.len()
        invariant
            i <= block.instrs.len(),
            all == block_instrs(b, b.len()),
            block_instrs(b, i as nat).len() <= all.len(),
            first_instr_fault(t, all, block_instrs(b, i as nat).len()) is None,
            t == names(table@),
            b == block@,
            bs == block_views(blocks@),
            k < blocks.len(),
            bs[k as int] == b,
            instrs.len() == block_instrs(b, i as nat).len(),
            forall|j: int|
                0 <= j < instrs.len() ==> instr_matches(
                    t,
                    block_instrs(b, i as nat)[j],
                    #[trigger] instrs[j],
                ),
            forall|j: int|
                0 <= j < instrs.len() ==> convertible(t, #[trigger] block_instrs(b, i as nat)[j]),
        decreases block.instrs.len() - i,
    {
        assert(b[i as int] == block.instrs[i as int]@);
        let ghost before = block_instrs(b, i as nat);
        if let Code::Instruction(instr) = &block.instrs[i] {
            match convert_instr(table, instr) {
                Ok(converted) => {
                    instrs.push(converted);
                    proof {
                        let now = block_instrs(b, (i + 1) as nat);
                        assert(now == before.push(instr@));
                        lemma_instr_kept(b, (i + 1) as nat, b.len(), before.len() as int);
                        lemma_instr_fault(t, instr@);
                        assert forall|j: int| 0 <= j < instrs.len() implies instr_matches(
                            t,
                            now[j],
                            #[trigger] instrs[j],
                        ) && convertible(t, now[j]) by {
                            if j < before.len() {
                                assert(now[j] == before[j]);
                            }
                        }
                    }
                },
                Err(e) => {
                    proof {
                        lemma_instr_kept(b, (i + 1) as nat, b.len(), before.len() as int);
                        assert(!convertible(t, all[before.len() as int]));
                        lemma_instr_fault_found(t, all, before.len(), all.len());
                    }
                    return Err(e);
                },
            }
        }
        i += 1;
    }
    proof {
        lemma_block_fault(t, bs, k as int);
    }
    let exit = match exits_of(blocks, k) {
        Ok(e) => e,
        Err(label) => {
            return Err(NumifyError::UnknownLabel(label));
        },
    };
    let label = if block.instrs.len() > 0 {
        assert(b[0] == block.instrs[0]@);
        match &block.instrs[0] {
            Code::Label { label } => Some(label.clone()),
            Code::Instruction(_) => None,
        }
    } else {
        None
    };
    Ok(BasicBlock { label, instrs, exit })
}

/// The instructions found among the first items stay where they are among
/// more.
pub proof fn lemma_instr_kept(b: Seq<CodeView>, i: nat, n: nat, j: int)
    requires
        i <= n,
        0 <= j < block_instrs(b, i).len(),
    ensures
        j < block_instrs(b, n).len(),
        block_instrs(b, n)[j] == block_instrs(b, i)[j],
    decreases n,
{
    if n > i {
        lemma_instr_kept(b, i, (n - 1) as nat, j);
    }
}

/// Makes a function ready for the interpreter: its body in blocks, every
/// variable as a number, and the exits of every block as indices.
pub fn numify_function(func: &Function) -> (r: Result<BBFunction, NumifyError>)
    ensures
        r is Ok <==> numifiable(*func),
        r is Ok ==> is_numified(*func, r->Ok_0),
        r is Err ==> function_fault(*func) == Some(r->Err_0@),
{
    let table = variables(func);
    let ghost t = names(table@);
    if table.len() > u32::MAX as usize {
        return Err(NumifyError::TooManyVars);
    }
    let mut params: Vec<String> = Vec::new();
    let mut args: Vec<Argument> = Vec::new();
    let mut p: usize = 0;
    while p < func.args.len()
        invariant
            p <= func.args.len(),
            params.len() == p,
            args.len() == p,
            forall|i: int| 0 <= i < p ==> (#[trigger] params[i])@ == func.args[i].name@,
            forall|i: int|
                0 <= i < p ==> (#[trigger] args[i]).name@ == func.args[i].name@ && args[i].arg_type
                    == func.args[i].arg_type,
        decreases func.args.len() - p,
    {
        params.push(func.args[p].name.clone());
        args.push(
            Argument { name: func.args[p].name.clone(), arg_type: func.args[p].arg_type.clone() },
        );
        p += 1;
    }
    assert(names(params@) =~= crate::ssa::param_names(func.args@));
    let args_as_nums = match numbers(&table, &params) {
        Ok(n) => n,
        Err(_) => {
            return Err(NumifyError::TooManyVars);
        },
    };
    let blocks = form_blocks(func);
    let ghost bs = block_views(blocks@);
    let mut converted: Vec<BasicBlock> = Vec::new();
    let mut k: usize = 0;
    while k < blocks.len()
        invariant
            k <= blocks.len(),
            t == names(table@),
            t == function_table(*func),
            bs == block_views(blocks@),
            bs == blocks_of(codes(func.instrs@)),
            converted.len() == k,
            forall|j: int| 0 <= j < k ==> #[trigger] block_ready(t, bs, j),
            forall|j: int| 0 <= j < k ==> block_matches(t, bs, j, #[trigger] converted[j]),
            t.len() <= u32::MAX,
            all_numbered(t, crate::ssa::param_names(func.args@)),
            first_block_fault(t, bs, k as nat) is None,
        decreases blocks.len() - k,
    {
        proof {
            lemma_block_fault(t, bs, k as int);
        }
        match convert_block(&table, &blocks, k) {
            Ok(b) => {
                converted.push(b);
            },
            Err(e) => {
                proof {
                    assert(!block_ready(t, bs, k as int));
                    lemma_block_fault_found(t, bs, k as nat, bs.len());
                }
                return Err(e);
            },
        }
        k += 1;
    }
    Ok(
        BBFunction {
            name: func.name.clone(),
            args,
            args_as_nums,
            return_type: clone_type(&func.return_type),
            num_of_vars: table.len() as u32,
            blocks: converted,
            pos: None,
        },
    )
}

/// Nothing is wrong with a function that can be made ready.
pub proof fn lemma_no_function_fault(func: Function)
    requires
        numifiable(func),
    ensures
        function_fault(func) is None,
{
    let table = function_table(func);
    let bs = blocks_of(codes(func.instrs@));
    lemma_no_block_fault(table, bs, bs.len());
}

/// Nothing is wrong with the first blocks where each can be made ready.
pub proof fn lemma_no_block_fault(table: Seq<Seq<char>>, bs: Seq<Seq<CodeView>>, k: nat)
    requires
        k <= bs.len(),
        forall|j: int| 0 <= j < k ==> #[trigger] block_ready(table, bs, j),
    ensures
        first_block_fault(table, bs, k) is None,
    decreases k,
{
    if k > 0 {
        lemma_no_block_fault(table, bs, (k - 1) as nat);
        assert(block_ready(table, bs, k - 1));
        lemma_block_fault(table, bs, k - 1);
    }
}

/// Makes a program ready for the interpreter, function by function, or
/// says what is wrong with the first function that cannot be made ready.
pub fn numify(program: &Program) -> (r: Result<BBProgram, NumifyError>)
    ensures
        r is Ok <==> forall|i: int|
            0 <= i < program.functions.len() ==> numifiable(#[trigger] program.functions[i]),
        r is Ok ==> r->Ok_0.functions.len() == program.functions.len() && forall|i: int|
            0 <= i < program.functions.len() ==> is_numified(
                program.functions[i],
                #[trigger] r->Ok_0.functions[i],
            ),
        r is Err ==> first_function_fault(program.functions@, program.functions.len() as nat)
            == Some(r->Err_0@),
{
    let mut functions: Vec<BBFunction> = Vec::new();
    let mut i: usize = 0;
    while i < program.functions.len()
        invariant
            i <= program.functions.len(),
            functions.len() == i,
            forall|j: int| 0 <= j < i ==> numifiable(#[trigger] program.functions[j]),
            forall|j: int|
                0 <= j < i ==> is_numified(program.functions[j], #[trigger] functions[j]),
            first_function_fault(program.functions@, i as nat) is None,
        decreases program.functions.len() - i,
    {
        match numify_function(&program.functions[i]) {
            Ok(f) => {
                proof {
                    lemma_no_function_fault(program.functions[i as int]);
                }
                functions.push(f);
            },
            Err(e) => {
                proof {
                    assert(!numifiable(program.functions[i as int]));
                    lemma_function_fault_found(
                        program.functions@,
                        i as nat,
                        program.functions.len() as nat,
                    );
                }
                return Err(e);
            },
        }
        i += 1;
    }
    Ok(BBProgram { functions })
}

} // verus!
