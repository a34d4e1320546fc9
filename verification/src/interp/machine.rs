//! The run of a program, one instruction at a time: the state of the run,
//! and the step from a state to the next state and what is to be done
//! outside.
use crate::interp::heap::{scopes_of, Heap, HeapView};
use crate::interp::ops::{
    can_write, effect_step, execute_effect_op, execute_value_op, set_value, store_of, value_step,
    written, EffectOutcome, EffectOutcomeView, Store, ValueOutcome,
};
use crate::interp::program::{
    BBFunction, BBProgram, Instr, InterpError, Position, PositionalInterpError, ValueOp,
};
use crate::interp::value::{Environment, Scope, Value};
use crate::ir::{is_str, Argument, Literal, Type};
use vstd::prelude::*;
use vstd::string::*;

verus! {

/// A function that is running: its index in the program, the block and the
/// instruction it is at, the labels of the block before and of this block,
/// the block that runs next, the value it returns, and the variable of the
/// caller that the value goes to.
#[derive(Debug)]
pub struct Activation {
    pub func: usize,
    pub block: usize,
    pub index: usize,
    pub last_label: Option<String>,
    pub current_label: Option<String>,
    pub next_block: Option<usize>,
    pub result: Option<Value>,
    pub dest: Option<u32>,
}

/// The state of a run: the variables, the heap, the functions that are
/// running with the current one last, the number of instructions of the
/// blocks entered, and the variable that waits for a value from outside.
pub struct Machine {
    pub value_store: Environment,
    pub heap: Heap,
    pub stack: Vec<Activation>,
    pub instruction_count: u32,
    pub awaited: Option<u32>,
}

/// The model of a [`Machine`].
pub struct MachineView {
    pub store: Store,
    pub stack: Seq<Activation>,
    pub count: u32,
    pub awaited: Option<u32>,
}

impl View for Machine {
    type V = MachineView;

    open spec fn view(&self) -> MachineView {
        MachineView {
            store: store_of(self.value_store, self.heap),
            stack: self.stack@,
            count: self.instruction_count,
            awaited: self.awaited,
        }
    }
}

/// What is to be done outside after a step.
#[derive(Debug)]
pub enum Action {
    /// Nothing: take the next step.
    Continue,
    /// Print the values on one line, then take the next step.
    Print(Vec<Value>),
    /// Apply the floating-point operation to the two bit patterns and hand
    /// the result back, then take the next step.
    Float { op: ValueOp, lhs: u64, rhs: u64 },
    /// Convert the integer to a floating-point number and hand the result
    /// back, then take the next step.
    Promote(i64),
    /// The run is over.
    Finished,
}

/// The model of an [`Action`].
pub enum ActionView {
    Continue,
    Print(Seq<Value>),
    Float { op: ValueOp, lhs: u64, rhs: u64 },
    Promote(i64),
    Finished,
}

impl View for Action {
    type V = ActionView;

    open spec fn view(&self) -> ActionView {
        match *self {
            Action::Continue => ActionView::Continue,
            Action::Print(vals) => ActionView::Print(vals@),
            Action::Float { op, lhs, rhs } => ActionView::Float { op, lhs, rhs },
            Action::Promote(i) => ActionView::Promote(i),
            Action::Finished => ActionView::Finished,
        }
    }
}

/// The state after a step, and what the step asks for.
pub struct Stepped {
    pub machine: MachineView,
    pub result: Result<ActionView, PositionalInterpError>,
}

/// The count of instructions after a block of the given length was
/// entered. The count stops at the greatest number.
pub open spec fn counted_in(count: u32, len: usize) -> u32 {
    if count + len > u32::MAX {
        u32::MAX
    } else {
        (count + len) as u32
    }
}

/// The activation at the start of a block: the label of the block before
/// becomes the last label, and a block with one exit runs that exit next
/// unless its terminator says otherwise.
pub open spec fn at_block(func: BBFunction, act: Activation, block: usize) -> Activation {
    let b = func.blocks[block as int];
    Activation {
        block,
        index: 0,
        last_label: act.current_label,
        current_label: b.label,
        next_block: if b.exit.len() == 1 {
            Some(b.exit[0])
        } else {
            None
        },
        ..act
    }
}

/// The activation of a function that was just called.
pub open spec fn called(func: usize, dest: Option<u32>) -> Activation {
    Activation {
        func,
        block: 0,
        index: 0,
        last_label: None,
        current_label: None,
        next_block: None,
        result: None,
        dest,
    }
}

/// The value of a literal.
pub open spec fn literal_value(l: Literal) -> Value {
    match l {
        Literal::Int(i) => Value::Int(i),
        Literal::Bool(b) => Value::Bool(b),
        Literal::Float(f) => Value::Float(f),
    }
}

/// The failure of a step at an instruction.
pub open spec fn failed(m: MachineView, e: InterpError, pos: Option<Position>) -> Stepped {
    Stepped { machine: m, result: Err(PositionalInterpError { e, pos }) }
}

/// The state after the current function called the function `c`: the
/// callee starts at its first block.
pub open spec fn after_call(
    m: MachineView,
    prog: BBProgram,
    c: usize,
    dest: Option<u32>,
    pos: Option<Position>,
) -> Stepped {
    if c < prog.functions.len() && prog.functions[c as int].blocks.len() > 0 {
        let func = prog.functions[c as int];
        Stepped {
            machine: MachineView {
                stack: m.stack.push(at_block(func, called(c, dest), 0)),
                count: counted_in(m.count, func.blocks[0].instrs.len()),
                ..m
            },
            result: Ok(ActionView::Continue),
        }
    } else {
        failed(m, InterpError::IllFormed, pos)
    }
}

/// The state after an instruction of the current block. `m` is the state
/// with the instruction already counted as done.
pub open spec fn after_instr(m: MachineView, prog: BBProgram, instr: Instr) -> Stepped {
    let act = m.stack.last();
    let func = prog.functions[act.func as int];
    let block = func.blocks[act.block as int];
    match instr {
        Instr::Constant { dest, const_type, value, pos } => {
            if !can_write(m.store.scopes, dest) {
                failed(m, InterpError::IllFormed, pos)
            } else if const_type == Type::Float {
                match value {
                    Literal::Int(i) => Stepped {
                        machine: MachineView { awaited: Some(dest), ..m },
                        result: Ok(ActionView::Promote(i)),
                    },
                    Literal::Float(f) => Stepped {
                        machine: MachineView {
                            store: Store {
                                scopes: written(m.store.scopes, dest, Value::Float(f)),
                                ..m.store
                            },
                            ..m
                        },
                        result: Ok(ActionView::Continue),
                    },
                    Literal::Bool(_) => failed(m, InterpError::IllFormed, pos),
                }
            } else {
                Stepped {
                    machine: MachineView {
                        store: Store {
                            scopes: written(m.store.scopes, dest, literal_value(value)),
                            ..m.store
                        },
                        ..m
                    },
                    result: Ok(ActionView::Continue),
                }
            }
        },
        Instr::Value { op, dest, args, labels, funcs, pos } => {
            let vs = value_step(prog, op, dest, args@, labels@, funcs@, m.store, act.last_label);
            let m1 = MachineView { store: vs.store, ..m };
            match vs.result {
                Err(e) => failed(m1, e, pos),
                Ok(ValueOutcome::Done) => Stepped { machine: m1, result: Ok(ActionView::Continue) },
                Ok(ValueOutcome::Call(c)) => after_call(m1, prog, c, Some(dest), pos),
                Ok(ValueOutcome::Float { op, lhs, rhs }) => Stepped {
                    machine: MachineView { awaited: Some(dest), ..m1 },
                    result: Ok(ActionView::Float { op, lhs, rhs }),
                },
            }
        },
        Instr::Effect { op, args, funcs, pos } => {
            let es = effect_step(
                prog,
                func,
                op,
                args@,
                funcs@,
                block.exit@,
                m.store,
                act.next_block,
            );
            let m1 = MachineView { store: es.store, ..m };
            match es.result {
                Err(e) => failed(m1, e, pos),
                Ok(o) => {
                    let updated = Activation {
                        next_block: es.next_block,
                        result: match o {
                            EffectOutcomeView::Return(v) => v,
                            _ => None,
                        },
                        ..act
                    };
                    let m2 = MachineView {
                        stack: m1.stack.update(m1.stack.len() - 1, updated),
                        ..m1
                    };
                    match o {
                        EffectOutcomeView::Print(vals) => Stepped {
                            machine: m2,
                            result: Ok(ActionView::Print(vals)),
                        },
                        EffectOutcomeView::Call(c) => after_call(m2, prog, c, None, pos),
                        _ => Stepped { machine: m2, result: Ok(ActionView::Continue) },
                    }
                },
            }
        },
    }
}

/// The state after the current block is done: the next block is entered,
/// or the function returns to its caller, which gets its value.
pub open spec fn after_block(m: MachineView, prog: BBProgram) -> Stepped {
    let act = m.stack.last();
    let func = prog.functions[act.func as int];
    match act.next_block {
        Some(idx) => if idx < func.blocks.len() {
            Stepped {
                machine: MachineView {
                    stack: m.stack.update(m.stack.len() - 1, at_block(func, act, idx)),
                    count: counted_in(m.count, func.blocks[idx as int].instrs.len()),
                    ..m
                },
                result: Ok(ActionView::Continue),
            }
        } else {
            failed(m, InterpError::IllFormed, None)
        },
        None => {
            let rest = m.stack.drop_last();
            if rest.len() == 0 {
                Stepped {
                    machine: MachineView { stack: rest, ..m },
                    result: Ok(ActionView::Finished),
                }
            } else {
                let scopes = if m.store.scopes.len() > 0 {
                    m.store.scopes.drop_last()
                } else {
                    m.store.scopes
                };
                let m1 = MachineView { stack: rest, store: Store { scopes, ..m.store }, ..m };
                match act.dest {
                    None => Stepped { machine: m1, result: Ok(ActionView::Continue) },
                    Some(d) => match act.result {
                        Some(v) => if can_write(scopes, d) {
                            Stepped {
                                machine: MachineView {
                                    store: Store { scopes: written(scopes, d, v), ..m1.store },
                                    ..m1
                                },
                                result: Ok(ActionView::Continue),
                            }
                        } else {
                            failed(m1, InterpError::IllFormed, None)
                        },
                        None => failed(m1, InterpError::IllFormed, None),
                    },
                }
            }
        },
    }
}

/// The step of a run.
///
/// While a value from outside is awaited, or where the current function or
/// block is not of the program, the step fails. Without a running function
/// the run is over. Otherwise the next instruction of the current block
/// runs; and when the block is done, the next block is entered or the
/// function returns.
pub open spec fn stepped(m: MachineView, prog: BBProgram) -> Stepped {
    if m.awaited is Some {
        failed(m, InterpError::IllFormed, None)
    } else if m.stack.len() == 0 {
        Stepped { machine: m, result: Ok(ActionView::Finished) }
    } else {
        let act = m.stack.last();
        if act.func >= prog.functions.len() || act.block >= prog.functions[act.func as int].blocks.len() {
            failed(m, InterpError::IllFormed, None)
        } else {
            let block = prog.functions[act.func as int].blocks[act.block as int];
            if act.index < block.instrs.len() {
                let advanced = Activation { index: (act.index + 1) as usize, ..act };
                after_instr(
                    MachineView { stack: m.stack.update(m.stack.len() - 1, advanced), ..m },
                    prog,
                    block.instrs[act.index as int],
                )
            } else {
                after_block(m, prog)
            }
        }
    }
}

/// Whether a result is the one that the model gives.
pub open spec fn same_action(
    r: Result<Action, PositionalInterpError>,
    wanted: Result<ActionView, PositionalInterpError>,
) -> bool {
    match (r, wanted) {
        (Ok(a), Ok(v)) => a@ == v,
        (Err(e), Err(f)) => e == f,
        _ => false,
    }
}

fn copy_label(label: &Option<String>) -> (r: Option<String>)
    ensures
        r == *label,
{
    match label {
        Some(l) => Some(l.clone()),
        None => None,
    }
}

fn add_count(count: u32, len: usize) -> (r: u32)
    ensures
        r == counted_in(count, len),
{
    if len > (u32::MAX - count) as usize {
        u32::MAX
    } else {
        count + len as u32
    }
}

impl Machine {
    fn enter_block(&mut self, func: &BBFunction, idx: usize)
        requires
            old(self).stack.len() > 0,
            idx < func.blocks.len(),
        ensures
            final(self)@ == (MachineView {
                stack: old(self)@.stack.update(
                    old(self)@.stack.len() - 1,
                    at_block(*func, old(self)@.stack.last(), idx),
                ),
                count: counted_in(old(self)@.count, func.blocks[idx as int].instrs.len()),
                ..old(self)@
            }),
            final(self).heap == old(self).heap,
    {
        let top = self.stack.len() - 1;
        let b = &func.blocks[idx];
        let last = copy_label(&self.stack[top].current_label);
        self.stack[top].block = idx;
        self.stack[top].index = 0;
        self.stack[top].last_label = last;
        self.stack[top].current_label = copy_label(&b.label);
        self.stack[top].next_block = if b.exit.len() == 1 {
            Some(b.exit[0])
        } else {
            None
        };
        self.instruction_count = add_count(self.instruction_count, b.instrs.len());
        assert(self.stack@ =~= old(self).stack@.update(
            top as int,
            at_block(*func, old(self)@.stack.last(), idx),
        ));
    }

    fn call(&mut self, prog: &BBProgram, c: usize, dest: Option<u32>, pos: Option<Position>) -> (r:
        Result<Action, PositionalInterpError>)
        ensures
            final(self)@ == after_call(old(self)@, *prog, c, dest, pos).machine,
            same_action(r, after_call(old(self)@, *prog, c, dest, pos).result),
            final(self).heap == old(self).heap,
    {
        if c >= prog.functions.len() || prog.functions[c].blocks.len() == 0 {
            return Err(InterpError::IllFormed.add_pos(pos));
        }
        let ghost before = self.stack@;
        self.stack.push(
            Activation {
                func: c,
                block: 0,
                index: 0,
                last_label: None,
                current_label: None,
                next_block: None,
                result: None,
                dest,
            },
        );
        self.enter_block(&prog.functions[c], 0);
        assert(self.stack@ =~= before.push(at_block(prog.functions[c as int], called(c, dest), 0)));
        Ok(Action::Continue)
    }

    /// Takes one step of the run.
    pub fn execute(&mut self, prog: &BBProgram) -> (r: Result<Action, PositionalInterpError>)
        requires
            old(self).heap@.wf(),
        ensures
            final(self).heap@.wf(),
            final(self)@ == stepped(old(self)@, *prog).machine,
            same_action(r, stepped(old(self)@, *prog).result),
    {
        if self.awaited.is_some() {
            return Err(PositionalInterpError::new(InterpError::IllFormed));
        }
        if self.stack.len() == 0 {
            return Ok(Action::Finished);
        }
        let top = self.stack.len() - 1;
        let func_idx = self.stack[top].func;
        let block_idx = self.stack[top].block;
        if func_idx >= prog.functions.len() || block_idx >= prog.functions[func_idx].blocks.len() {
            return Err(PositionalInterpError::new(InterpError::IllFormed));
        }
        let func = &prog.functions[func_idx];
        let block = &func.blocks[block_idx];
        let index = self.stack[top].index;
        let ghost m0 = self@;
        if index < block.instrs.len() {
            self.stack[top].index = index + 1;
            let ghost m = self@;
            assert(m.stack =~= m0.stack.update(
                top as int,
                Activation { index: (index + 1) as usize, ..m0.stack.last() },
            ));
            let instr = &block.instrs[index];
            match instr {
                Instr::Constant { dest, const_type, value, pos } => {
                    let writable = self.value_store.env.len() > 0 && (*dest as usize)
                        < self.value_store.get_current_scope().vars.len();
                    assert(writable == can_write(m.store.scopes, *dest)) by {
                        if self.value_store.env.len() > 0 {
                            assert(scopes_of(self.value_store).last()
                                == self.value_store.env@.last().vars@);
                        }
                    }
                    if !writable {
                        return Err(InterpError::IllFormed.add_pos(*pos));
                    }
                    if const_type.is_float() {
                        match value {
                            Literal::Int(i) => {
                                self.awaited = Some(*dest);
                                Ok(Action::Promote(*i))
                            },
                            Literal::Float(f) => {
                                set_value(&mut self.value_store, *dest, Value::Float(*f));
                                Ok(Action::Continue)
                            },
                            Literal::Bool(_) => Err(InterpError::IllFormed.add_pos(*pos)),
                        }
                    } else {
                        let v = match value {
                            Literal::Int(i) => Value::Int(*i),
                            Literal::Bool(b) => Value::Bool(*b),
                            Literal::Float(f) => Value::Float(*f),
                        };
                        set_value(&mut self.value_store, *dest, v);
                        Ok(Action::Continue)
                    }
                },
                Instr::Value { op, dest, args, labels, funcs, pos } => {
                    let last = copy_label(&self.stack[top].last_label);
                    let outcome = match &last {
                        Some(l) => execute_value_op(
                            prog,
                            op,
                            *dest,
                            args,
                            labels,
                            funcs,
                            &mut self.value_store,
                            &mut self.heap,
                            Some(l),
                        ),
                        None => execute_value_op(
                            prog,
                            op,
                            *dest,
                            args,
                            labels,
                            funcs,
                            &mut self.value_store,
                            &mut self.heap,
                            None,
                        ),
                    };
                    match outcome {
                        Err(e) => Err(e.add_pos(*pos)),
                        Ok(ValueOutcome::Done) => Ok(Action::Continue),
                        Ok(ValueOutcome::Call(c)) => self.call(prog, c, Some(*dest), *pos),
                        Ok(ValueOutcome::Float { op, lhs, rhs }) => {
                            self.awaited = Some(*dest);
                            Ok(Action::Float { op, lhs, rhs })
                        },
                    }
                },
                Instr::Effect { op, args, funcs, pos } => {
                    let mut next_block = self.stack[top].next_block;
                    let outcome = execute_effect_op(
                        prog,
                        func,
                        op,
                        args,
                        funcs,
                        &block.exit,
                        &mut self.value_store,
                        &mut self.heap,
                        &mut next_block,
                    );
                    match outcome {
                        Err(e) => Err(e.add_pos(*pos)),
                        Ok(o) => {
                            let ghost m1 = self@;
                            self.stack[top].next_block = next_block;
                            self.stack[top].result = match &o {
                                EffectOutcome::Return(v) => *v,
                                _ => None,
                            };
                            assert(self.stack@ =~= m1.stack.update(
                                top as int,
                                Activation {
                                    next_block,
                                    result: match o@ {
                                        EffectOutcomeView::Return(v) => v,
                                        _ => None,
                                    },
                                    ..m1.stack.last()
                                },
                            ));
                            match o {
                                EffectOutcome::Print(vals) => Ok(Action::Print(vals)),
                                EffectOutcome::Call(c) => self.call(prog, c, None, *pos),
                                _ => Ok(Action::Continue),
                            }
                        },
                    }
                },
            }
        } else {
            match self.stack[top].next_block {
                Some(idx) => {
                    if idx >= func.blocks.len() {
                        return Err(PositionalInterpError::new(InterpError::IllFormed));
                    }
                    self.enter_block(func, idx);
                    Ok(Action::Continue)
                },
                None => {
                    let act = match self.stack.pop() {
                        Some(a) => a,
                        None => {
                            return Ok(Action::Finished);
                        },
                    };
                    assert(self.stack@ =~= m0.stack.drop_last());
                    if self.stack.len() == 0 {
                        return Ok(Action::Finished);
                    }
                    let ghost scopes0 = scopes_of(self.value_store);
                    self.value_store.pop();
                    assert(scopes_of(self.value_store) =~= if scopes0.len() > 0 {
                        scopes0.drop_last()
                    } else {
                        scopes0
                    });
                    match act.dest {
                        None => Ok(Action::Continue),
                        Some(d) => match act.result {
                            Some(v) => {
                                let writable = self.value_store.env.len() > 0 && (d as usize)
                                    < self.value_store.get_current_scope().vars.len();
                                assert(writable == can_write(scopes_of(self.value_store), d)) by {
                                    if self.value_store.env.len() > 0 {
                                        assert(scopes_of(self.value_store).last()
                                            == self.value_store.env@.last().vars@);
                                    }
                                }
                                if !writable {
                                    return Err(PositionalInterpError::new(InterpError::IllFormed));
                                }
                                set_value(&mut self.value_store, d, v);
                                Ok(Action::Continue)
                            },
                            None => Err(PositionalInterpError::new(InterpError::IllFormed)),
                        },
                    }
                },
            }
        }
    }

    /// The state after the awaited value came from outside.
    pub open spec fn resumed(m: MachineView, value: Value) -> Option<MachineView> {
        match m.awaited {
            Some(dest) => if can_write(m.store.scopes, dest) {
                Some(
                    MachineView {
                        store: Store { scopes: written(m.store.scopes, dest, value), ..m.store },
                        awaited: None,
                        ..m
                    },
                )
            } else {
                None
            },
            None => None,
        }
    }

    /// Takes the value that the last step asked for from outside, and
    /// writes it to the variable that waits for it. Returns whether a value
    /// was awaited and could be written; if not, nothing changes.
    pub fn resume(&mut self, value: Value) -> (ok: bool)
        ensures
            ok == Self::resumed(old(self)@, value) is Some,
            ok ==> final(self)@ == Self::resumed(old(self)@, value)->0,
            !ok ==> final(self)@ == old(self)@,
            final(self).heap == old(self).heap,
    {
        match self.awaited {
            Some(dest) => {
                let writable = self.value_store.env.len() > 0 && (dest as usize)
                    < self.value_store.get_current_scope().vars.len();
                assert(writable == can_write(scopes_of(self.value_store), dest)) by {
                    if self.value_store.env.len() > 0 {
                        assert(scopes_of(self.value_store).last()
                            == self.value_store.env@.last().vars@);
                    }
                }
                if !writable {
                    return false;
                }
                set_value(&mut self.value_store, dest, value);
                self.awaited = None;
                true
            },
            None => false,
        }
    }
}


/// The value of a decimal digit, if the character is one.
pub open spec fn digit_value(c: char) -> Option<int> {
    if c == '0' {
        Some(0)
    } else if c == '1' {
        Some(1)
    } else if c == '2' {
        Some(2)
    } else if c == '3' {
        Some(3)
    } else if c == '4' {
        Some(4)
    } else if c == '5' {
        Some(5)
    } else if c == '6' {
        Some(6)
    } else if c == '7' {
        Some(7)
    } else if c == '8' {
        Some(8)
    } else if c == '9' {
        Some(9)
    } else {
        None
    }
}

/// The number that the first `k` characters spell in decimal, if each is a
/// digit.
pub open spec fn digits_value(s: Seq<char>, k: nat) -> Option<int>
    decreases k,
{
    if k == 0 {
        Some(0)
    } else {
        match (digits_value(s, (k - 1) as nat), digit_value(s[k - 1])) {
            (Some(v), Some(d)) => Some(v * 10 + d),
            _ => None,
        }
    }
}

/// The integer that a text spells: an optional sign and then one or more
/// decimal digits, for a number that fits 64 bits.
pub open spec fn int_of_text(s: Seq<char>) -> Option<i64> {
    let negative = s.len() > 0 && s[0] == '-';
    let signed = s.len() > 0 && (s[0] == '-' || s[0] == '+');
    let body = if signed {
        s.drop_first()
    } else {
        s
    };
    if body.len() == 0 {
        None
    } else {
        match digits_value(body, body.len()) {
            Some(v) => {
                let x = if negative {
                    -v
                } else {
                    v
                };
                if i64::MIN <= x <= i64::MAX {
                    Some(x as i64)
                } else {
                    None
                }
            },
            None => None,
        }
    }
}

/// The boolean that a text spells: `true` or `false`.
pub open spec fn bool_of_text(s: Seq<char>) -> Option<bool> {
    if s == "true"@ {
        Some(true)
    } else if s == "false"@ {
        Some(false)
    } else {
        None
    }
}

fn digit_of(c: char) -> (r: Option<u8>)
    ensures
        match r {
            Some(d) => digit_value(c) == Some(d as int) && d <= 9,
            None => digit_value(c) is None,
        },
{
    if c == '0' {
        Some(0)
    } else if c == '1' {
        Some(1)
    } else if c == '2' {
        Some(2)
    } else if c == '3' {
        Some(3)
    } else if c == '4' {
        Some(4)
    } else if c == '5' {
        Some(5)
    } else if c == '6' {
        Some(6)
    } else if c == '7' {
        Some(7)
    } else if c == '8' {
        Some(8)
    } else if c == '9' {
        Some(9)
    } else {
        None
    }
}

/// The digits spell a number that is not negative, and more digits do not
/// spell a smaller one; once a character is no digit, the text spells none.
pub proof fn lemma_digits(s: Seq<char>, k: nat, n: nat)
    requires
        k <= n,
    ensures
        digits_value(s, k) is Some ==> digits_value(s, k)->0 >= 0,
        digits_value(s, k) is None ==> digits_value(s, n) is None,
        digits_value(s, k) is Some && digits_value(s, n) is Some ==> digits_value(s, k)->0
            <= digits_value(s, n)->0,
    decreases n,
{
    if k > 0 {
        lemma_digits(s, (k - 1) as nat, (k - 1) as nat);
    }
    if n > k {
        lemma_digits(s, k, (n - 1) as nat);
        if n > 0 {
            lemma_digits(s, (n - 1) as nat, (n - 1) as nat);
        }
    }
}

/// Reads an integer: an optional sign and then one or more decimal digits.
pub fn parse_int(text: &String) -> (r: Option<i64>)
    ensures
        r == int_of_text(text@),
{
    let s = text.as_str();
    let n = s.unicode_len();
    if n == 0 {
        return None;
    }
    let first = s.get_char(0);
    let negative = first == '-';
    let start: usize = if first == '-' || first == '+' {
        1
    } else {
        0
    };
    if start == n {
        assert(text@.drop_first().len() == 0);
        return None;
    }
    let ghost body = if start == 1 {
        text@.drop_first()
    } else {
        text@
    };
    let limit: u128 = if negative {
        9223372036854775808u128
    } else {
        9223372036854775807u128
    };
    let mut value: u128 = 0;
    let mut i: usize = start;
    while i < n
        invariant
            start <= i <= n,
            n == text@.len(),
            n > 0,
            s@ == text@,
            start <= 1,
            start < n,
            negative == (text@[0] == '-'),
            (start == 1) == (text@[0] == '-' || text@[0] == '+'),
            body == if start == 1 {
                text@.drop_first()
            } else {
                text@
            },
            limit == if negative {
                9223372036854775808u128
            } else {
                9223372036854775807u128
            },
            body.len() == n - start,
            forall|k: int| 0 <= k < body.len() ==> body[k] == text@[k + start],
            digits_value(body, (i - start) as nat) == Some(value as int),
            value <= limit,
            limit <= 9223372036854775808u128,
        decreases n - i,
    {
        let c = s.get_char(i);
        assert(body[i - start] == c);
        match digit_of(c) {
            Some(d) => {
                let next = value * 10 + d as u128;
                assert(digits_value(body, (i - start + 1) as nat) == Some(next as int));
                if next > limit {
                    proof {
                        lemma_digits(body, (i - start + 1) as nat, body.len());
                    }
                    return None;
                }
                value = next;
            },
            None => {
                proof {
                    lemma_digits(body, (i - start + 1) as nat, body.len());
                }
                return None;
            },
        }
        i += 1;
    }
    if negative {
        if value == 9223372036854775808u128 {
            Some(i64::MIN)
        } else {
            Some(-(value as i64))
        }
    } else {
        Some(value as i64)
    }
}

/// Reads a boolean: `true` or `false`.
pub fn parse_bool(text: &String) -> (r: Option<bool>)
    ensures
        r == bool_of_text(text@),
{
    if is_str(text, "true") {
        Some(true)
    } else if is_str(text, "false") {
        Some(false)
    } else {
        None
    }
}

/// An argument of the program as it was given: its text and, where the
/// text spells a floating-point number, the bit pattern of that number.
#[derive(Debug)]
pub struct Input {
    pub text: String,
    pub float_bits: Option<u64>,
}

/// The value that an input gives to a parameter of the given type.
pub open spec fn input_value(arg_type: Type, input: Input) -> Result<Value, InterpError> {
    let bad = Err(InterpError::BadFuncArgType(arg_type, input.text));
    match arg_type {
        Type::Bool => match bool_of_text(input.text@) {
            Some(b) => Ok(Value::Bool(b)),
            None => bad,
        },
        Type::Int => match int_of_text(input.text@) {
            Some(i) => Ok(Value::Int(i)),
            None => bad,
        },
        Type::Float => match input.float_bits {
            Some(f) => Ok(Value::Float(f)),
            None => bad,
        },
        Type::Pointer(_) => bad,
    }
}

/// The scopes after the first `k` parameters got the values of the inputs,
/// in order.
pub open spec fn bound_inputs(
    scopes: Seq<Seq<Value>>,
    args: Seq<Argument>,
    nums: Seq<u32>,
    inputs: Seq<Input>,
    k: nat,
) -> Result<Seq<Seq<Value>>, InterpError>
    decreases k,
{
    if k == 0 {
        Ok(scopes)
    } else {
        match bound_inputs(scopes, args, nums, inputs, (k - 1) as nat) {
            Ok(prev) => match input_value(args[k - 1].arg_type, inputs[k - 1]) {
                Ok(v) => if can_write(prev, nums[k - 1]) {
                    Ok(written(prev, nums[k - 1], v))
                } else {
                    Err(InterpError::IllFormed)
                },
                Err(e) => Err(e),
            },
            Err(e) => Err(e),
        }
    }
}

/// The scopes after the parameters of the main function got the values of
/// the inputs: there must be as many inputs as parameters, and each must
/// spell a value of the parameter's type.
pub open spec fn parsed_args(
    scopes: Seq<Seq<Value>>,
    args: Seq<Argument>,
    nums: Seq<u32>,
    inputs: Seq<Input>,
) -> Result<Seq<Seq<Value>>, InterpError> {
    if args.len() == 0 && inputs.len() == 0 {
        Ok(scopes)
    } else if inputs.len() != args.len() {
        Err(InterpError::BadNumFuncArgs(args.len() as usize, inputs.len() as usize))
    } else {
        bound_inputs(
            scopes,
            args,
            nums,
            inputs,
            if args.len() <= nums.len() {
                args.len()
            } else {
                nums.len()
            },
        )
    }
}

/// Whether a result is the one that the model gives.
pub open spec fn same_scopes(
    r: Result<Environment, InterpError>,
    wanted: Result<Seq<Seq<Value>>, InterpError>,
) -> bool {
    match (r, wanted) {
        (Ok(env), Ok(scopes)) => scopes_of(env) == scopes,
        (Err(e), Err(f)) => e == f,
        _ => false,
    }
}

fn value_of_input(arg_type: &Type, input: &Input) -> (r: Result<Value, InterpError>)
    ensures
        r == input_value(*arg_type, *input),
{
    let parsed = match arg_type {
        Type::Bool => match parse_bool(&input.text) {
            Some(b) => Some(Value::Bool(b)),
            None => None,
        },
        Type::Int => match parse_int(&input.text) {
            Some(i) => Some(Value::Int(i)),
            None => None,
        },
        Type::Float => match input.float_bits {
            Some(f) => Some(Value::Float(f)),
            None => None,
        },
        Type::Pointer(_) => None,
    };
    match parsed {
        Some(v) => Ok(v),
        None => Err(InterpError::BadFuncArgType(arg_type.clone(), input.text.clone())),
    }
}

/// A failure with later inputs is the failure with the first that fails.
pub proof fn lemma_bound_inputs_fail(
    scopes: Seq<Seq<Value>>,
    args: Seq<Argument>,
    nums: Seq<u32>,
    inputs: Seq<Input>,
    k: nat,
    n: nat,
)
    requires
        k <= n,
        bound_inputs(scopes, args, nums, inputs, k) is Err,
    ensures
        bound_inputs(scopes, args, nums, inputs, n) == bound_inputs(scopes, args, nums, inputs, k),
    decreases n,
{
    if n > k {
        lemma_bound_inputs_fail(scopes, args, nums, inputs, k, (n - 1) as nat);
    }
}

/// Gives the parameters of the main function the values that the inputs
/// spell.
pub fn parse_args(
    env: Environment,
    args: &Vec<Argument>,
    args_as_nums: &Vec<u32>,
    inputs: &Vec<Input>,
) -> (r: Result<Environment, InterpError>)
    ensures
        same_scopes(r, parsed_args(scopes_of(env), args@, args_as_nums@, inputs@)),
{
    let ghost wanted = parsed_args(scopes_of(env), args@, args_as_nums@, inputs@);
    let ghost initial = scopes_of(env);
    let mut scopes = env;
    if args.len() == 0 && inputs.len() == 0 {
        return Ok(scopes);
    }
    if inputs.len() != args.len() {
        return Err(InterpError::BadNumFuncArgs(args.len(), inputs.len()));
    }
    let count = if args.len() <= args_as_nums.len() {
        args.len()
    } else {
        args_as_nums.len()
    };
    let ghost start = initial;
    let mut k: usize = 0;
    while k < count
        invariant
            k <= count,
            count <= args.len(),
            count <= args_as_nums.len(),
            count == if args.len() <= args_as_nums.len() {
                args.len()
            } else {
                args_as_nums.len()
            },
            !(args.len() == 0 && inputs.len() == 0),
            start == initial,
            initial == scopes_of(env),
            wanted == parsed_args(initial, args@, args_as_nums@, inputs@),
            inputs.len() == args.len(),
            bound_inputs(start, args@, args_as_nums@, inputs@, k as nat) == Ok::<
                Seq<Seq<Value>>,
                InterpError,
            >(scopes_of(scopes)),
        decreases count - k,
    {
        match value_of_input(&args[k].arg_type, &inputs[k]) {
            Ok(v) => {
                let writable = scopes.env.len() > 0 && (args_as_nums[k] as usize)
                    < scopes.get_current_scope().vars.len();
                assert(writable == can_write(scopes_of(scopes), args_as_nums[k as int])) by {
                    if scopes.env.len() > 0 {
                        assert(scopes_of(scopes).last() == scopes.env@.last().vars@);
                    }
                }
                if !writable {
                    proof {
                        assert(bound_inputs(start, args@, args_as_nums@, inputs@, (k + 1) as nat)
                            == Err::<Seq<Seq<Value>>, InterpError>(InterpError::IllFormed));
                        lemma_bound_inputs_fail(
                            start,
                            args@,
                            args_as_nums@,
                            inputs@,
                            (k + 1) as nat,
                            count as nat,
                        );
                        assert(wanted == Err::<Seq<Seq<Value>>, InterpError>(InterpError::IllFormed));
                    }
                    return Err(InterpError::IllFormed);
                }
                set_value(&mut scopes, args_as_nums[k], v);
            },
            Err(e) => {
                proof {
                    assert(bound_inputs(start, args@, args_as_nums@, inputs@, (k + 1) as nat)
                        == Err::<Seq<Seq<Value>>, InterpError>(e));
                    lemma_bound_inputs_fail(
                        start,
                        args@,
                        args_as_nums@,
                        inputs@,
                        (k + 1) as nat,
                        count as nat,
                    );
                    assert(wanted == Err::<Seq<Seq<Value>>, InterpError>(e));
                }
                return Err(e);
            },
        }
        k += 1;
    }
    Ok(scopes)
}

/// The state at the start of a run, or the reason why the program cannot
/// run: it has no function `main`, `main` has a return type, the inputs do
/// not fit its parameters, or it has no block.
pub open spec fn started(prog: BBProgram, inputs: Seq<Input>) -> Result<
    MachineView,
    PositionalInterpError,
> {
    match prog.index_of("main"@) {
        None => Err(PositionalInterpError { e: InterpError::NoMainFunction, pos: None }),
        Some(idx) => {
            let main = prog.functions[idx as int];
            if main.return_type is Some {
                Err(
                    PositionalInterpError {
                        e: InterpError::NonEmptyRetForFunc(main.name),
                        pos: main.pos,
                    },
                )
            } else {
                let scope = Seq::new(main.num_of_vars as nat, |i: int| Value::Uninitialized);
                match parsed_args(seq![scope], main.args@, main.args_as_nums@, inputs) {
                    Err(e) => Err(PositionalInterpError { e, pos: main.pos }),
                    Ok(scopes) => if main.blocks.len() == 0 {
                        Err(PositionalInterpError { e: InterpError::IllFormed, pos: main.pos })
                    } else {
                        Ok(
                            MachineView {
                                store: Store { scopes, heap: fresh_heap() },
                                stack: seq![at_block(main, called(idx, None), 0)],
                                count: counted_in(0, main.blocks[0].instrs.len()),
                                awaited: None,
                            },
                        )
                    },
                }
            }
        },
    }
}

/// The heap at the start of a run: nothing allocated, no cell written.
pub open spec fn fresh_heap() -> HeapView {
    HeapView {
        memory: Seq::new(crate::interp::heap::HEAP_SIZE as nat, |i: int| Value::Uninitialized),
        sizes: Map::empty(),
        forwarded: Map::empty(),
        base_ptr: 0,
        is_top: true,
        gc_limit: crate::interp::heap::INITIAL_GC_LIMIT,
    }
}

/// Sets a run up: finds the function `main`, gives its parameters the
/// values of the inputs, and enters its first block.
pub fn execute_main(prog: &BBProgram, input_args: &Vec<Input>) -> (r: Result<
    Machine,
    PositionalInterpError,
>)
    ensures
        match (r, started(*prog, input_args@)) {
            (Ok(m), Ok(v)) => m@ == v && m.heap@.wf(),
            (Err(e), Err(f)) => e == f,
            _ => false,
        },
{
    let name = String::from_str("main");
    let idx = match prog.get(&name) {
        Some(i) => i,
        None => {
            return Err(PositionalInterpError::new(InterpError::NoMainFunction));
        },
    };
    let main_func = &prog.functions[idx];
    if main_func.return_type.is_some() {
        return Err(InterpError::NonEmptyRetForFunc(main_func.name.clone()).add_pos(main_func.pos));
    }
    let scope = Scope::new(main_func.num_of_vars);
    let ghost vars = scope.vars@;
    assert(vars =~= Seq::new(main_func.num_of_vars as nat, |i: int| Value::Uninitialized));
    let env = Environment::new(scope);
    assert(scopes_of(env) =~= seq![vars]);
    let heap = Heap::default();
    assert(heap@ =~= fresh_heap()) by {
        assert(heap@.memory =~= fresh_heap().memory);
        assert(heap@.forwarded == fresh_heap().forwarded);
    }
    let value_store = match parse_args(
        env,
        &main_func.args,
        &main_func.args_as_nums,
        input_args,
    ) {
        Ok(e) => e,
        Err(e) => {
            return Err(e.add_pos(main_func.pos));
        },
    };
    let mut machine = Machine {
        value_store,
        heap,
        stack: Vec::new(),
        instruction_count: 0,
        awaited: None,
    };
    match machine.call(prog, idx, None, main_func.pos) {
        Ok(_) => {
            assert(machine@.stack =~= seq![at_block(*main_func, called(idx, None), 0)]);
            Ok(machine)
        },
        Err(e) => Err(e),
    }
}

} // verus!
