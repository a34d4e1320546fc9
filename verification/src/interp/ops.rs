//! What the operations of the language do to the variables and the heap.
use crate::interp::heap::{collected, scopes_of, Heap, HeapError, HeapView};
use crate::interp::program::{BBFunction, BBProgram, EffectOp, InterpError, ValueOp};
use crate::interp::value::{Environment, Pointer, Scope, Value};
use crate::lvn::{quotient, wrapping_quotient};
use vstd::prelude::*;

verus! {

/// The value of argument `i` in the current scope, if the argument is
/// there and names a variable of the scope.
pub open spec fn operand(scopes: Seq<Seq<Value>>, args: Seq<u32>, i: int) -> Option<Value> {
    if scopes.len() > 0 && 0 <= i < args.len() && args[i] < scopes.last().len() {
        Some(scopes.last()[args[i] as int])
    } else {
        None
    }
}

/// Whether the current scope has the variable.
pub open spec fn can_write(scopes: Seq<Seq<Value>>, dest: u32) -> bool {
    scopes.len() > 0 && dest < scopes.last().len()
}

/// The scopes after a variable of the current scope was written.
pub open spec fn written(scopes: Seq<Seq<Value>>, dest: u32, v: Value) -> Seq<Seq<Value>> {
    scopes.update(scopes.len() - 1, scopes.last().update(dest as int, v))
}

/// Whether the operation computes a value from its operands alone, by
/// integer or logical arithmetic, copying, or pointer arithmetic.
pub open spec fn is_pure(op: ValueOp) -> bool {
    match op {
        ValueOp::Add
        | ValueOp::Mul
        | ValueOp::Sub
        | ValueOp::Div
        | ValueOp::Eq
        | ValueOp::Lt
        | ValueOp::Gt
        | ValueOp::Le
        | ValueOp::Ge
        | ValueOp::Not
        | ValueOp::And
        | ValueOp::Or
        | ValueOp::Id
        | ValueOp::PtrAdd => true,
        _ => false,
    }
}

/// Whether the operation is one of floating-point arithmetic or
/// comparison.
pub open spec fn is_float(op: ValueOp) -> bool {
    match op {
        ValueOp::Fadd
        | ValueOp::Fmul
        | ValueOp::Fsub
        | ValueOp::Fdiv
        | ValueOp::Feq
        | ValueOp::Flt
        | ValueOp::Fgt
        | ValueOp::Fle
        | ValueOp::Fge => true,
        _ => false,
    }
}

/// The value of an operation on two integers. Arithmetic wraps around in 64
/// bits; division rounds towards zero, and by zero it fails.
pub open spec fn int_binary(op: ValueOp, x: i64, y: i64) -> Result<Value, InterpError> {
    match op {
        ValueOp::Add => Ok(Value::Int(x.wrapping_add(y))),
        ValueOp::Mul => Ok(Value::Int(x.wrapping_mul(y))),
        ValueOp::Sub => Ok(Value::Int(x.wrapping_sub(y))),
        ValueOp::Div => if y == 0 {
            Err(InterpError::DivisionByZero)
        } else {
            Ok(Value::Int(quotient(x, y)))
        },
        ValueOp::Eq => Ok(Value::Bool(x == y)),
        ValueOp::Lt => Ok(Value::Bool(x < y)),
        ValueOp::Gt => Ok(Value::Bool(x > y)),
        ValueOp::Le => Ok(Value::Bool(x <= y)),
        ValueOp::Ge => Ok(Value::Bool(x >= y)),
        _ => Err(InterpError::IllFormed),
    }
}

/// The value of a pure operation on its operands. An operand that is
/// missing or of the wrong kind makes the operation ill-formed.
pub open spec fn computed(op: ValueOp, a: Option<Value>, b: Option<Value>) -> Result<
    Value,
    InterpError,
> {
    match op {
        ValueOp::Add
        | ValueOp::Mul
        | ValueOp::Sub
        | ValueOp::Div
        | ValueOp::Eq
        | ValueOp::Lt
        | ValueOp::Gt
        | ValueOp::Le
        | ValueOp::Ge => match (a, b) {
            (Some(Value::Int(x)), Some(Value::Int(y))) => int_binary(op, x, y),
            _ => Err(InterpError::IllFormed),
        },
        ValueOp::Not => match a {
            Some(Value::Bool(x)) => Ok(Value::Bool(!x)),
            _ => Err(InterpError::IllFormed),
        },
        ValueOp::And => match (a, b) {
            (Some(Value::Bool(x)), Some(Value::Bool(y))) => Ok(Value::Bool(x && y)),
            _ => Err(InterpError::IllFormed),
        },
        ValueOp::Or => match (a, b) {
            (Some(Value::Bool(x)), Some(Value::Bool(y))) => Ok(Value::Bool(x || y)),
            _ => Err(InterpError::IllFormed),
        },
        ValueOp::Id => match a {
            Some(v) => Ok(v),
            None => Err(InterpError::IllFormed),
        },
        ValueOp::PtrAdd => match (a, b) {
            (Some(Value::Pointer(p)), Some(Value::Int(i))) => Ok(
                Value::Pointer(Pointer { base: p.base, offset: p.offset.wrapping_add(i) }),
            ),
            _ => Err(InterpError::IllFormed),
        },
        _ => Err(InterpError::IllFormed),
    }
}

/// Computes a pure operation on its operands.
pub fn compute(op: ValueOp, a: Option<Value>, b: Option<Value>) -> (r: Result<Value, InterpError>)
    ensures
        r == computed(op, a, b),
{
    match op {
        ValueOp::Add
        | ValueOp::Mul
        | ValueOp::Sub
        | ValueOp::Div
        | ValueOp::Eq
        | ValueOp::Lt
        | ValueOp::Gt
        | ValueOp::Le
        | ValueOp::Ge => match (a, b) {
            (Some(Value::Int(x)), Some(Value::Int(y))) => match op {
                ValueOp::Add => Ok(Value::Int(x.wrapping_add(y))),
                ValueOp::Mul => Ok(Value::Int(x.wrapping_mul(y))),
                ValueOp::Sub => Ok(Value::Int(x.wrapping_sub(y))),
                ValueOp::Div => if y == 0 {
                    Err(InterpError::DivisionByZero)
                } else {
                    Ok(Value::Int(wrapping_quotient(x, y)))
                },
                ValueOp::Eq => Ok(Value::Bool(x == y)),
                ValueOp::Lt => Ok(Value::Bool(x < y)),
                ValueOp::Gt => Ok(Value::Bool(x > y)),
                ValueOp::Le => Ok(Value::Bool(x <= y)),
                ValueOp::Ge => Ok(Value::Bool(x >= y)),
                _ => Err(InterpError::IllFormed),
            },
            _ => Err(InterpError::IllFormed),
        },
        ValueOp::Not => match a {
            Some(Value::Bool(x)) => Ok(Value::Bool(!x)),
            _ => Err(InterpError::IllFormed),
        },
        ValueOp::And => match (a, b) {
            (Some(Value::Bool(x)), Some(Value::Bool(y))) => Ok(Value::Bool(x && y)),
            _ => Err(InterpError::IllFormed),
        },
        ValueOp::Or => match (a, b) {
            (Some(Value::Bool(x)), Some(Value::Bool(y))) => Ok(Value::Bool(x || y)),
            _ => Err(InterpError::IllFormed),
        },
        ValueOp::Id => match a {
            Some(v) => Ok(v),
            None => Err(InterpError::IllFormed),
        },
        ValueOp::PtrAdd => match (a, b) {
            (Some(Value::Pointer(p)), Some(Value::Int(i))) => Ok(Value::Pointer(p.add(i))),
            _ => Err(InterpError::IllFormed),
        },
        _ => Err(InterpError::IllFormed),
    }
}

/// The value of an argument in the current scope.
pub fn get_value(vars: &Environment, index: usize, args: &Vec<u32>) -> (r: Option<Value>)
    ensures
        r == operand(scopes_of(*vars), args@, index as int),
{
    if vars.env.len() == 0 || index >= args.len() {
        return None;
    }
    let scope = vars.get_current_scope();
    assert(scopes_of(*vars).last() == scope.vars@);
    if (args[index] as usize) < scope.vars.len() {
        Some(*scope.get(&args[index]))
    } else {
        None
    }
}

/// Writes a variable of the current scope.
pub fn set_value(vars: &mut Environment, dest: u32, val: Value)
    requires
        can_write(scopes_of(*old(vars)), dest),
    ensures
        scopes_of(*final(vars)) == written(scopes_of(*old(vars)), dest, val),
{
    let ghost before = scopes_of(*vars);
    let ghost env_before = vars.env@;
    assert(before.last() == vars.env@.last().vars@);
    let last = vars.env.len() - 1;
    vars.env[last].set(dest, val);
    assert(scopes_of(*vars) =~= written(before, dest, val)) by {
        assert(vars.env@.len() == env_before.len());
        assert forall|j: int| 0 <= j < env_before.len() implies scopes_of(*vars)[j] == written(
            before,
            dest,
            val,
        )[j] by {
            if j != last {
                assert(vars.env@[j] == env_before[j]);
                assert(before[j] == env_before[j].vars@);
            }
        }
    }
}

/// The error of the interpreter that a heap error stands for.
pub open spec fn heap_error(e: HeapError) -> InterpError {
    match e {
        HeapError::CannotAllocSize(n) => InterpError::CannotAllocSize(n),
        HeapError::InvalidMemoryAccess(b, o) => InterpError::InvalidMemoryAccess(b, o),
        HeapError::UsingUninitializedMemory => InterpError::UsingUninitializedMemory,
    }
}

/// The error of the interpreter that a heap error stands for.
pub fn from_heap_error(e: HeapError) -> (r: InterpError)
    ensures
        r == heap_error(e),
{
    match e {
        HeapError::CannotAllocSize(n) => InterpError::CannotAllocSize(n),
        HeapError::InvalidMemoryAccess(b, o) => InterpError::InvalidMemoryAccess(b, o),
        HeapError::UsingUninitializedMemory => InterpError::UsingUninitializedMemory,
    }
}

/// The scope of a callee after the first `k` arguments of the call were
/// bound to its parameters, if every one of them names a variable of the
/// caller and has a parameter of the callee's scope.
pub open spec fn bound_args(
    callee: BBFunction,
    args: Seq<u32>,
    caller: Seq<Value>,
    k: nat,
) -> Option<Seq<Value>>
    decreases k,
{
    if k == 0 {
        Some(Seq::new(callee.num_of_vars as nat, |i: int| Value::Uninitialized))
    } else {
        match bound_args(callee, args, caller, (k - 1) as nat) {
            Some(scope) => if args[k - 1] < caller.len() && callee.args_as_nums[k - 1]
                < scope.len() {
                Some(scope.update(callee.args_as_nums[k - 1] as int, caller[args[k - 1] as int]))
            } else {
                None
            },
            None => None,
        }
    }
}

/// The number of arguments of a call that are bound: as many as the call
/// gives and the callee takes.
pub open spec fn bound_count(callee: BBFunction, args: Seq<u32>) -> nat {
    if args.len() <= callee.args_as_nums.len() {
        args.len()
    } else {
        callee.args_as_nums.len() as nat
    }
}

/// The scopes after a call entered the scope of the callee, if the
/// arguments can be bound.
pub open spec fn entered(callee: BBFunction, args: Seq<u32>, scopes: Seq<Seq<Value>>) -> Option<
    Seq<Seq<Value>>,
> {
    if scopes.len() == 0 {
        None
    } else {
        match bound_args(callee, args, scopes.last(), bound_count(callee, args)) {
            Some(scope) => Some(scopes.push(scope)),
            None => None,
        }
    }
}

/// Enters the scope of a callee: a new scope in which the parameters hold
/// the values of the arguments, by position. Returns whether the arguments
/// could be bound; if not, nothing changes.
pub fn make_func_args(callee_func: &BBFunction, args: &Vec<u32>, vars: &mut Environment) -> (ok:
    bool)
    ensures
        ok == entered(*callee_func, args@, scopes_of(*old(vars))) is Some,
        ok ==> scopes_of(*final(vars)) == entered(*callee_func, args@, scopes_of(*old(vars)))->0,
        !ok ==> scopes_of(*final(vars)) == scopes_of(*old(vars)),
{
    if vars.env.len() == 0 {
        return false;
    }
    let mut new_scope = Scope::new(callee_func.num_of_vars);
    let count = if args.len() <= callee_func.args_as_nums.len() {
        args.len()
    } else {
        callee_func.args_as_nums.len()
    };
    let ghost caller = scopes_of(*vars).last();
    assert(caller == vars.env@.last().vars@);
    assert(new_scope.vars@ =~= Seq::new(
        callee_func.num_of_vars as nat,
        |i: int| Value::Uninitialized,
    ));
    let mut k: usize = 0;
    while k < count
        invariant
            k <= count,
            count == bound_count(*callee_func, args@),
            vars.env.len() > 0,
            caller == vars.env@.last().vars@,
            bound_args(*callee_func, args@, caller, k as nat) == Some(new_scope.vars@),
        decreases count - k,
    {
        let scope = vars.get_current_scope();
        if (args[k] as usize) >= scope.vars.len() || (callee_func.args_as_nums[k] as usize)
            >= new_scope.vars.len() {
            proof {
                lemma_bound_fails(*callee_func, args@, caller, (k + 1) as nat, count as nat);
            }
            return false;
        }
        let arg = *scope.get(&args[k]);
        new_scope.set(callee_func.args_as_nums[k], arg);
        k += 1;
    }
    let ghost before = scopes_of(*vars);
    vars.append(new_scope);
    assert(scopes_of(*vars) =~= before.push(new_scope.vars@));
    true
}

/// Once an argument cannot be bound, the call cannot be entered.
pub proof fn lemma_bound_fails(
    callee: BBFunction,
    args: Seq<u32>,
    caller: Seq<Value>,
    k: nat,
    n: nat,
)
    requires
        k <= n,
        bound_args(callee, args, caller, k) is None,
    ensures
        bound_args(callee, args, caller, n) is None,
    decreases n,
{
    if n > k {
        lemma_bound_fails(callee, args, caller, k, (n - 1) as nat);
    }
}


/// What is left to do after an operation with a destination.
#[derive(Debug, Clone, Copy, PartialEq, Eq)]
pub enum ValueOutcome {
    /// The destination was written.
    Done,
    /// The function with the given index was entered; its result goes to
    /// the destination when it returns.
    Call(usize),
    /// The operation is one on floating-point numbers, with the given bit
    /// patterns as operands; its result goes to the destination.
    Float { op: ValueOp, lhs: u64, rhs: u64 },
}

/// The variables and the heap.
pub struct Store {
    pub scopes: Seq<Seq<Value>>,
    pub heap: HeapView,
}

/// The variables and the heap after an operation with a destination, and
/// how the operation ended.
pub struct ValueStep {
    pub store: Store,
    pub result: Result<ValueOutcome, InterpError>,
}

/// The place of a label among the first `k` labels, if it is there.
pub open spec fn label_place(labels: Seq<String>, label: Seq<char>, k: nat) -> Option<int>
    decreases k,
{
    if k == 0 {
        None
    } else {
        match label_place(labels, label, (k - 1) as nat) {
            Some(i) => Some(i),
            None => if labels[k - 1]@ == label {
                Some(k - 1)
            } else {
                None
            },
        }
    }
}

/// The variables and the heap before an allocation of the given size: where
/// a collection is due, the limit grows and the collection runs.
pub open spec fn made_room(st: Store, amount: i64) -> Store {
    if st.heap.gc_due(amount) {
        let c = collected(st.heap.grown(), st.scopes);
        Store { scopes: c.scopes, heap: c.heap }
    } else {
        st
    }
}

/// What an operation with a destination does.
///
/// A pure operation writes its value to the destination. A floating-point
/// operation hands its operands out. A call enters the callee. A phi takes
/// the argument that belongs to the label of the block that ran before. An
/// allocation collects if a collection is due, and then allocates. A load
/// reads the heap.
pub open spec fn value_step(
    prog: BBProgram,
    op: ValueOp,
    dest: u32,
    args: Seq<u32>,
    labels: Seq<String>,
    funcs: Seq<String>,
    st: Store,
    last_label: Option<String>,
) -> ValueStep {
    let a = operand(st.scopes, args, 0);
    let b = operand(st.scopes, args, 1);
    if op == ValueOp::Call {
        if funcs.len() == 0 {
            ValueStep { store: st, result: Err(InterpError::IllFormed) }
        } else {
            match prog.index_of(funcs[0]@) {
                None => ValueStep { store: st, result: Err(InterpError::FuncNotFound(funcs[0])) },
                Some(c) => match entered(prog.functions[c as int], args, st.scopes) {
                    Some(scopes) => ValueStep {
                        store: Store { scopes, ..st },
                        result: Ok(ValueOutcome::Call(c)),
                    },
                    None => ValueStep { store: st, result: Err(InterpError::IllFormed) },
                },
            }
        }
    } else if !can_write(st.scopes, dest) {
        ValueStep { store: st, result: Err(InterpError::IllFormed) }
    } else if is_pure(op) {
        match computed(op, a, b) {
            Ok(v) => ValueStep {
                store: Store { scopes: written(st.scopes, dest, v), ..st },
                result: Ok(ValueOutcome::Done),
            },
            Err(e) => ValueStep { store: st, result: Err(e) },
        }
    } else if is_float(op) {
        match (a, b) {
            (Some(Value::Float(x)), Some(Value::Float(y))) => ValueStep {
                store: st,
                result: Ok(ValueOutcome::Float { op, lhs: x, rhs: y }),
            },
            _ => ValueStep { store: st, result: Err(InterpError::IllFormed) },
        }
    } else if op == ValueOp::Phi {
        match last_label {
            None => ValueStep { store: st, result: Err(InterpError::NoLastLabel) },
            Some(last) => match label_place(labels, last@, labels.len()) {
                None => ValueStep { store: st, result: Err(InterpError::PhiMissingLabel(last)) },
                Some(i) => match operand(st.scopes, args, i) {
                    Some(v) => ValueStep {
                        store: Store { scopes: written(st.scopes, dest, v), ..st },
                        result: Ok(ValueOutcome::Done),
                    },
                    None => ValueStep { store: st, result: Err(InterpError::IllFormed) },
                },
            },
        }
    } else if op == ValueOp::Alloc {
        match a {
            Some(Value::Int(n)) => {
                let room = made_room(st, n);
                if !can_write(room.scopes, dest) {
                    ValueStep { store: room, result: Err(InterpError::IllFormed) }
                } else if room.heap.can_alloc(n) {
                    ValueStep {
                        store: Store {
                            scopes: written(
                                room.scopes,
                                dest,
                                Value::Pointer(Pointer { base: room.heap.base_ptr, offset: 0 }),
                            ),
                            heap: room.heap.with_object(n),
                        },
                        result: Ok(ValueOutcome::Done),
                    }
                } else {
                    ValueStep { store: room, result: Err(InterpError::CannotAllocSize(n)) }
                }
            },
            _ => ValueStep { store: st, result: Err(InterpError::IllFormed) },
        }
    } else {
        match a {
            Some(Value::Pointer(p)) => match Heap::cell_of(p) {
                Some(cell) => if st.heap.memory[cell] == Value::Uninitialized {
                    ValueStep { store: st, result: Err(InterpError::UsingUninitializedMemory) }
                } else {
                    ValueStep {
                        store: Store {
                            scopes: written(st.scopes, dest, st.heap.memory[cell]),
                            ..st
                        },
                        result: Ok(ValueOutcome::Done),
                    }
                },
                None => ValueStep {
                    store: st,
                    result: Err(InterpError::InvalidMemoryAccess(p.base, p.offset)),
                },
            },
            _ => ValueStep { store: st, result: Err(InterpError::IllFormed) },
        }
    }
}

fn find_label(labels: &Vec<String>, label: &String) -> (r: Option<usize>)
    ensures
        match r {
            Some(i) => label_place(labels@, label@, labels.len() as nat) == Some(i as int),
            None => label_place(labels@, label@, labels.len() as nat) is None,
        },
{
    let mut i: usize = 0;
    while i < labels.len()
        invariant
            i <= labels.len(),
            label_place(labels@, label@, i as nat) is None,
        decreases labels.len() - i,
    {
        if labels[i] == *label {
            proof {
                lemma_label_found(labels@, label@, i as nat, labels.len() as nat);
            }
            return Some(i);
        }
        i += 1;
    }
    None
}

/// A label found among the first labels is the one found among more.
pub proof fn lemma_label_found(labels: Seq<String>, label: Seq<char>, i: nat, k: nat)
    requires
        i < k <= labels.len(),
        label_place(labels, label, i) is None,
        labels[i as int]@ == label,
    ensures
        label_place(labels, label, k) == Some(i as int),
    decreases k,
{
    if k > i + 1 {
        lemma_label_found(labels, label, i, (k - 1) as nat);
    }
}

/// The variables and the heap of a running program.
pub open spec fn store_of(value_store: Environment, heap: Heap) -> Store {
    Store { scopes: scopes_of(value_store), heap: heap@ }
}

/// Runs an operation with a destination.
pub fn execute_value_op(
    prog: &BBProgram,
    op: &ValueOp,
    dest: u32,
    args: &Vec<u32>,
    labels: &Vec<String>,
    funcs: &Vec<String>,
    value_store: &mut Environment,
    heap: &mut Heap,
    last_label: Option<&String>,
) -> (r: Result<ValueOutcome, InterpError>)
    requires
        old(heap)@.wf(),
    ensures
        final(heap)@.wf(),
        ({
            let step = value_step(
                *prog,
                *op,
                dest,
                args@,
                labels@,
                funcs@,
                store_of(*old(value_store), *old(heap)),
                match last_label {
                    Some(l) => Some(*l),
                    None => None,
                },
            );
            &&& store_of(*final(value_store), *final(heap)) == step.store
            &&& r == step.result
        }),
{
    let a = get_value(value_store, 0, args);
    let b = get_value(value_store, 1, args);
    let writable = value_store.env.len() > 0 && (dest as usize)
        < value_store.get_current_scope().vars.len();
    assert(writable == can_write(scopes_of(*value_store), dest)) by {
        if value_store.env.len() > 0 {
            assert(scopes_of(*value_store).last() == value_store.env@.last().vars@);
        }
    }
    match *op {
        ValueOp::Call => {
            if funcs.len() == 0 {
                return Err(InterpError::IllFormed);
            }
            match prog.get(&funcs[0]) {
                None => Err(InterpError::FuncNotFound(funcs[0].clone())),
                Some(c) => {
                    if make_func_args(&prog.functions[c], args, value_store) {
                        Ok(ValueOutcome::Call(c))
                    } else {
                        Err(InterpError::IllFormed)
                    }
                },
            }
        },
        ValueOp::Add
        | ValueOp::Mul
        | ValueOp::Sub
        | ValueOp::Div
        | ValueOp::Eq
        | ValueOp::Lt
        | ValueOp::Gt
        | ValueOp::Le
        | ValueOp::Ge
        | ValueOp::Not
        | ValueOp::And
        | ValueOp::Or
        | ValueOp::Id
        | ValueOp::PtrAdd => {
            if !writable {
                return Err(InterpError::IllFormed);
            }
            match compute(*op, a, b) {
                Ok(v) => {
                    set_value(value_store, dest, v);
                    Ok(ValueOutcome::Done)
                },
                Err(e) => Err(e),
            }
        },
        ValueOp::Fadd
        | ValueOp::Fmul
        | ValueOp::Fsub
        | ValueOp::Fdiv
        | ValueOp::Feq
        | ValueOp::Flt
        | ValueOp::Fgt
        | ValueOp::Fle
        | ValueOp::Fge => {
            if !writable {
                return Err(InterpError::IllFormed);
            }
            match (a, b) {
                (Some(Value::Float(x)), Some(Value::Float(y))) => Ok(
                    ValueOutcome::Float { op: *op, lhs: x, rhs: y },
                ),
                _ => Err(InterpError::IllFormed),
            }
        },
        ValueOp::Phi => {
            if !writable {
                return Err(InterpError::IllFormed);
            }
            match last_label {
                None => Err(InterpError::NoLastLabel),
                Some(last) => match find_label(labels, last) {
                    None => Err(InterpError::PhiMissingLabel(last.clone())),
                    Some(i) => match get_value(value_store, i, args) {
                        Some(v) => {
                            set_value(value_store, dest, v);
                            Ok(ValueOutcome::Done)
                        },
                        None => Err(InterpError::IllFormed),
                    },
                },
            }
        },
        ValueOp::Alloc => {
            if !writable {
                return Err(InterpError::IllFormed);
            }
            match a {
                Some(Value::Int(n)) => {
                    if heap.should_run_gc(n) {
                        assert(heap@.wf());
                        heap.gc(value_store);
                    }
                    let still = value_store.env.len() > 0 && (dest as usize)
                        < value_store.get_current_scope().vars.len();
                    assert(still == can_write(scopes_of(*value_store), dest)) by {
                        if value_store.env.len() > 0 {
                            assert(scopes_of(*value_store).last() == value_store.env@.last().vars@);
                        }
                    }
                    if !still {
                        return Err(InterpError::IllFormed);
                    }
                    match heap.allocate(n) {
                        Ok(p) => {
                            set_value(value_store, dest, Value::Pointer(p));
                            Ok(ValueOutcome::Done)
                        },
                        Err(e) => Err(from_heap_error(e)),
                    }
                },
                _ => Err(InterpError::IllFormed),
            }
        },
        ValueOp::Load => {
            if !writable {
                return Err(InterpError::IllFormed);
            }
            match a {
                Some(Value::Pointer(p)) => match heap.read(&p) {
                    Ok(v) => {
                        set_value(value_store, dest, v);
                        Ok(ValueOutcome::Done)
                    },
                    Err(e) => Err(from_heap_error(e)),
                },
                _ => Err(InterpError::IllFormed),
            }
        },
    }
}

/// What is left to do after an operation without a destination.
#[derive(Debug)]
pub enum EffectOutcome {
    /// Nothing.
    Next,
    /// The function returns the value when its block is done.
    Return(Option<Value>),
    /// The values are to be printed on one line.
    Print(Vec<Value>),
    /// The function with the given index was entered.
    Call(usize),
}

/// The model of an [`EffectOutcome`].
pub enum EffectOutcomeView {
    Next,
    Return(Option<Value>),
    Print(Seq<Value>),
    Call(usize),
}

impl View for EffectOutcome {
    type V = EffectOutcomeView;

    open spec fn view(&self) -> EffectOutcomeView {
        match *self {
            EffectOutcome::Next => EffectOutcomeView::Next,
            EffectOutcome::Return(v) => EffectOutcomeView::Return(v),
            EffectOutcome::Print(vals) => EffectOutcomeView::Print(vals@),
            EffectOutcome::Call(c) => EffectOutcomeView::Call(c),
        }
    }
}

/// The variables and the heap after an operation without a destination,
/// the block that is to run next, and how the operation ended.
pub struct EffectStep {
    pub store: Store,
    pub next_block: Option<usize>,
    pub result: Result<EffectOutcomeView, InterpError>,
}

/// The values of the first `k` arguments, if each is a variable of the
/// current scope that was written.
pub open spec fn printed(scopes: Seq<Seq<Value>>, args: Seq<u32>, k: nat) -> Option<Seq<Value>>
    decreases k,
{
    if k == 0 {
        Some(Seq::empty())
    } else {
        match printed(scopes, args, (k - 1) as nat) {
            Some(vals) => match operand(scopes, args, k - 1) {
                Some(v) => if v == Value::Uninitialized {
                    None
                } else {
                    Some(vals.push(v))
                },
                None => None,
            },
            None => None,
        }
    }
}

/// Once a value cannot be printed, the line cannot.
pub proof fn lemma_printed_fails(scopes: Seq<Seq<Value>>, args: Seq<u32>, k: nat, n: nat)
    requires
        k <= n,
        printed(scopes, args, k) is None,
    ensures
        printed(scopes, args, n) is None,
    decreases n,
{
    if n > k {
        lemma_printed_fails(scopes, args, k, (n - 1) as nat);
    }
}

/// What an operation without a destination does.
///
/// A jump makes the first exit of the block the next block; a branch, the
/// first or the second by its condition. A return gives the function's
/// value, if the function has a return type. A print hands the values of
/// its arguments out. A call enters the callee. A store writes the heap.
pub open spec fn effect_step(
    prog: BBProgram,
    func: BBFunction,
    op: EffectOp,
    args: Seq<u32>,
    funcs: Seq<String>,
    exits: Seq<usize>,
    st: Store,
    next_block: Option<usize>,
) -> EffectStep {
    let a = operand(st.scopes, args, 0);
    let b = operand(st.scopes, args, 1);
    let failed = EffectStep { store: st, next_block, result: Err(InterpError::IllFormed) };
    match op {
        EffectOp::Jump => if exits.len() > 0 {
            EffectStep {
                store: st,
                next_block: Some(exits[0]),
                result: Ok(EffectOutcomeView::Next),
            }
        } else {
            failed
        },
        EffectOp::Branch => match a {
            Some(Value::Bool(c)) => {
                let exit_idx: int = if c {
                    0
                } else {
                    1
                };
                if exit_idx < exits.len() {
                    EffectStep {
                        store: st,
                        next_block: Some(exits[exit_idx]),
                        result: Ok(EffectOutcomeView::Next),
                    }
                } else {
                    failed
                }
            },
            _ => failed,
        },
        EffectOp::Return => match func.return_type {
            Some(_) => match a {
                Some(v) => EffectStep {
                    store: st,
                    next_block,
                    result: Ok(EffectOutcomeView::Return(Some(v))),
                },
                None => failed,
            },
            None => EffectStep {
                store: st,
                next_block,
                result: Ok(EffectOutcomeView::Return(None)),
            },
        },
        EffectOp::Print => match printed(st.scopes, args, args.len()) {
            Some(vals) => EffectStep {
                store: st,
                next_block,
                result: Ok(EffectOutcomeView::Print(vals)),
            },
            None => failed,
        },
        EffectOp::Nop => EffectStep { store: st, next_block, result: Ok(EffectOutcomeView::Next) },
        EffectOp::Call => if funcs.len() == 0 {
            failed
        } else {
            match prog.index_of(funcs[0]@) {
                None => EffectStep {
                    store: st,
                    next_block,
                    result: Err(InterpError::FuncNotFound(funcs[0])),
                },
                Some(c) => match entered(prog.functions[c as int], args, st.scopes) {
                    Some(scopes) => EffectStep {
                        store: Store { scopes, ..st },
                        next_block,
                        result: Ok(EffectOutcomeView::Call(c)),
                    },
                    None => failed,
                },
            }
        },
        EffectOp::Store => match (a, b) {
            (Some(Value::Pointer(p)), Some(v)) => match Heap::cell_of(p) {
                Some(cell) => EffectStep {
                    store: Store {
                        heap: HeapView { memory: st.heap.memory.update(cell, v), ..st.heap },
                        ..st
                    },
                    next_block,
                    result: Ok(EffectOutcomeView::Next),
                },
                None => EffectStep {
                    store: st,
                    next_block,
                    result: Err(InterpError::InvalidMemoryAccess(p.base, p.offset)),
                },
            },
            _ => failed,
        },
        EffectOp::Free | EffectOp::Speculate | EffectOp::Commit | EffectOp::Guard => EffectStep {
            store: st,
            next_block,
            result: Err(InterpError::Unsupported),
        },
    }
}

/// Whether a result is the one that the model gives.
pub open spec fn same_outcome(
    r: Result<EffectOutcome, InterpError>,
    wanted: Result<EffectOutcomeView, InterpError>,
) -> bool {
    match (r, wanted) {
        (Ok(o), Ok(v)) => o@ == v,
        (Err(e), Err(f)) => e == f,
        _ => false,
    }
}

/// Runs an operation without a destination.
pub fn execute_effect_op(
    prog: &BBProgram,
    func: &BBFunction,
    op: &EffectOp,
    args: &Vec<u32>,
    funcs: &Vec<String>,
    exits: &Vec<usize>,
    value_store: &mut Environment,
    heap: &mut Heap,
    next_block_idx: &mut Option<usize>,
) -> (r: Result<EffectOutcome, InterpError>)
    requires
        old(heap)@.wf(),
    ensures
        final(heap)@.wf(),
        ({
            let step = effect_step(
                *prog,
                *func,
                *op,
                args@,
                funcs@,
                exits@,
                store_of(*old(value_store), *old(heap)),
                *old(next_block_idx),
            );
            &&& store_of(*final(value_store), *final(heap)) == step.store
            &&& *final(next_block_idx) == step.next_block
            &&& same_outcome(r, step.result)
        }),
{
    let a = get_value(value_store, 0, args);
    let b = get_value(value_store, 1, args);
    match op {
        EffectOp::Jump => {
            if exits.len() == 0 {
                return Err(InterpError::IllFormed);
            }
            *next_block_idx = Some(exits[0]);
            Ok(EffectOutcome::Next)
        },
        EffectOp::Branch => match a {
            Some(Value::Bool(c)) => {
                let exit_idx: usize = if c {
                    0
                } else {
                    1
                };
                if exit_idx >= exits.len() {
                    return Err(InterpError::IllFormed);
                }
                *next_block_idx = Some(exits[exit_idx]);
                Ok(EffectOutcome::Next)
            },
            _ => Err(InterpError::IllFormed),
        },
        EffectOp::Return => match &func.return_type {
            Some(_) => match a {
                Some(v) => Ok(EffectOutcome::Return(Some(v))),
                None => Err(InterpError::IllFormed),
            },
            None => Ok(EffectOutcome::Return(None)),
        },
        EffectOp::Print => {
            let mut vals: Vec<Value> = Vec::new();
            let mut k: usize = 0;
            let ghost st0 = store_of(*value_store, *heap);
            let ghost nb0 = *next_block_idx;
            while k < args.len()
                invariant
                    k <= args.len(),
                    *op is Print,
                    heap@.wf(),
                    st0 == store_of(*old(value_store), *old(heap)),
                    nb0 == *old(next_block_idx),
                    store_of(*value_store, *heap) == st0,
                    *next_block_idx == nb0,
                    printed(scopes_of(*value_store), args@, k as nat) == Some(vals@),
                decreases args.len() - k,
            {
                match get_value(value_store, k, args) {
                    Some(Value::Uninitialized) | None => {
                        proof {
                            lemma_printed_fails(
                                scopes_of(*value_store),
                                args@,
                                (k + 1) as nat,
                                args.len() as nat,
                            );
                        }
                        return Err(InterpError::IllFormed);
                    },
                    Some(v) => {
                        vals.push(v);
                    },
                }
                k += 1;
            }
            Ok(EffectOutcome::Print(vals))
        },
        EffectOp::Nop => Ok(EffectOutcome::Next),
        EffectOp::Call => {
            if funcs.len() == 0 {
                return Err(InterpError::IllFormed);
            }
            match prog.get(&funcs[0]) {
                None => Err(InterpError::FuncNotFound(funcs[0].clone())),
                Some(c) => {
                    if make_func_args(&prog.functions[c], args, value_store) {
                        Ok(EffectOutcome::Call(c))
                    } else {
                        Err(InterpError::IllFormed)
                    }
                },
            }
        },
        EffectOp::Store => match (a, b) {
            (Some(Value::Pointer(p)), Some(v)) => match heap.write(&p, v) {
                Ok(()) => Ok(EffectOutcome::Next),
                Err(e) => Err(from_heap_error(e)),
            },
            _ => Err(InterpError::IllFormed),
        },
        EffectOp::Free | EffectOp::Speculate | EffectOp::Commit | EffectOp::Guard => Err(
            InterpError::Unsupported,
        ),
    }
}

} // verus!
