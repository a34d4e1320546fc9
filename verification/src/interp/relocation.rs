//! Runs that differ in the places of their objects alone: a run that
//! collects and a run that does not take the same steps, as long as the
//! program stays within its objects.
use crate::interp::collection::{
    apart, blank_beyond, cell, closed, heap_closed, is_object, keeps, lemma_collection_keeps,
    moved, new_places, placed_at, points_moved, points_within,
};
use crate::interp::heap::{collected, HEAP_SIZE, Heap, HeapView};
use crate::interp::machine::{
    after_block, after_call, after_instr, at_block, bound_inputs, literal_value, started, stepped,
    ActionView, Activation, Input, Machine, MachineView,
};
use crate::interp::ops::{
    bound_args, bound_count, can_write, computed, effect_step, entered, is_float, is_pure,
    label_place, made_room, operand, printed, value_step, written, EffectOutcomeView, Store,
};
use crate::interp::program::{
    BBFunction, BBProgram, EffectOp, Instr, InterpError, PositionalInterpError, ValueOp,
};
use crate::interp::value::{Pointer, Value};
use crate::ir::Argument;
use vstd::prelude::*;

verus! {

/// Whether the object at `b` of the first heap has an object of the same
/// size in its place in the second heap.
pub open spec fn placed(a: HeapView, b: HeapView, m: Map<usize, i64>, base: usize) -> bool {
    &&& m.contains_key(base)
    &&& 0 <= m[base] <= HEAP_SIZE
    &&& is_object(b, m[base] as usize)
    &&& b.sizes[m[base] as usize] == a.sizes[base]
}

/// Whether two states of the variables and the heap are alike but for the
/// places of the objects. `objs` are the objects of the first state, which
/// hold all that its variables reach, and `m` gives the place of each in
/// the second state.
///
/// Every object has its place in the second heap, of the same size, and no
/// two places have a cell in common. Where a variable or a cell of an object
/// holds a pointer in the first state, it holds a pointer to the place of
/// the same object in the second, with the same displacement; and where it
/// holds anything else, it holds the same in the second. In both heaps the
/// cells outside the allocated part were never written, and the first heap
/// has no more cells allocated than the second.
pub open spec fn alike(a: Store, b: Store, objs: Set<usize>, m: Map<usize, i64>) -> bool {
    &&& closed(a.heap, a.scopes, objs)
    &&& blank_beyond(a.heap)
    &&& b.heap.wf()
    &&& blank_beyond(b.heap)
    &&& a.heap.allocated() <= b.heap.allocated()
    &&& forall|base: usize| #[trigger] objs.contains(base) ==> placed(a.heap, b.heap, m, base)
    &&& forall|b1: usize, b2: usize|
        #![trigger m[b1], m[b2]]
        objs.contains(b1) && objs.contains(b2) && b1 != b2 ==> apart(
            b.heap,
            m[b1] as usize,
            m[b2] as usize,
        )
    &&& b.scopes.len() == a.scopes.len()
    &&& forall|x: int| 0 <= x < a.scopes.len() ==> (#[trigger] b.scopes[x]).len() == a.scopes[x].len()
    &&& forall|x: int, i: int|
        0 <= x < a.scopes.len() && 0 <= i < a.scopes[x].len() ==> #[trigger] b.scopes[x][i]
            == moved(m, a.scopes[x][i])
    &&& forall|base: usize, k: int|
        objs.contains(base) && 0 <= k < a.heap.sizes[base] ==> #[trigger] cell(
            b.heap.memory,
            m[base] as usize,
            k,
        ) == moved(m, cell(a.heap.memory, base, k))
}

/// The base from which an object was moved to `t`.
pub open spec fn old_base(f: Map<usize, i64>, t: usize) -> usize {
    choose|b: usize| placed_at(f, b, t)
}

/// The places of the objects that were moved by `f`, given the places of
/// the objects before they were moved.
pub open spec fn through(f: Map<usize, i64>, m: Map<usize, i64>) -> Map<usize, i64> {
    Map::new(|t: usize| new_places(f).contains(t), |t: usize| m[old_base(f, t)])
}

/// A pointer to an object that was moved has the same place after the move
/// as before.
pub proof fn lemma_through(f: Map<usize, i64>, m: Map<usize, i64>, objs: Set<usize>, v: Value)
    requires
        points_moved(f, v),
        forall|b: usize| #[trigger] f.contains_key(b) ==> objs.contains(b) && 0 <= f[b] <= HEAP_SIZE,
        forall|b: usize| #[trigger] objs.contains(b) ==> m.contains_key(b),
        forall|b1: usize, b2: usize|
            #![trigger f[b1], f[b2]]
            f.contains_key(b1) && f.contains_key(b2) && b1 != b2 ==> f[b1] != f[b2],
    ensures
        moved(through(f, m), moved(f, v)) == moved(m, v),
{
    match v {
        Value::Pointer(p) => {
            let t = f[p.base] as usize;
            assert(placed_at(f, p.base, t));
            assert(new_places(f).contains(t));
            let back = old_base(f, t);
            assert(placed_at(f, back, t));
            if back != p.base {
                assert(f[back] != f[p.base]);
            }
            assert(objs.contains(p.base));
        },
        _ => {},
    }
}

/// A collection in the first of two states that are alike leaves them
/// alike: the objects are then those that were moved, each at its new
/// base.
pub proof fn lemma_collected_alike(a: Store, b: Store, objs: Set<usize>, m: Map<usize, i64>)
    requires
        alike(a, b, objs, m),
    ensures
        alike(
            Store {
                scopes: collected(a.heap.grown(), a.scopes).scopes,
                heap: collected(a.heap.grown(), a.scopes).heap,
            },
            b,
            new_places(collected(a.heap.grown(), a.scopes).heap.forwarded),
            through(collected(a.heap.grown(), a.scopes).heap.forwarded, m),
        ),
{
    let h = a.heap.grown();
    assert(heap_closed(h, objs)) by {
        assert forall|base: usize| #[trigger] objs.contains(base) implies is_object(h, base) by {
            assert(is_object(a.heap, base));
        }
        assert forall|b1: usize, b2: usize|
            objs.contains(b1) && objs.contains(b2) && b1 != b2 implies #[trigger] apart(
            h,
            b1,
            b2,
        ) by {
            assert(apart(a.heap, b1, b2));
        }
    }
    assert(blank_beyond(h));
    lemma_collection_keeps(h, a.scopes, objs);
    let c = collected(h, a.scopes);
    let f = c.heap.forwarded;
    let after = Store { scopes: c.scopes, heap: c.heap };
    let places = new_places(f);
    let n = through(f, m);
    assert forall|b0: usize| #[trigger] f.contains_key(b0) implies objs.contains(b0) && 0 <= f[b0]
        <= HEAP_SIZE by {
    }
    assert forall|t: usize| #[trigger] places.contains(t) implies placed(c.heap, b.heap, n, t) by {
        let back = old_base(f, t);
        assert(placed_at(f, back, t));
        assert(objs.contains(back));
        assert(placed(a.heap, b.heap, m, back));
    }
    assert forall|t1: usize, t2: usize|
        #![trigger n[t1], n[t2]]
        places.contains(t1) && places.contains(t2) && t1 != t2 implies apart(
        b.heap,
        n[t1] as usize,
        n[t2] as usize,
    ) by {
        let b1 = old_base(f, t1);
        let b2 = old_base(f, t2);
        assert(placed_at(f, b1, t1));
        assert(placed_at(f, b2, t2));
        assert(objs.contains(b1) && objs.contains(b2));
        assert(apart(b.heap, m[b1] as usize, m[b2] as usize));
    }
    assert forall|x: int, i: int|
        0 <= x < after.scopes.len() && 0 <= i < after.scopes[x].len() implies #[trigger] b.scopes[x][i]
        == moved(n, after.scopes[x][i]) by {
        assert(c.scopes[x].len() == a.scopes[x].len());
        assert(c.scopes[x][i] == moved(f, a.scopes[x][i]));
        lemma_through(f, m, objs, a.scopes[x][i]);
    }
    assert forall|t: usize, k: int|
        places.contains(t) && 0 <= k < c.heap.sizes[t] implies #[trigger] cell(
        b.heap.memory,
        n[t] as usize,
        k,
    ) == moved(n, cell(c.heap.memory, t, k)) by {
        let back = old_base(f, t);
        assert(placed_at(f, back, t));
        assert(objs.contains(back));
        assert(cell(c.heap.memory, f[back] as usize, k) == moved(f, cell(h.memory, back, k)));
        lemma_through(f, m, objs, cell(h.memory, back, k));
        assert(cell(b.heap.memory, m[back] as usize, k) == moved(m, cell(a.heap.memory, back, k)));
    }
    assert forall|x: int| 0 <= x < after.scopes.len() implies (#[trigger] b.scopes[x]).len()
        == after.scopes[x].len() by {
        assert(c.scopes[x].len() == a.scopes[x].len());
    }
}

/// Making room in the first of two states that are alike leaves them
/// alike, for some objects and places.
pub proof fn lemma_room_alike(a: Store, b: Store, objs: Set<usize>, m: Map<usize, i64>, amount: i64)
    requires
        alike(a, b, objs, m),
    ensures
        exists|o: Set<usize>, n: Map<usize, i64>| alike(made_room(a, amount), b, o, n),
{
    if a.heap.gc_due(amount) {
        lemma_collected_alike(a, b, objs, m);
        let c = collected(a.heap.grown(), a.scopes);
        assert(alike(
            made_room(a, amount),
            b,
            new_places(c.heap.forwarded),
            through(c.heap.forwarded, m),
        ));
    } else {
        assert(alike(made_room(a, amount), b, objs, m));
    }
}


/// What the second state holds where the first may hold a value.
pub open spec fn moved_opt(m: Map<usize, i64>, o: Option<Value>) -> Option<Value> {
    match o {
        Some(v) => Some(moved(m, v)),
        None => None,
    }
}

/// Whether the value, if there is one, is no pointer or points to one of
/// the objects.
pub open spec fn opt_within(o: Option<Value>, objs: Set<usize>) -> bool {
    match o {
        Some(v) => points_within(v, objs),
        None => true,
    }
}

/// Whether the second list holds, value by value, what the second state
/// holds for the values of the first, which point to the objects where
/// they are pointers.
pub open spec fn values_alike(
    sa: Seq<Value>,
    sb: Seq<Value>,
    objs: Set<usize>,
    m: Map<usize, i64>,
) -> bool {
    &&& sa.len() == sb.len()
    &&& forall|i: int| 0 <= i < sa.len() ==> #[trigger] sb[i] == moved(m, sa[i])
    &&& forall|i: int| 0 <= i < sa.len() ==> points_within(#[trigger] sa[i], objs)
}

/// In states that are alike an operand is alike.
pub proof fn lemma_operand_alike(
    a: Store,
    b: Store,
    objs: Set<usize>,
    m: Map<usize, i64>,
    args: Seq<u32>,
    i: int,
)
    requires
        alike(a, b, objs, m),
    ensures
        operand(b.scopes, args, i) == moved_opt(m, operand(a.scopes, args, i)),
        opt_within(operand(a.scopes, args, i), objs),
{
    if a.scopes.len() > 0 {
        let x = a.scopes.len() - 1;
        assert(b.scopes[x].len() == a.scopes[x].len());
        if 0 <= i < args.len() && args[i] < a.scopes.last().len() {
            assert(b.scopes[x][args[i] as int] == moved(m, a.scopes[x][args[i] as int]));
            assert(points_within(a.scopes[x][args[i] as int], objs));
        }
    }
}

/// The current scopes of states that are alike are alike.
pub proof fn lemma_scope_alike(a: Store, b: Store, objs: Set<usize>, m: Map<usize, i64>, x: int)
    requires
        alike(a, b, objs, m),
        0 <= x < a.scopes.len(),
    ensures
        values_alike(a.scopes[x], b.scopes[x], objs, m),
{
    assert(b.scopes[x].len() == a.scopes[x].len());
    assert forall|i: int| 0 <= i < a.scopes[x].len() implies #[trigger] b.scopes[x][i] == moved(
        m,
        a.scopes[x][i],
    ) by {}
    assert forall|i: int| 0 <= i < a.scopes[x].len() implies points_within(
        #[trigger] a.scopes[x][i],
        objs,
    ) by {}
}

/// States that are alike stay alike when their scopes are replaced by
/// scopes that are alike.
pub proof fn lemma_scopes_alike(
    a: Store,
    b: Store,
    objs: Set<usize>,
    m: Map<usize, i64>,
    sa: Seq<Seq<Value>>,
    sb: Seq<Seq<Value>>,
)
    requires
        alike(a, b, objs, m),
        sa.len() == sb.len(),
        forall|x: int| 0 <= x < sa.len() ==> #[trigger] values_alike(sa[x], sb[x], objs, m),
    ensures
        alike(Store { scopes: sa, ..a }, Store { scopes: sb, ..b }, objs, m),
{
    assert forall|x: int| 0 <= x < sa.len() implies (#[trigger] sb[x]).len() == sa[x].len() by {
        assert(values_alike(sa[x], sb[x], objs, m));
    }
    assert forall|x: int, i: int| 0 <= x < sa.len() && 0 <= i < sa[x].len() implies #[trigger] sb[x][i]
        == moved(m, sa[x][i]) by {
        assert(values_alike(sa[x], sb[x], objs, m));
    }
    assert forall|x: int, i: int| 0 <= x < sa.len() && 0 <= i < sa[x].len() implies points_within(
        #[trigger] sa[x][i],
        objs,
    ) by {
        assert(values_alike(sa[x], sb[x], objs, m));
    }
}

/// States that are alike stay alike when a variable is written with
/// values that are alike.
pub proof fn lemma_written_alike(
    a: Store,
    b: Store,
    objs: Set<usize>,
    m: Map<usize, i64>,
    dest: u32,
    v: Value,
)
    requires
        alike(a, b, objs, m),
        points_within(v, objs),
    ensures
        can_write(b.scopes, dest) == can_write(a.scopes, dest),
        can_write(a.scopes, dest) ==> alike(
            Store { scopes: written(a.scopes, dest, v), ..a },
            Store { scopes: written(b.scopes, dest, moved(m, v)), ..b },
            objs,
            m,
        ),
{
    if a.scopes.len() > 0 {
        let last = a.scopes.len() - 1;
        assert(b.scopes[last].len() == a.scopes[last].len());
        if can_write(a.scopes, dest) {
            let sa = written(a.scopes, dest, v);
            let sb = written(b.scopes, dest, moved(m, v));
            assert forall|x: int| 0 <= x < sa.len() implies #[trigger] values_alike(
                sa[x],
                sb[x],
                objs,
                m,
            ) by {
                lemma_scope_alike(a, b, objs, m, x);
            }
            lemma_scopes_alike(a, b, objs, m, sa, sb);
        }
    }
}

/// Binding the arguments of a call gives scopes that are alike where the
/// scopes of the callers are alike.
pub proof fn lemma_bound_alike(
    callee: BBFunction,
    args: Seq<u32>,
    ca: Seq<Value>,
    cb: Seq<Value>,
    objs: Set<usize>,
    m: Map<usize, i64>,
    k: nat,
)
    requires
        values_alike(ca, cb, objs, m),
    ensures
        match bound_args(callee, args, ca, k) {
            Some(sa) => bound_args(callee, args, cb, k) is Some && values_alike(
                sa,
                bound_args(callee, args, cb, k)->0,
                objs,
                m,
            ),
            None => bound_args(callee, args, cb, k) is None,
        },
    decreases k,
{
    if k > 0 {
        lemma_bound_alike(callee, args, ca, cb, objs, m, (k - 1) as nat);
        match bound_args(callee, args, ca, (k - 1) as nat) {
            Some(sa) => {
                let sb = bound_args(callee, args, cb, (k - 1) as nat)->0;
                if args[k - 1] < ca.len() && callee.args_as_nums[k - 1] < sa.len() {
                    assert(cb[args[k - 1] as int] == moved(m, ca[args[k - 1] as int]));
                    assert(points_within(ca[args[k - 1] as int], objs));
                }
            },
            None => {},
        }
    }
}

/// Entering a callee keeps states alike.
pub proof fn lemma_entered_alike(
    a: Store,
    b: Store,
    objs: Set<usize>,
    m: Map<usize, i64>,
    callee: BBFunction,
    args: Seq<u32>,
)
    requires
        alike(a, b, objs, m),
    ensures
        match entered(callee, args, a.scopes) {
            Some(sa) => entered(callee, args, b.scopes) is Some && alike(
                Store { scopes: sa, ..a },
                Store { scopes: entered(callee, args, b.scopes)->0, ..b },
                objs,
                m,
            ),
            None => entered(callee, args, b.scopes) is None,
        },
{
    if a.scopes.len() > 0 {
        let last = a.scopes.len() - 1;
        lemma_scope_alike(a, b, objs, m, last);
        lemma_bound_alike(
            callee,
            args,
            a.scopes.last(),
            b.scopes.last(),
            objs,
            m,
            bound_count(callee, args),
        );
        match entered(callee, args, a.scopes) {
            Some(sa) => {
                let sb = entered(callee, args, b.scopes)->0;
                assert forall|x: int| 0 <= x < sa.len() implies #[trigger] values_alike(
                    sa[x],
                    sb[x],
                    objs,
                    m,
                ) by {
                    if x < a.scopes.len() {
                        lemma_scope_alike(a, b, objs, m, x);
                    }
                }
                lemma_scopes_alike(a, b, objs, m, sa, sb);
            },
            None => {},
        }
    }
}

/// A pure operation on operands that are alike gives results that are
/// alike.
pub proof fn lemma_computed_alike(
    op: ValueOp,
    x: Option<Value>,
    y: Option<Value>,
    objs: Set<usize>,
    m: Map<usize, i64>,
)
    requires
        opt_within(x, objs),
        opt_within(y, objs),
    ensures
        match computed(op, x, y) {
            Ok(v) => computed(op, moved_opt(m, x), moved_opt(m, y)) == Ok::<
                Value,
                crate::interp::program::InterpError,
            >(moved(m, v)) && points_within(v, objs),
            Err(e) => computed(op, moved_opt(m, x), moved_opt(m, y)) == Err::<
                Value,
                crate::interp::program::InterpError,
            >(e),
        },
{
}

/// Allocating an object of the same size in two states that are alike
/// keeps them alike: the new object of the first has its place at the new
/// object of the second.
pub proof fn lemma_alloc_alike(a: Store, b: Store, objs: Set<usize>, m: Map<usize, i64>, n: i64)
    requires
        alike(a, b, objs, m),
        n > 0,
        a.heap.can_alloc(n),
        b.heap.can_alloc(n),
    ensures
        alike(
            Store { heap: a.heap.with_object(n), ..a },
            Store { heap: b.heap.with_object(n), ..b },
            objs.insert(a.heap.base_ptr),
            m.insert(a.heap.base_ptr, b.heap.base_ptr as i64),
        ),
        !objs.contains(a.heap.base_ptr),
{
    let ta = a.heap.base_ptr;
    let tb = b.heap.base_ptr;
    let ha = a.heap.with_object(n);
    let hb = b.heap.with_object(n);
    let o = objs.insert(ta);
    let f = m.insert(ta, tb as i64);
    if objs.contains(ta) {
        assert(is_object(a.heap, ta));
    }
    assert(ha.wf()) by {
        assert forall|k: usize| #[trigger] ha.sizes.contains_key(k) implies 0 <= ha.sizes[k] && k
            + ha.sizes[k] <= HEAP_SIZE by {
            if k != ta {
                assert(a.heap.sizes.contains_key(k));
            }
        }
    }
    assert(hb.wf()) by {
        assert forall|k: usize| #[trigger] hb.sizes.contains_key(k) implies 0 <= hb.sizes[k] && k
            + hb.sizes[k] <= HEAP_SIZE by {
            if k != tb {
                assert(b.heap.sizes.contains_key(k));
            }
        }
    }
    assert forall|base: usize| #[trigger] o.contains(base) implies is_object(ha, base) by {
        if base != ta {
            assert(is_object(a.heap, base));
        }
    }
    assert forall|b1: usize, b2: usize|
        o.contains(b1) && o.contains(b2) && b1 != b2 implies #[trigger] apart(ha, b1, b2) by {
        if b1 != ta && b2 != ta {
            assert(apart(a.heap, b1, b2));
        }
        if b1 != ta {
            assert(is_object(a.heap, b1));
        }
        if b2 != ta {
            assert(is_object(a.heap, b2));
        }
    }
    assert forall|base: usize, k: int| o.contains(base) && 0 <= k < ha.sizes[base] implies points_within(
        #[trigger] cell(ha.memory, base, k),
        o,
    ) by {
        if base != ta {
            assert(points_within(cell(a.heap.memory, base, k), objs));
        } else {
            assert(a.heap.memory[ta + k] == Value::Uninitialized);
        }
    }
    assert forall|x: int, i: int|
        0 <= x < a.scopes.len() && 0 <= i < a.scopes[x].len() implies points_within(
        #[trigger] a.scopes[x][i],
        o,
    ) by {
        assert(points_within(a.scopes[x][i], objs));
    }
    assert forall|base: usize| #[trigger] o.contains(base) implies placed(ha, hb, f, base) by {
        if base != ta {
            assert(placed(a.heap, b.heap, m, base));
            assert(is_object(a.heap, base));
        }
    }
    assert forall|b1: usize, b2: usize|
        #![trigger f[b1], f[b2]]
        o.contains(b1) && o.contains(b2) && b1 != b2 implies apart(
        hb,
        f[b1] as usize,
        f[b2] as usize,
    ) by {
        if b1 != ta {
            assert(placed(a.heap, b.heap, m, b1));
        }
        if b2 != ta {
            assert(placed(a.heap, b.heap, m, b2));
        }
        if b1 != ta && b2 != ta {
            assert(apart(b.heap, m[b1] as usize, m[b2] as usize));
        }
    }
    assert forall|x: int, i: int|
        0 <= x < a.scopes.len() && 0 <= i < a.scopes[x].len() implies #[trigger] b.scopes[x][i]
        == moved(f, a.scopes[x][i]) by {
        assert(b.scopes[x][i] == moved(m, a.scopes[x][i]));
        assert(points_within(a.scopes[x][i], objs));
    }
    assert forall|base: usize, k: int| o.contains(base) && 0 <= k < ha.sizes[base] implies #[trigger] cell(
        hb.memory,
        f[base] as usize,
        k,
    ) == moved(f, cell(ha.memory, base, k)) by {
        if base != ta {
            assert(placed(a.heap, b.heap, m, base));
            assert(cell(b.heap.memory, m[base] as usize, k) == moved(
                m,
                cell(a.heap.memory, base, k),
            ));
            assert(points_within(cell(a.heap.memory, base, k), objs));
        } else {
            assert(a.heap.memory[ta + k] == Value::Uninitialized);
            assert(b.heap.memory[tb + k] == Value::Uninitialized);
        }
    }
}


/// Whether the pointer points to a cell of the object at its base.
pub open spec fn within(h: HeapView, p: Pointer) -> bool {
    0 <= p.offset < h.sizes[p.base]
}

/// Whether an operation with a destination stays within the objects and
/// within the heap: a load reads a cell of an object; and an allocation
/// makes an object of at least one cell for which the second state has
/// room without a collection.
pub open spec fn value_safe(op: ValueOp, args: Seq<u32>, a: Store, b: Store) -> bool {
    match operand(a.scopes, args, 0) {
        Some(Value::Pointer(p)) => op == ValueOp::Load ==> within(a.heap, p),
        Some(Value::Int(n)) => op == ValueOp::Alloc ==> n > 0 && !b.heap.gc_due(n)
            && b.heap.can_alloc(n),
        _ => true,
    }
}

/// An operation with a destination that stays within the objects and
/// within the heap ends in the same way in two states that are alike, and
/// leaves them alike: with the same objects and places, unless the
/// operation is an allocation.
pub proof fn lemma_value_step_alike(
    prog: BBProgram,
    op: ValueOp,
    dest: u32,
    args: Seq<u32>,
    labels: Seq<String>,
    funcs: Seq<String>,
    a: Store,
    b: Store,
    last_label: Option<String>,
    objs: Set<usize>,
    m: Map<usize, i64>,
)
    requires
        alike(a, b, objs, m),
        value_safe(op, args, a, b),
    ensures
        value_step(prog, op, dest, args, labels, funcs, a, last_label).result == value_step(
            prog,
            op,
            dest,
            args,
            labels,
            funcs,
            b,
            last_label,
        ).result,
        op != ValueOp::Alloc ==> alike(
            value_step(prog, op, dest, args, labels, funcs, a, last_label).store,
            value_step(prog, op, dest, args, labels, funcs, b, last_label).store,
            objs,
            m,
        ),
        exists|o: Set<usize>, n: Map<usize, i64>|
            alike(
                value_step(prog, op, dest, args, labels, funcs, a, last_label).store,
                value_step(prog, op, dest, args, labels, funcs, b, last_label).store,
                o,
                n,
            ),
{
    let sa = value_step(prog, op, dest, args, labels, funcs, a, last_label);
    let sb = value_step(prog, op, dest, args, labels, funcs, b, last_label);
    let x = operand(a.scopes, args, 0);
    let y = operand(a.scopes, args, 1);
    lemma_operand_alike(a, b, objs, m, args, 0);
    lemma_operand_alike(a, b, objs, m, args, 1);
    lemma_written_alike(a, b, objs, m, dest, Value::Uninitialized);
    if op == ValueOp::Call {
        if funcs.len() > 0 {
            match prog.index_of(funcs[0]@) {
                Some(c) => {
                    lemma_entered_alike(a, b, objs, m, prog.functions[c as int], args);
                },
                None => {},
            }
        }
        assert(alike(sa.store, sb.store, objs, m));
    } else if !can_write(a.scopes, dest) {
        assert(alike(sa.store, sb.store, objs, m));
    } else if is_pure(op) {
        lemma_computed_alike(op, x, y, objs, m);
        match computed(op, x, y) {
            Ok(v) => {
                lemma_written_alike(a, b, objs, m, dest, v);
            },
            Err(_) => {},
        }
        assert(alike(sa.store, sb.store, objs, m));
    } else if is_float(op) {
        assert(alike(sa.store, sb.store, objs, m));
    } else if op == ValueOp::Phi {
        match last_label {
            Some(last) => match label_place(labels, last@, labels.len()) {
                Some(i) => {
                    lemma_operand_alike(a, b, objs, m, args, i);
                    match operand(a.scopes, args, i) {
                        Some(v) => {
                            lemma_written_alike(a, b, objs, m, dest, v);
                        },
                        None => {},
                    }
                },
                None => {},
            },
            None => {},
        }
        assert(alike(sa.store, sb.store, objs, m));
    } else if op == ValueOp::Alloc {
        match x {
            Some(Value::Int(n)) => {
                let room = made_room(a, n);
                assert(made_room(b, n) == b);
                lemma_room_alike(a, b, objs, m, n);
                let (o1, n1) = choose|o: Set<usize>, f: Map<usize, i64>| alike(room, b, o, f);
                lemma_written_alike(room, b, o1, n1, dest, Value::Uninitialized);
                if can_write(room.scopes, dest) {
                    assert(room.heap.can_alloc(n));
                    lemma_alloc_alike(room, b, o1, n1, n);
                    let ta = room.heap.base_ptr;
                    let tb = b.heap.base_ptr;
                    let o2 = o1.insert(ta);
                    let n2 = n1.insert(ta, tb as i64);
                    let room1 = Store { heap: room.heap.with_object(n), ..room };
                    let b1 = Store { heap: b.heap.with_object(n), ..b };
                    let v = Value::Pointer(Pointer { base: ta, offset: 0 });
                    lemma_written_alike(room1, b1, o2, n2, dest, v);
                    assert(moved(n2, v) == Value::Pointer(Pointer { base: tb, offset: 0 }));
                    assert(alike(sa.store, sb.store, o2, n2));
                } else {
                    assert(alike(sa.store, sb.store, o1, n1));
                }
            },
            _ => {
                assert(alike(sa.store, sb.store, objs, m));
            },
        }
    } else {
        match x {
            Some(Value::Pointer(p)) => {
                assert(placed(a.heap, b.heap, m, p.base));
                assert(is_object(a.heap, p.base));
                let was = cell(a.heap.memory, p.base, p.offset as int);
                assert(points_within(was, objs));
                assert(cell(b.heap.memory, m[p.base] as usize, p.offset as int) == moved(m, was));
                assert(Heap::cell_of(p) == Some(p.base + p.offset));
                let q = Pointer { base: m[p.base] as usize, offset: p.offset };
                assert(Heap::cell_of(q) == Some(q.base + q.offset));
                lemma_written_alike(a, b, objs, m, dest, was);
            },
            _ => {},
        }
        assert(alike(sa.store, sb.store, objs, m));
    }
}


/// Whether two operations without a destination ended alike: in the same
/// way, with values that are alike where they return or print values.
pub open spec fn outcome_alike(
    ra: Result<EffectOutcomeView, InterpError>,
    rb: Result<EffectOutcomeView, InterpError>,
    objs: Set<usize>,
    m: Map<usize, i64>,
) -> bool {
    match ra {
        Ok(EffectOutcomeView::Return(v)) => rb == Ok::<EffectOutcomeView, InterpError>(
            EffectOutcomeView::Return(moved_opt(m, v)),
        ) && opt_within(v, objs),
        Ok(EffectOutcomeView::Print(vals)) => match rb {
            Ok(EffectOutcomeView::Print(others)) => values_alike(vals, others, objs, m),
            _ => false,
        },
        _ => rb == ra,
    }
}

/// Whether an operation without a destination stays within the objects: a
/// store writes a cell of an object.
pub open spec fn effect_safe(op: EffectOp, args: Seq<u32>, a: Store) -> bool {
    match operand(a.scopes, args, 0) {
        Some(Value::Pointer(p)) => op == EffectOp::Store ==> within(a.heap, p),
        _ => true,
    }
}

/// The values to print are alike in states that are alike.
pub proof fn lemma_printed_alike(
    a: Store,
    b: Store,
    objs: Set<usize>,
    m: Map<usize, i64>,
    args: Seq<u32>,
    k: nat,
)
    requires
        alike(a, b, objs, m),
    ensures
        match printed(a.scopes, args, k) {
            Some(vals) => printed(b.scopes, args, k) is Some && values_alike(
                vals,
                printed(b.scopes, args, k)->0,
                objs,
                m,
            ),
            None => printed(b.scopes, args, k) is None,
        },
    decreases k,
{
    if k > 0 {
        lemma_printed_alike(a, b, objs, m, args, (k - 1) as nat);
        lemma_operand_alike(a, b, objs, m, args, k - 1);
    }
}

/// Writing values that are alike to a cell of an object and to the same
/// cell of its place keeps states alike.
pub proof fn lemma_store_alike(
    a: Store,
    b: Store,
    objs: Set<usize>,
    m: Map<usize, i64>,
    p: Pointer,
    v: Value,
)
    requires
        alike(a, b, objs, m),
        objs.contains(p.base),
        within(a.heap, p),
        points_within(v, objs),
    ensures
        0 <= m[p.base] <= HEAP_SIZE,
        Heap::cell_of(p) == Some(p.base + p.offset),
        Heap::cell_of(Pointer { base: m[p.base] as usize, offset: p.offset }) == Some(
            m[p.base] + p.offset,
        ),
        alike(
            Store { heap: HeapView { memory: a.heap.memory.update(p.base + p.offset, v), ..a.heap }, ..a },
            Store {
                heap: HeapView {
                    memory: b.heap.memory.update(m[p.base] + p.offset, moved(m, v)),
                    ..b.heap
                },
                ..b
            },
            objs,
            m,
        ),
{
    let ca = p.base + p.offset;
    let cb = m[p.base] + p.offset;
    let ha = HeapView { memory: a.heap.memory.update(ca, v), ..a.heap };
    let hb = HeapView { memory: b.heap.memory.update(cb, moved(m, v)), ..b.heap };
    assert(is_object(a.heap, p.base));
    assert(placed(a.heap, b.heap, m, p.base));
    assert forall|base: usize| #[trigger] objs.contains(base) implies is_object(ha, base) by {
        assert(is_object(a.heap, base));
    }
    assert forall|b1: usize, b2: usize|
        objs.contains(b1) && objs.contains(b2) && b1 != b2 implies #[trigger] apart(ha, b1, b2) by {
        assert(apart(a.heap, b1, b2));
    }
    assert forall|base: usize, k: int|
        objs.contains(base) && 0 <= k < ha.sizes[base] implies points_within(
        #[trigger] cell(ha.memory, base, k),
        objs,
    ) by {
        assert(is_object(a.heap, base));
        if base + k != ca {
            assert(points_within(cell(a.heap.memory, base, k), objs));
        }
    }
    assert forall|base: usize| #[trigger] objs.contains(base) implies placed(ha, hb, m, base) by {
        assert(placed(a.heap, b.heap, m, base));
    }
    assert forall|b1: usize, b2: usize|
        #![trigger m[b1], m[b2]]
        objs.contains(b1) && objs.contains(b2) && b1 != b2 implies apart(
        hb,
        m[b1] as usize,
        m[b2] as usize,
    ) by {
        assert(apart(b.heap, m[b1] as usize, m[b2] as usize));
    }
    assert forall|base: usize, k: int| objs.contains(base) && 0 <= k < ha.sizes[base] implies #[trigger] cell(
        hb.memory,
        m[base] as usize,
        k,
    ) == moved(m, cell(ha.memory, base, k)) by {
        assert(is_object(a.heap, base));
        assert(placed(a.heap, b.heap, m, base));
        assert(cell(b.heap.memory, m[base] as usize, k) == moved(m, cell(a.heap.memory, base, k)));
        if base != p.base {
            assert(apart(a.heap, base, p.base));
            assert(apart(b.heap, m[base] as usize, m[p.base] as usize));
        }
    }
    assert forall|x: int, i: int|
        0 <= x < a.scopes.len() && 0 <= i < a.scopes[x].len() implies #[trigger] b.scopes[x][i]
        == moved(m, a.scopes[x][i]) by {}
}

/// An operation without a destination that stays within the objects ends
/// alike in two states that are alike, and leaves them alike.
pub proof fn lemma_effect_step_alike(
    prog: BBProgram,
    func: BBFunction,
    op: EffectOp,
    args: Seq<u32>,
    funcs: Seq<String>,
    exits: Seq<usize>,
    a: Store,
    b: Store,
    next_block: Option<usize>,
    objs: Set<usize>,
    m: Map<usize, i64>,
)
    requires
        alike(a, b, objs, m),
        effect_safe(op, args, a),
    ensures
        outcome_alike(
            effect_step(prog, func, op, args, funcs, exits, a, next_block).result,
            effect_step(prog, func, op, args, funcs, exits, b, next_block).result,
            objs,
            m,
        ),
        effect_step(prog, func, op, args, funcs, exits, a, next_block).next_block == effect_step(
            prog,
            func,
            op,
            args,
            funcs,
            exits,
            b,
            next_block,
        ).next_block,
        alike(
            effect_step(prog, func, op, args, funcs, exits, a, next_block).store,
            effect_step(prog, func, op, args, funcs, exits, b, next_block).store,
            objs,
            m,
        ),
{
    let x = operand(a.scopes, args, 0);
    let y = operand(a.scopes, args, 1);
    lemma_operand_alike(a, b, objs, m, args, 0);
    lemma_operand_alike(a, b, objs, m, args, 1);
    match op {
        EffectOp::Print => {
            lemma_printed_alike(a, b, objs, m, args, args.len());
        },
        EffectOp::Call => {
            if funcs.len() > 0 {
                match prog.index_of(funcs[0]@) {
                    Some(c) => {
                        lemma_entered_alike(a, b, objs, m, prog.functions[c as int], args);
                    },
                    None => {},
                }
            }
        },
        EffectOp::Store => {
            match (x, y) {
                (Some(Value::Pointer(p)), Some(v)) => {
                    lemma_store_alike(a, b, objs, m, p, v);
                },
                _ => {},
            }
        },
        _ => {},
    }
}


/// Whether two running functions are alike: the same but for the values
/// that they return, which are alike.
pub open spec fn act_alike(x: Activation, y: Activation, objs: Set<usize>, m: Map<usize, i64>) -> bool {
    y == (Activation { result: moved_opt(m, x.result), ..x }) && opt_within(x.result, objs)
}

/// Whether two states of a run are alike but for the places of the
/// objects: the variables and the heaps are alike, the running functions
/// are alike, and all else is the same.
pub open spec fn machines_alike(
    a: MachineView,
    b: MachineView,
    objs: Set<usize>,
    m: Map<usize, i64>,
) -> bool {
    &&& alike(a.store, b.store, objs, m)
    &&& a.count == b.count
    &&& a.awaited == b.awaited
    &&& a.stack.len() == b.stack.len()
    &&& forall|i: int|
        0 <= i < a.stack.len() ==> #[trigger] act_alike(a.stack[i], b.stack[i], objs, m)
}

/// Whether two steps ask for the same: the same action or the same
/// failure, where the values to print are alike.
pub open spec fn action_alike(
    ra: Result<ActionView, PositionalInterpError>,
    rb: Result<ActionView, PositionalInterpError>,
    objs: Set<usize>,
    m: Map<usize, i64>,
) -> bool {
    match ra {
        Ok(ActionView::Print(vals)) => match rb {
            Ok(ActionView::Print(others)) => values_alike(vals, others, objs, m),
            _ => false,
        },
        _ => rb == ra,
    }
}

/// Whether no running function holds a pointer as the value that it
/// returns.
pub open spec fn results_plain(stack: Seq<Activation>) -> bool {
    forall|i: int|
        0 <= i < stack.len() ==> match (#[trigger] stack[i]).result {
            Some(Value::Pointer(_)) => false,
            _ => true,
        }
}

/// The instruction that the next step runs, if it runs one.
pub open spec fn next_instr(a: MachineView, prog: BBProgram) -> Option<Instr> {
    if a.awaited is None && a.stack.len() > 0 && a.stack.last().func < prog.functions.len()
        && a.stack.last().block < prog.functions[a.stack.last().func as int].blocks.len()
        && a.stack.last().index < prog.functions[a.stack.last().func as int].blocks[a.stack.last().block as int].instrs.len() {
        Some(
            prog.functions[a.stack.last().func as int].blocks[a.stack.last().block as int].instrs[a.stack.last().index as int],
        )
    } else {
        None
    }
}


/// Calling a function keeps runs alike.
pub proof fn lemma_call_alike(
    a: MachineView,
    b: MachineView,
    objs: Set<usize>,
    m: Map<usize, i64>,
    prog: BBProgram,
    c: usize,
    dest: Option<u32>,
    pos: Option<crate::interp::program::Position>,
)
    requires
        machines_alike(a, b, objs, m),
    ensures
        machines_alike(
            after_call(a, prog, c, dest, pos).machine,
            after_call(b, prog, c, dest, pos).machine,
            objs,
            m,
        ),
        after_call(a, prog, c, dest, pos).result == after_call(b, prog, c, dest, pos).result,
        !(after_call(a, prog, c, dest, pos).result matches Ok(ActionView::Print(_))),
{
    let sa = after_call(a, prog, c, dest, pos).machine;
    let sb = after_call(b, prog, c, dest, pos).machine;
    assert forall|i: int| 0 <= i < sa.stack.len() implies #[trigger] act_alike(
        sa.stack[i],
        sb.stack[i],
        objs,
        m,
    ) by {
        if i < a.stack.len() {
            assert(act_alike(a.stack[i], b.stack[i], objs, m));
        }
    }
}

/// Replacing the current function by functions that are alike keeps runs
/// alike.
pub proof fn lemma_stack_alike(
    a: MachineView,
    b: MachineView,
    objs: Set<usize>,
    m: Map<usize, i64>,
    x: Activation,
    y: Activation,
)
    requires
        machines_alike(a, b, objs, m),
        a.stack.len() > 0,
        act_alike(x, y, objs, m),
    ensures
        machines_alike(
            MachineView { stack: a.stack.update(a.stack.len() - 1, x), ..a },
            MachineView { stack: b.stack.update(b.stack.len() - 1, y), ..b },
            objs,
            m,
        ),
{
    let sa = a.stack.update(a.stack.len() - 1, x);
    let sb = b.stack.update(b.stack.len() - 1, y);
    assert forall|i: int| 0 <= i < sa.len() implies #[trigger] act_alike(sa[i], sb[i], objs, m) by {
        if i < a.stack.len() - 1 {
            assert(act_alike(a.stack[i], b.stack[i], objs, m));
        }
    }
}

/// Running functions that are alike and hold no pointers are alike for all
/// objects and places.
pub proof fn lemma_plain_alike(
    sa: Seq<Activation>,
    sb: Seq<Activation>,
    objs: Set<usize>,
    m: Map<usize, i64>,
    o: Set<usize>,
    n: Map<usize, i64>,
)
    requires
        sa.len() == sb.len(),
        forall|i: int| 0 <= i < sa.len() ==> #[trigger] act_alike(sa[i], sb[i], objs, m),
        results_plain(sa),
    ensures
        forall|i: int| 0 <= i < sa.len() ==> #[trigger] act_alike(sa[i], sb[i], o, n),
{
    assert forall|i: int| 0 <= i < sa.len() implies #[trigger] act_alike(sa[i], sb[i], o, n) by {
        assert(act_alike(sa[i], sb[i], objs, m));
        let r = sa[i].result;
        assert(match r {
            Some(Value::Pointer(_)) => false,
            _ => true,
        });
    }
}


/// Whether an instruction stays within the objects and within the heap in
/// the first of two runs: a load or a store reads or writes a cell of the
/// object at the base of its pointer; and an allocation makes an object of
/// at least one cell, for which the second run has room without a
/// collection, while no running function holds a pointer as the value that
/// it returns.
pub open spec fn instr_safe(a: MachineView, b: MachineView, instr: Instr) -> bool {
    match instr {
        Instr::Value { op, dest, args, labels, funcs, pos } => value_safe(
            op,
            args@,
            a.store,
            b.store,
        ) && (op == ValueOp::Alloc ==> results_plain(a.stack)),
        Instr::Effect { op, args, funcs, pos } => effect_safe(op, args@, a.store),
        _ => true,
    }
}

/// Whether the next step of the first of two runs stays within the objects
/// and within the heap.
pub open spec fn step_safe(a: MachineView, b: MachineView, prog: BBProgram) -> bool {
    match next_instr(a, prog) {
        Some(instr) => instr_safe(a, b, instr),
        None => true,
    }
}

/// An instruction that stays within the objects and within the heap keeps
/// runs alike, and asks for the same in both.
pub proof fn lemma_instr_alike(
    a: MachineView,
    b: MachineView,
    objs: Set<usize>,
    m: Map<usize, i64>,
    prog: BBProgram,
    instr: Instr,
)
    requires
        machines_alike(a, b, objs, m),
        a.stack.len() > 0,
        instr_safe(a, b, instr),
    ensures
        exists|o: Set<usize>, n: Map<usize, i64>|
            machines_alike(
                after_instr(a, prog, instr).machine,
                after_instr(b, prog, instr).machine,
                o,
                n,
            ) && action_alike(
                after_instr(a, prog, instr).result,
                after_instr(b, prog, instr).result,
                o,
                n,
            ),
{
    let ra = after_instr(a, prog, instr);
    let rb = after_instr(b, prog, instr);
    let act = a.stack.last();
    let bct = b.stack.last();
    assert(act_alike(a.stack[a.stack.len() - 1], b.stack[a.stack.len() - 1], objs, m));
    let func = prog.functions[act.func as int];
    let block = func.blocks[act.block as int];
    match instr {
        Instr::Constant { dest, const_type, value, pos } => {
            lemma_written_alike(a.store, b.store, objs, m, dest, literal_value(value));
            assert(machines_alike(ra.machine, rb.machine, objs, m));
            assert(action_alike(ra.result, rb.result, objs, m));
        },
        Instr::Value { op, dest, args, labels, funcs, pos } => {
            lemma_value_step_alike(
                prog,
                op,
                dest,
                args@,
                labels@,
                funcs@,
                a.store,
                b.store,
                act.last_label,
                objs,
                m,
            );
            let va = value_step(prog, op, dest, args@, labels@, funcs@, a.store, act.last_label);
            let vb = value_step(prog, op, dest, args@, labels@, funcs@, b.store, act.last_label);
            let (o, n) = if op == ValueOp::Alloc {
                choose|o: Set<usize>, n: Map<usize, i64>| alike(va.store, vb.store, o, n)
            } else {
                (objs, m)
            };
            assert(alike(va.store, vb.store, o, n));
            if op == ValueOp::Alloc {
                lemma_plain_alike(a.stack, b.stack, objs, m, o, n);
            }
            let a1 = MachineView { store: va.store, ..a };
            let b1 = MachineView { store: vb.store, ..b };
            assert(machines_alike(a1, b1, o, n));
            match va.result {
                Ok(crate::interp::ops::ValueOutcome::Call(c)) => {
                    lemma_call_alike(a1, b1, o, n, prog, c, Some(dest), pos);
                },
                _ => {},
            }
            assert(machines_alike(ra.machine, rb.machine, o, n));
            assert(action_alike(ra.result, rb.result, o, n));
        },
        Instr::Effect { op, args, funcs, pos } => {
            lemma_effect_step_alike(
                prog,
                func,
                op,
                args@,
                funcs@,
                block.exit@,
                a.store,
                b.store,
                act.next_block,
                objs,
                m,
            );
            let ea = effect_step(
                prog,
                func,
                op,
                args@,
                funcs@,
                block.exit@,
                a.store,
                act.next_block,
            );
            let eb = effect_step(
                prog,
                func,
                op,
                args@,
                funcs@,
                block.exit@,
                b.store,
                bct.next_block,
            );
            let a1 = MachineView { store: ea.store, ..a };
            let b1 = MachineView { store: eb.store, ..b };
            assert(machines_alike(a1, b1, objs, m));
            match ea.result {
                Ok(oa) => {
                    let ob = eb.result->Ok_0;
                    let ua = Activation {
                        next_block: ea.next_block,
                        result: match oa {
                            EffectOutcomeView::Return(v) => v,
                            _ => None,
                        },
                        ..act
                    };
                    let ub = Activation {
                        next_block: eb.next_block,
                        result: match ob {
                            EffectOutcomeView::Return(v) => v,
                            _ => None,
                        },
                        ..bct
                    };
                    assert(act_alike(ua, ub, objs, m));
                    lemma_stack_alike(a1, b1, objs, m, ua, ub);
                    let a2 = MachineView { stack: a1.stack.update(a1.stack.len() - 1, ua), ..a1 };
                    let b2 = MachineView { stack: b1.stack.update(b1.stack.len() - 1, ub), ..b1 };
                    match oa {
                        EffectOutcomeView::Call(c) => {
                            lemma_call_alike(a2, b2, objs, m, prog, c, None, pos);
                        },
                        _ => {},
                    }
                },
                Err(_) => {},
            }
            assert(machines_alike(ra.machine, rb.machine, objs, m));
            assert(action_alike(ra.result, rb.result, objs, m));
        },
    }
}

/// The end of a block keeps runs alike, and asks for the same in both.
pub proof fn lemma_block_alike(
    a: MachineView,
    b: MachineView,
    objs: Set<usize>,
    m: Map<usize, i64>,
    prog: BBProgram,
)
    requires
        machines_alike(a, b, objs, m),
        a.stack.len() > 0,
    ensures
        machines_alike(after_block(a, prog).machine, after_block(b, prog).machine, objs, m),
        after_block(a, prog).result == after_block(b, prog).result,
        !(after_block(a, prog).result matches Ok(ActionView::Print(_))),
{
    let ra = after_block(a, prog);
    let rb = after_block(b, prog);
    let act = a.stack.last();
    let bct = b.stack.last();
    assert(act_alike(a.stack[a.stack.len() - 1], b.stack[a.stack.len() - 1], objs, m));
    let func = prog.functions[act.func as int];
    match act.next_block {
        Some(idx) => {
            if idx < func.blocks.len() {
                assert(act_alike(at_block(func, act, idx), at_block(func, bct, idx), objs, m));
                lemma_stack_alike(
                    a,
                    b,
                    objs,
                    m,
                    at_block(func, act, idx),
                    at_block(func, bct, idx),
                );
            }
        },
        None => {
            let rest_a = a.stack.drop_last();
            let rest_b = b.stack.drop_last();
            assert forall|i: int| 0 <= i < rest_a.len() implies #[trigger] act_alike(
                rest_a[i],
                rest_b[i],
                objs,
                m,
            ) by {
                assert(act_alike(a.stack[i], b.stack[i], objs, m));
            }
            if rest_a.len() > 0 {
                let sa = if a.store.scopes.len() > 0 {
                    a.store.scopes.drop_last()
                } else {
                    a.store.scopes
                };
                let sb = if b.store.scopes.len() > 0 {
                    b.store.scopes.drop_last()
                } else {
                    b.store.scopes
                };
                assert forall|x: int| 0 <= x < sa.len() implies #[trigger] values_alike(
                    sa[x],
                    sb[x],
                    objs,
                    m,
                ) by {
                    lemma_scope_alike(a.store, b.store, objs, m, x);
                }
                lemma_scopes_alike(a.store, b.store, objs, m, sa, sb);
                let pa = Store { scopes: sa, ..a.store };
                let pb = Store { scopes: sb, ..b.store };
                match (act.dest, act.result) {
                    (Some(d), Some(v)) => {
                        lemma_written_alike(pa, pb, objs, m, d, v);
                    },
                    (Some(d), None) => {
                        lemma_written_alike(pa, pb, objs, m, d, Value::Uninitialized);
                    },
                    _ => {},
                }
            }
        },
    }
}

/// A run that collects and a run that does not take the same steps. Where
/// two states of a run are alike but for the places of the objects, and the
/// next step stays within the objects and within the heap, the step asks
/// for the same in both, with values to print that are alike, and leaves
/// states that are alike, whether or not the first run collects in the
/// step.
pub proof fn lemma_step_alike(
    a: MachineView,
    b: MachineView,
    objs: Set<usize>,
    m: Map<usize, i64>,
    prog: BBProgram,
)
    requires
        machines_alike(a, b, objs, m),
        step_safe(a, b, prog),
    ensures
        exists|o: Set<usize>, n: Map<usize, i64>|
            machines_alike(stepped(a, prog).machine, stepped(b, prog).machine, o, n)
                && action_alike(stepped(a, prog).result, stepped(b, prog).result, o, n),
{
    let ra = stepped(a, prog);
    let rb = stepped(b, prog);
    if a.awaited is Some || a.stack.len() == 0 {
        assert(machines_alike(ra.machine, rb.machine, objs, m));
        assert(action_alike(ra.result, rb.result, objs, m));
    } else {
        let act = a.stack.last();
        let bct = b.stack.last();
        assert(act_alike(a.stack[a.stack.len() - 1], b.stack[a.stack.len() - 1], objs, m));
        if act.func >= prog.functions.len() || act.block
            >= prog.functions[act.func as int].blocks.len() {
            assert(machines_alike(ra.machine, rb.machine, objs, m));
            assert(action_alike(ra.result, rb.result, objs, m));
        } else {
            let block = prog.functions[act.func as int].blocks[act.block as int];
            if act.index < block.instrs.len() {
                let instr = block.instrs[act.index as int];
                assert(next_instr(a, prog) == Some(instr));
                let ua = Activation { index: (act.index + 1) as usize, ..act };
                let ub = Activation { index: (bct.index + 1) as usize, ..bct };
                lemma_stack_alike(a, b, objs, m, ua, ub);
                let a1 = MachineView { stack: a.stack.update(a.stack.len() - 1, ua), ..a };
                let b1 = MachineView { stack: b.stack.update(b.stack.len() - 1, ub), ..b };
                assert(instr_safe(a1, b1, instr)) by {
                    match instr {
                        Instr::Value { op, dest, args, labels, funcs, pos } => {
                            if op == ValueOp::Alloc {
                                assert forall|i: int| 0 <= i < a1.stack.len() implies match (
                                #[trigger] a1.stack[i]).result {
                                    Some(Value::Pointer(_)) => false,
                                    _ => true,
                                } by {
                                    assert(a.stack[i].result == a1.stack[i].result);
                                }
                            }
                        },
                        _ => {},
                    }
                }
                lemma_instr_alike(a1, b1, objs, m, prog, instr);
            } else {
                lemma_block_alike(a, b, objs, m, prog);
                assert(machines_alike(ra.machine, rb.machine, objs, m));
                assert(action_alike(ra.result, rb.result, objs, m));
            }
        }
    }
}


/// A value from outside that is no pointer keeps runs alike when it is
/// written to the variable that waits for it.
pub proof fn lemma_resumed_alike(
    a: MachineView,
    b: MachineView,
    objs: Set<usize>,
    m: Map<usize, i64>,
    value: Value,
)
    requires
        machines_alike(a, b, objs, m),
        !(value is Pointer),
    ensures
        match Machine::resumed(a, value) {
            Some(ra) => Machine::resumed(b, value) is Some && machines_alike(
                ra,
                Machine::resumed(b, value)->0,
                objs,
                m,
            ),
            None => Machine::resumed(b, value) is None,
        },
{
    match a.awaited {
        Some(dest) => {
            lemma_written_alike(a.store, b.store, objs, m, dest, value);
        },
        None => {},
    }
}

/// Whether no variable holds a pointer.
pub open spec fn pointer_free(scopes: Seq<Seq<Value>>) -> bool {
    forall|x: int, i: int|
        0 <= x < scopes.len() && 0 <= i < scopes[x].len() ==> !((#[trigger] scopes[x][i]) is Pointer)
}

/// The inputs of a run give no pointer to a variable.
pub proof fn lemma_inputs_pointer_free(
    scopes: Seq<Seq<Value>>,
    args: Seq<Argument>,
    nums: Seq<u32>,
    inputs: Seq<Input>,
    k: nat,
)
    requires
        pointer_free(scopes),
    ensures
        match bound_inputs(scopes, args, nums, inputs, k) {
            Ok(bound) => pointer_free(bound),
            Err(_) => true,
        },
    decreases k,
{
    if k > 0 {
        lemma_inputs_pointer_free(scopes, args, nums, inputs, (k - 1) as nat);
        match bound_inputs(scopes, args, nums, inputs, (k - 1) as nat) {
            Ok(prev) => {
                match bound_inputs(scopes, args, nums, inputs, k) {
                    Ok(bound) => {
                        assert forall|x: int, i: int|
                            0 <= x < bound.len() && 0 <= i < bound[x].len() implies !((
                        #[trigger] bound[x][i]) is Pointer) by {
                            if x != prev.len() - 1 || i != nums[k - 1] {
                                assert(bound[x][i] == prev[x][i]);
                            }
                        }
                    },
                    Err(_) => {},
                }
            },
            Err(_) => {},
        }
    }
}

/// The state with another limit for the next collection.
pub open spec fn with_limit(s: MachineView, limit: i64) -> MachineView {
    MachineView {
        store: Store { heap: HeapView { gc_limit: limit, ..s.store.heap }, ..s.store },
        ..s
    }
}

/// At the start, a run is like the run of the same program on the same
/// inputs with any other limit for the first collection: there are no
/// objects yet.
pub proof fn lemma_start_alike(prog: BBProgram, inputs: Seq<Input>, limit: i64)
    requires
        started(prog, inputs) is Ok,
    ensures
        machines_alike(
            started(prog, inputs)->Ok_0,
            with_limit(started(prog, inputs)->Ok_0, limit),
            Set::empty(),
            Map::empty(),
        ),
{
    let s = started(prog, inputs)->Ok_0;
    let t = with_limit(s, limit);
    let idx = prog.index_of("main"@)->0;
    let main = prog.functions[idx as int];
    let scope = Seq::new(main.num_of_vars as nat, |i: int| Value::Uninitialized);
    assert(pointer_free(seq![scope]));
    lemma_inputs_pointer_free(
        seq![scope],
        main.args@,
        main.args_as_nums@,
        inputs,
        if main.args@.len() <= main.args_as_nums@.len() {
            main.args@.len()
        } else {
            main.args_as_nums@.len() as nat
        },
    );
    let scopes = s.store.scopes;
    assert(pointer_free(scopes));
    let objs = Set::<usize>::empty();
    let m = Map::<usize, i64>::empty();
    assert forall|x: int, i: int|
        0 <= x < scopes.len() && 0 <= i < scopes[x].len() implies points_within(
        #[trigger] scopes[x][i],
        objs,
    ) by {
        assert(!(scopes[x][i] is Pointer));
    }
    assert forall|x: int, i: int|
        0 <= x < scopes.len() && 0 <= i < scopes[x].len() implies #[trigger] t.store.scopes[x][i]
        == moved(m, scopes[x][i]) by {
        assert(!(scopes[x][i] is Pointer));
    }
    assert(act_alike(s.stack[0], t.stack[0], objs, m));
}


/// The state of a run after `k` steps.
pub open spec fn after_steps(m: MachineView, prog: BBProgram, k: nat) -> MachineView
    decreases k,
{
    if k == 0 {
        m
    } else {
        stepped(after_steps(m, prog, (k - 1) as nat), prog).machine
    }
}

/// What the step after `k` steps asks for.
pub open spec fn asked(m: MachineView, prog: BBProgram, k: nat) -> Result<
    ActionView,
    PositionalInterpError,
> {
    stepped(after_steps(m, prog, k), prog).result
}

/// Whether each of the first `k` steps of two runs stays within the objects
/// and within the heap.
pub open spec fn steps_safe(a: MachineView, b: MachineView, prog: BBProgram, k: nat) -> bool {
    forall|i: nat|
        i < k ==> #[trigger] step_safe(after_steps(a, prog, i), after_steps(b, prog, i), prog)
}

/// Whether a step asks to print no pointer.
pub open spec fn prints_plain(r: Result<ActionView, PositionalInterpError>) -> bool {
    match r {
        Ok(ActionView::Print(vals)) => forall|i: int| 0 <= i < vals.len() ==> !((
        #[trigger] vals[i]) is Pointer),
        _ => true,
    }
}

/// Steps that ask for the same with values that are alike ask for the
/// same outright where no pointer is printed.
pub proof fn lemma_plain_action(
    ra: Result<ActionView, PositionalInterpError>,
    rb: Result<ActionView, PositionalInterpError>,
    objs: Set<usize>,
    m: Map<usize, i64>,
)
    requires
        action_alike(ra, rb, objs, m),
        prints_plain(ra),
    ensures
        rb == ra,
{
    match ra {
        Ok(ActionView::Print(vals)) => {
            let others = rb->Ok_0->Print_0;
            assert forall|i: int| 0 <= i < vals.len() implies others[i] == vals[i] by {
                assert(!(vals[i] is Pointer));
                assert(others[i] == moved(m, vals[i]));
            }
            assert(others =~= vals);
        },
        _ => {},
    }
}

/// Two runs that are alike at some point stay alike step by step, and
/// every step asks for the same in both, as long as the steps stay within
/// the objects and within the heap and print no pointer.
pub proof fn lemma_run_alike(
    a: MachineView,
    b: MachineView,
    objs: Set<usize>,
    m: Map<usize, i64>,
    prog: BBProgram,
    k: nat,
)
    requires
        machines_alike(a, b, objs, m),
        steps_safe(a, b, prog, k),
    ensures
        exists|o: Set<usize>, n: Map<usize, i64>|
            machines_alike(after_steps(a, prog, k), after_steps(b, prog, k), o, n),
        forall|i: nat|
            i < k && prints_plain(#[trigger] asked(a, prog, i)) ==> asked(b, prog, i) == asked(
                a,
                prog,
                i,
            ),
    decreases k,
{
    if k == 0 {
        assert(machines_alike(after_steps(a, prog, k), after_steps(b, prog, k), objs, m));
    } else {
        let j = (k - 1) as nat;
        assert forall|i: nat| i < j implies #[trigger] step_safe(
            after_steps(a, prog, i),
            after_steps(b, prog, i),
            prog,
        ) by {}
        lemma_run_alike(a, b, objs, m, prog, j);
        let x = after_steps(a, prog, j);
        let y = after_steps(b, prog, j);
        let (o, n) = choose|o: Set<usize>, n: Map<usize, i64>| machines_alike(x, y, o, n);
        assert(step_safe(after_steps(a, prog, j), after_steps(b, prog, j), prog));
        lemma_step_alike(x, y, o, n, prog);
        let (o1, n1) = choose|o1: Set<usize>, n1: Map<usize, i64>|
            machines_alike(stepped(x, prog).machine, stepped(y, prog).machine, o1, n1)
                && action_alike(stepped(x, prog).result, stepped(y, prog).result, o1, n1);
        assert(machines_alike(after_steps(a, prog, k), after_steps(b, prog, k), o1, n1));
        assert forall|i: nat| i < k && prints_plain(#[trigger] asked(a, prog, i)) implies asked(
            b,
            prog,
            i,
        ) == asked(a, prog, i) by {
            if i == j {
                lemma_plain_action(asked(a, prog, j), asked(b, prog, j), o1, n1);
            }
        }
    }
}

/// A collection does not show. The run of a program from its start and the
/// run of the same program on the same inputs with any other limit for the
/// first collection, be it one that is never reached, ask for the same
/// step by step: they print the same lines and end in the same way, as
/// long as the steps of the first stay within the objects, the second has
/// room for every object without a collection, and no pointer is printed.
pub proof fn lemma_collections_hidden(prog: BBProgram, inputs: Seq<Input>, limit: i64, k: nat)
    requires
        started(prog, inputs) is Ok,
        steps_safe(
            started(prog, inputs)->Ok_0,
            with_limit(started(prog, inputs)->Ok_0, limit),
            prog,
            k,
        ),
    ensures
        forall|i: nat|
            i < k && prints_plain(#[trigger] asked(started(prog, inputs)->Ok_0, prog, i))
                ==> asked(with_limit(started(prog, inputs)->Ok_0, limit), prog, i) == asked(
                started(prog, inputs)->Ok_0,
                prog,
                i,
            ),
{
    let s = started(prog, inputs)->Ok_0;
    lemma_start_alike(prog, inputs, limit);
    lemma_run_alike(s, with_limit(s, limit), Set::empty(), Map::empty(), prog, k);
}

} // verus!
