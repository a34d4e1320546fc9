//! What a collection keeps: the objects that the variables reach, moved
//! to the other half of the heap with every pointer to them redirected.
use crate::bits::count_true;
use crate::interp::heap::{
    collected, copy_cells, forward, forward_scopes, forward_vars, lemma_copy_len, scan_cells,
    Collected, Forwarded, HALF, HEAP_SIZE, HeapView,
};
use crate::interp::value::{Pointer, Value};
use vstd::prelude::*;

verus! {

/// The first cell of a half of the heap: of the lower half if `is_top`
/// holds, of the upper half if not.
pub open spec fn half_start(is_top: bool) -> int {
    if is_top {
        0
    } else {
        HALF as int
    }
}

/// Whether the value is no pointer, or a pointer to one of the objects.
pub open spec fn points_within(v: Value, objs: Set<usize>) -> bool {
    match v {
        Value::Pointer(p) => objs.contains(p.base),
        _ => true,
    }
}

/// Whether `b` is the base of an object of at least one cell that lies in
/// the allocated part of the half in use.
pub open spec fn is_object(h: HeapView, b: usize) -> bool {
    &&& h.sizes.contains_key(b)
    &&& h.sizes[b] > 0
    &&& half_start(h.is_top) <= b
    &&& b + h.sizes[b] <= h.base_ptr
}

/// Whether two objects have no cell in common.
pub open spec fn apart(h: HeapView, b1: usize, b2: usize) -> bool {
    b1 + h.sizes[b1] <= b2 || b2 + h.sizes[b2] <= b1
}

/// Cell `k` of the object at `b`.
pub open spec fn cell(memory: Seq<Value>, b: usize, k: int) -> Value {
    memory[b + k]
}

/// Whether the objects are closed under the pointers of the heap: they lie
/// in the allocated part of the half in use, no two have a cell in common,
/// and every pointer in a cell of one of them points to one of them.
pub open spec fn heap_closed(h: HeapView, objs: Set<usize>) -> bool {
    &&& h.wf()
    &&& forall|b: usize| #[trigger] objs.contains(b) ==> is_object(h, b)
    &&& forall|b1: usize, b2: usize|
        objs.contains(b1) && objs.contains(b2) && b1 != b2 ==> #[trigger] apart(h, b1, b2)
    &&& forall|b: usize, k: int|
        objs.contains(b) && 0 <= k < h.sizes[b] ==> points_within(
            #[trigger] cell(h.memory, b, k),
            objs,
        )
}

/// Whether every pointer in a variable points to one of the objects.
pub open spec fn roots_within(scopes: Seq<Seq<Value>>, objs: Set<usize>) -> bool {
    forall|a: int, i: int|
        0 <= a < scopes.len() && 0 <= i < scopes[a].len() ==> points_within(
            #[trigger] scopes[a][i],
            objs,
        )
}

/// Whether every cell outside the allocated part of the half in use is one
/// that was never written.
pub open spec fn blank_beyond(h: HeapView) -> bool {
    forall|c: int|
        0 <= c < HEAP_SIZE && !(half_start(h.is_top) <= c < h.base_ptr) ==> #[trigger] h.memory[c]
            == Value::Uninitialized
}

/// Whether the objects hold all that the variables reach: the objects are
/// closed under the pointers of the heap, and every pointer in a variable
/// points to one of them.
pub open spec fn closed(h: HeapView, scopes: Seq<Seq<Value>>, objs: Set<usize>) -> bool {
    heap_closed(h, objs) && roots_within(scopes, objs)
}

/// What a collection makes of a value, given the new bases of the objects
/// that were moved: a pointer to such an object points to the new base,
/// with the same displacement; any other value stays as it is.
pub open spec fn moved(f: Map<usize, i64>, v: Value) -> Value {
    match v {
        Value::Pointer(p) => if f.contains_key(p.base) {
            Value::Pointer(Pointer { base: f[p.base] as usize, offset: p.offset })
        } else {
            v
        },
        _ => v,
    }
}

/// Whether the value is no pointer, or a pointer to an object that was
/// moved.
pub open spec fn points_moved(f: Map<usize, i64>, v: Value) -> bool {
    match v {
        Value::Pointer(p) => f.contains_key(p.base),
        _ => true,
    }
}

/// Whether every object that was moved by `f` was moved to the same place
/// by `g`.
pub open spec fn carries_on(f: Map<usize, i64>, g: Map<usize, i64>) -> bool {
    forall|b: usize| #[trigger] f.contains_key(b) ==> g.contains_key(b) && g[b] == f[b]
}

/// Whether the object at `b` is as it must be in the course of a
/// collection: either it was moved, and then its size stands at its new
/// base, in the allocated part of the half in use; or it still has its
/// size.
pub open spec fn object_state(h0: HeapView, h: HeapView, b: usize) -> bool {
    if h.forwarded.contains_key(b) {
        let t = h.forwarded[b];
        &&& !h.sizes.contains_key(b)
        &&& half_start(h.is_top) <= t
        &&& t + h0.sizes[b] <= h.base_ptr
        &&& h.sizes.contains_key(t as usize)
        &&& h.sizes[t as usize] == h0.sizes[b]
    } else {
        h.sizes.contains_key(b) && h.sizes[b] == h0.sizes[b]
    }
}

/// Whether cell `k` of the object that was moved from `b` is as it must be
/// when the cells below `scan` were forwarded: such a cell holds what the
/// collection makes of what the cell held, and any other what the cell
/// held.
pub open spec fn cell_state(h0: HeapView, h: HeapView, scan: int, b: usize, k: int) -> bool {
    let c = h.forwarded[b] + k;
    let was = cell(h0.memory, b, k);
    if c < scan {
        h.memory[c] == moved(h.forwarded, was) && points_moved(h.forwarded, was)
    } else {
        h.memory[c] == was
    }
}

/// Whether the cell `c` belongs to the new place of the object that was
/// moved from `b`.
pub open spec fn covers(h0: HeapView, h: HeapView, b: usize, c: int) -> bool {
    h.forwarded.contains_key(b) && h.forwarded[b] <= c < h.forwarded[b] + h0.sizes[b]
}

/// Whether the cell `c` belongs to the new place of an object.
pub open spec fn tiled(h0: HeapView, h: HeapView, c: int) -> bool {
    exists|b: usize| covers(h0, h, b, c)
}

/// Whether the new places of two objects have no cell in common.
pub open spec fn places_apart(h0: HeapView, h: HeapView, b1: usize, b2: usize) -> bool {
    h.forwarded[b1] + h0.sizes[b1] <= h.forwarded[b2] || h.forwarded[b2] + h0.sizes[b2]
        <= h.forwarded[b1]
}

/// Whether the cell `c` belongs to the object at `b`, which is one of the
/// objects and was not moved.
pub open spec fn waits(h0: HeapView, f: Map<usize, i64>, objs: Set<usize>, b: usize, c: int) -> bool {
    objs.contains(b) && !f.contains_key(b) && b <= c < b + h0.sizes[b]
}

/// For every cell of the heap, whether it belongs to one of the objects
/// that was not moved.
pub open spec fn waiting(h0: HeapView, f: Map<usize, i64>, objs: Set<usize>) -> Seq<bool> {
    Seq::new(HEAP_SIZE as nat, |c: int| exists|b: usize| waits(h0, f, objs, b, c))
}

/// The state of a collection after the halves changed their parts: `h0` is
/// the heap before the collection, `objs` are its objects, `h` is the heap
/// now, and the cells below `scan` were forwarded.
pub open spec fn collecting(h0: HeapView, objs: Set<usize>, h: HeapView, scan: int) -> bool {
    &&& h.wf()
    &&& h.is_top == !h0.is_top
    &&& h.gc_limit == h0.gc_limit
    &&& half_start(h.is_top) <= scan <= h.base_ptr
    &&& forall|c: int|
        half_start(h0.is_top) <= c < half_start(h0.is_top) + HALF ==> #[trigger] h.memory[c]
            == h0.memory[c]
    &&& forall|c: int| h.base_ptr <= c < HEAP_SIZE ==> #[trigger] h.memory[c] == h0.memory[c]
    &&& forall|b: usize| #[trigger] objs.contains(b) ==> object_state(h0, h, b)
    &&& forall|b: usize| #[trigger] h.forwarded.contains_key(b) ==> objs.contains(b)
    &&& forall|b: usize, k: int|
        h.forwarded.contains_key(b) && 0 <= k < h0.sizes[b] ==> #[trigger] cell_state(
            h0,
            h,
            scan,
            b,
            k,
        )
    &&& forall|c: int| half_start(h.is_top) <= c < h.base_ptr ==> #[trigger] tiled(h0, h, c)
    &&& forall|b1: usize, b2: usize|
        h.forwarded.contains_key(b1) && h.forwarded.contains_key(b2) && b1 != b2
            ==> #[trigger] places_apart(h0, h, b1, b2)
    &&& h.allocated() + count_true(waiting(h0, h.forwarded, objs)) <= h0.allocated()
}

/// No more flags are set than there are places between the bounds within
/// which all set flags lie.
pub proof fn lemma_count_within(s: Seq<bool>, lo: int, hi: int)
    requires
        0 <= lo <= hi,
        forall|i: int| 0 <= i < s.len() && s[i] ==> lo <= i < hi,
    ensures
        count_true(s) <= hi - lo,
        s.len() <= lo ==> count_true(s) == 0,
        lo <= s.len() <= hi ==> count_true(s) <= s.len() - lo,
    decreases s.len(),
{
    if s.len() > 0 {
        lemma_count_within(s.drop_last(), lo, hi);
    }
}

/// Where a run of flags is set in one row and not in another, and the rows
/// are the same elsewhere, the first row has as many more flags set as the
/// run is long.
pub proof fn lemma_count_run(a: Seq<bool>, b: Seq<bool>, lo: int, n: int)
    requires
        a.len() == b.len(),
        0 <= lo,
        0 <= n,
        lo + n <= a.len(),
        forall|i: int| lo <= i < lo + n ==> a[i] && !b[i],
        forall|i: int| 0 <= i < a.len() && !(lo <= i < lo + n) ==> a[i] == b[i],
    ensures
        count_true(a) == count_true(b) + n,
    decreases a.len(),
{
    if n == 0 {
        assert(a =~= b);
    } else if a.len() - 1 < lo + n {
        lemma_count_run(a.drop_last(), b.drop_last(), lo, n - 1);
    } else {
        lemma_count_run(a.drop_last(), b.drop_last(), lo, n);
    }
}

/// Copying the cells of an object to a place apart from it changes the
/// cells of that place alone, which then hold what the cells of the object
/// hold.
pub proof fn lemma_copy_cells(memory: Seq<Value>, from: int, to: int, k: nat)
    requires
        0 <= from,
        0 <= to,
        from + k <= memory.len(),
        to + k <= memory.len(),
        from + k <= to || to + k <= from,
    ensures
        copy_cells(memory, from, to, k).len() == memory.len(),
        forall|j: int| 0 <= j < k ==> #[trigger] copy_cells(memory, from, to, k)[to + j] == memory[from + j],
        forall|c: int|
            0 <= c < memory.len() && !(to <= c < to + k) ==> #[trigger] copy_cells(
                memory,
                from,
                to,
                k,
            )[c] == memory[c],
    decreases k,
{
    if k > 0 {
        lemma_copy_cells(memory, from, to, (k - 1) as nat);
        lemma_copy_len(memory, from, to, (k - 1) as nat);
        let prev = copy_cells(memory, from, to, (k - 1) as nat);
        let now = copy_cells(memory, from, to, k);
        assert(now == prev.update(to + k - 1, prev[from + k - 1]));
        assert forall|j: int| 0 <= j < k implies #[trigger] now[to + j] == memory[from + j] by {
            if j < k - 1 {
                assert(prev[to + j] == memory[from + j]);
            } else {
                assert(prev[from + k - 1] == memory[from + k - 1]);
            }
        }
    }
}

/// The heap after the object at `b` was moved to the place of the next
/// object.
pub open spec fn after_move(h: HeapView, b: usize) -> HeapView {
    let s = h.sizes[b];
    HeapView {
        memory: copy_cells(h.memory, b as int, h.base_ptr as int, s as nat),
        sizes: h.sizes.remove(b).insert(h.base_ptr, s),
        forwarded: h.forwarded.insert(b, h.base_ptr as i64),
        base_ptr: (h.base_ptr + s) as usize,
        ..h
    }
}

/// The field after it was forwarded.
pub open spec fn field_after(f: Forwarded, fld: Value) -> Value {
    match f.field {
        Some(v) => v,
        None => fld,
    }
}

/// Moving an object that waits keeps the state of the collection: there is
/// room for the object, and afterwards it is one of the objects that were
/// moved.
pub proof fn lemma_move_collecting(h0: HeapView, objs: Set<usize>, h: HeapView, scan: int, b: usize)
    requires
        heap_closed(h0, objs),
        collecting(h0, objs, h, scan),
        objs.contains(b),
        !h.forwarded.contains_key(b),
    ensures
        h.sizes.contains_key(b),
        h.sizes[b] == h0.sizes[b],
        h.allocated() + h.sizes[b] <= HALF,
        b + h.sizes[b] <= HEAP_SIZE,
        collecting(h0, objs, after_move(h, b), scan),
        carries_on(h.forwarded, after_move(h, b).forwarded),
{
    let s = h0.sizes[b];
    let to = h.base_ptr;
    let f = h.forwarded;
    let next = after_move(h, b);
    let g = next.forwarded;
    assert(is_object(h0, b));
    assert(object_state(h0, h, b));
    let w = waiting(h0, f, objs);
    let v = waiting(h0, g, objs);
    assert forall|c: int| b <= c < b + s implies w[c] && !v[c] by {
        assert(waits(h0, f, objs, b, c));
        if v[c] {
            let d = choose|d: usize| waits(h0, g, objs, d, c);
            assert(d != b);
            assert(apart(h0, b, d));
            assert(is_object(h0, d));
        }
    }
    assert forall|c: int| 0 <= c < w.len() && !(b <= c < b + s) implies w[c] == v[c] by {
        if w[c] {
            let d = choose|d: usize| waits(h0, f, objs, d, c);
            assert(waits(h0, g, objs, d, c));
        }
        if v[c] {
            let d = choose|d: usize| waits(h0, g, objs, d, c);
            assert(waits(h0, f, objs, d, c));
        }
    }
    lemma_count_run(w, v, b as int, s as int);
    lemma_copy_cells(h.memory, b as int, to as int, s as nat);
    assert(next.wf()) by {
        assert forall|k: usize| #[trigger] next.sizes.contains_key(k) implies 0 <= next.sizes[k]
            && k + next.sizes[k] <= HEAP_SIZE by {
            if k != to {
                assert(h.sizes.contains_key(k));
            }
        }
    }
    assert forall|d: usize| #[trigger] objs.contains(d) implies object_state(h0, next, d) by {
        assert(object_state(h0, h, d));
        assert(is_object(h0, d));
    }
    assert forall|d: usize, k: int| g.contains_key(d) && 0 <= k < h0.sizes[d] implies #[trigger] cell_state(
        h0,
        next,
        scan,
        d,
        k,
    ) by {
        if d == b {
            assert(next.memory[to + k] == h.memory[b + k]);
            assert(h.memory[b + k] == h0.memory[b + k]);
        } else {
            assert(cell_state(h0, h, scan, d, k));
            assert(objs.contains(d));
            assert(object_state(h0, h, d));
            assert(next.memory[f[d] + k] == h.memory[f[d] + k]);
        }
    }
    assert forall|c: int| half_start(next.is_top) <= c < next.base_ptr implies #[trigger] tiled(
        h0,
        next,
        c,
    ) by {
        if c < to {
            assert(tiled(h0, h, c));
            let d = choose|d: usize| covers(h0, h, d, c);
            assert(covers(h0, next, d, c));
        } else {
            assert(covers(h0, next, b, c));
        }
    }
    assert forall|b1: usize, b2: usize|
        g.contains_key(b1) && g.contains_key(b2) && b1 != b2 implies #[trigger] places_apart(
        h0,
        next,
        b1,
        b2,
    ) by {
        if b1 == b {
            assert(objs.contains(b2));
            assert(object_state(h0, h, b2));
        } else if b2 == b {
            assert(objs.contains(b1));
            assert(object_state(h0, h, b1));
        } else {
            assert(places_apart(h0, h, b1, b2));
        }
    }
    assert forall|c: int|
        half_start(h0.is_top) <= c < half_start(h0.is_top) + HALF implies #[trigger] next.memory[c]
        == h0.memory[c] by {
        assert(h.memory[c] == h0.memory[c]);
    }
}

/// Forwarding a field that points to one of the objects, if it is a
/// pointer, keeps the state of the collection. Afterwards the object is
/// moved, and the field holds what the collection makes of it.
pub proof fn lemma_forward_collecting(
    h0: HeapView,
    objs: Set<usize>,
    h: HeapView,
    scan: int,
    fld: Value,
)
    requires
        heap_closed(h0, objs),
        collecting(h0, objs, h, scan),
        points_within(fld, objs),
    ensures
        collecting(h0, objs, forward(h, fld).heap, scan),
        carries_on(h.forwarded, forward(h, fld).heap.forwarded),
        field_after(forward(h, fld), fld) == moved(forward(h, fld).heap.forwarded, fld),
        points_moved(forward(h, fld).heap.forwarded, fld),
{
    match fld {
        Value::Pointer(p) => {
            let b = p.base;
            assert(is_object(h0, b));
            assert(object_state(h0, h, b));
            assert(h.in_from_space(b));
            if !h.forwarded.contains_key(b) {
                lemma_move_collecting(h0, objs, h, scan, b);
                let taken = HeapView { sizes: h.sizes.remove(b), ..h };
                assert(taken.can_alloc(h.sizes[b]));
                assert(forward(h, fld).heap == after_move(h, b));
            }
        },
        _ => {},
    }
}

/// What a collection makes of a value stays what it is when more objects
/// are moved, once the object that the value points to was moved.
pub proof fn lemma_moved_stays(f: Map<usize, i64>, g: Map<usize, i64>, v: Value)
    requires
        carries_on(f, g),
        points_moved(f, v),
    ensures
        moved(g, v) == moved(f, v),
        points_moved(g, v),
{
    match v {
        Value::Pointer(p) => {
            assert(f.contains_key(p.base));
        },
        _ => {},
    }
}

/// Forwarding the first `k` variables of a scope keeps the state of the
/// collection; those variables then hold what the collection makes of
/// them, and the others hold what they held.
pub proof fn lemma_vars_collecting(
    h0: HeapView,
    objs: Set<usize>,
    h: HeapView,
    scan: int,
    vars: Seq<Value>,
    k: nat,
)
    requires
        heap_closed(h0, objs),
        collecting(h0, objs, h, scan),
        k <= vars.len(),
        forall|i: int| 0 <= i < vars.len() ==> points_within(#[trigger] vars[i], objs),
    ensures
        collecting(h0, objs, forward_vars(h, vars, k).heap, scan),
        carries_on(h.forwarded, forward_vars(h, vars, k).heap.forwarded),
        forward_vars(h, vars, k).vars.len() == vars.len(),
        forall|i: int|
            0 <= i < k ==> #[trigger] forward_vars(h, vars, k).vars[i] == moved(
                forward_vars(h, vars, k).heap.forwarded,
                vars[i],
            ) && points_moved(forward_vars(h, vars, k).heap.forwarded, vars[i]),
        forall|i: int| k <= i < vars.len() ==> #[trigger] forward_vars(h, vars, k).vars[i] == vars[i],
    decreases k,
{
    if k > 0 {
        lemma_vars_collecting(h0, objs, h, scan, vars, (k - 1) as nat);
        let prev = forward_vars(h, vars, (k - 1) as nat);
        let now = forward_vars(h, vars, k);
        let fld = prev.vars[k - 1];
        assert(fld == vars[k - 1]);
        lemma_forward_collecting(h0, objs, prev.heap, scan, fld);
        assert forall|i: int| 0 <= i < k implies #[trigger] now.vars[i] == moved(
            now.heap.forwarded,
            vars[i],
        ) && points_moved(now.heap.forwarded, vars[i]) by {
            if i < k - 1 {
                assert(prev.vars[i] == moved(prev.heap.forwarded, vars[i]));
                lemma_moved_stays(prev.heap.forwarded, now.heap.forwarded, vars[i]);
            }
        }
    }
}

/// Forwarding the variables of the first `k` scopes keeps the state of the
/// collection; those variables then hold what the collection makes of
/// them, and the others hold what they held.
pub proof fn lemma_scopes_collecting(
    h0: HeapView,
    objs: Set<usize>,
    h: HeapView,
    scan: int,
    scopes: Seq<Seq<Value>>,
    k: nat,
)
    requires
        heap_closed(h0, objs),
        collecting(h0, objs, h, scan),
        k <= scopes.len(),
        roots_within(scopes, objs),
    ensures
        collecting(h0, objs, forward_scopes(h, scopes, k).heap, scan),
        carries_on(h.forwarded, forward_scopes(h, scopes, k).heap.forwarded),
        forward_scopes(h, scopes, k).scopes.len() == scopes.len(),
        forall|a: int|
            0 <= a < scopes.len() ==> (#[trigger] forward_scopes(h, scopes, k).scopes[a]).len()
                == scopes[a].len(),
        forall|a: int, i: int|
            0 <= a < k && 0 <= i < scopes[a].len() ==> #[trigger] forward_scopes(
                h,
                scopes,
                k,
            ).scopes[a][i] == moved(forward_scopes(h, scopes, k).heap.forwarded, scopes[a][i])
                && points_moved(forward_scopes(h, scopes, k).heap.forwarded, scopes[a][i]),
        forall|a: int| k <= a < scopes.len() ==> #[trigger] forward_scopes(h, scopes, k).scopes[a]
            == scopes[a],
    decreases k,
{
    if k > 0 {
        lemma_scopes_collecting(h0, objs, h, scan, scopes, (k - 1) as nat);
        let prev = forward_scopes(h, scopes, (k - 1) as nat);
        let now = forward_scopes(h, scopes, k);
        let vars = prev.scopes[k - 1];
        assert(vars == scopes[k - 1]);
        assert forall|i: int| 0 <= i < vars.len() implies points_within(
            #[trigger] vars[i],
            objs,
        ) by {
            assert(points_within(scopes[k - 1][i], objs));
        }
        lemma_vars_collecting(h0, objs, prev.heap, scan, vars, vars.len());
        let r = forward_vars(prev.heap, vars, vars.len());
        assert(now.scopes == prev.scopes.update(k - 1, r.vars));
        assert forall|a: int, i: int| 0 <= a < k && 0 <= i < scopes[a].len() implies #[trigger] now.scopes[a][i]
            == moved(now.heap.forwarded, scopes[a][i]) && points_moved(
            now.heap.forwarded,
            scopes[a][i],
        ) by {
            if a < k - 1 {
                assert(prev.scopes[a][i] == moved(prev.heap.forwarded, scopes[a][i]));
                lemma_moved_stays(prev.heap.forwarded, now.heap.forwarded, scopes[a][i]);
            } else {
                assert(r.vars[i] == moved(r.heap.forwarded, vars[i]));
            }
        }
    }
}

/// Forwarding the cells from `scan` up to the place of the next object
/// keeps the state of the collection, and leaves no cell that was not
/// forwarded.
pub proof fn lemma_scan_collecting(h0: HeapView, objs: Set<usize>, h: HeapView, scan: int)
    requires
        heap_closed(h0, objs),
        collecting(h0, objs, h, scan),
    ensures
        collecting(h0, objs, scan_cells(h, scan), scan_cells(h, scan).base_ptr as int),
        carries_on(h.forwarded, scan_cells(h, scan).forwarded),
    decreases HEAP_SIZE - scan,
{
    if scan < h.base_ptr {
        let fld = h.memory[scan];
        assert(tiled(h0, h, scan));
        let b = choose|b: usize| covers(h0, h, b, scan);
        let k = scan - h.forwarded[b];
        assert(cell_state(h0, h, scan, b, k));
        assert(objs.contains(b));
        assert(points_within(cell(h0.memory, b, k), objs));
        lemma_forward_collecting(h0, objs, h, scan, fld);
        let f = forward(h, fld);
        let v = field_after(f, fld);
        let next = match f.field {
            Some(v) => HeapView { memory: f.heap.memory.update(scan, v), ..f.heap },
            None => f.heap,
        };
        assert(cell_state(h0, f.heap, scan, b, k));
        assert(f.heap.memory[scan] == fld);
        assert(next.memory =~= f.heap.memory.update(scan, v));
        assert(next.sizes == f.heap.sizes);
        assert(next.forwarded == f.heap.forwarded);
        assert(next.base_ptr == f.heap.base_ptr);
        assert(next.wf());
        assert forall|d: usize| #[trigger] objs.contains(d) implies object_state(h0, next, d) by {
            assert(object_state(h0, f.heap, d));
        }
        assert forall|d: usize, j: int|
            next.forwarded.contains_key(d) && 0 <= j < h0.sizes[d] implies #[trigger] cell_state(
            h0,
            next,
            scan + 1,
            d,
            j,
        ) by {
            assert(cell_state(h0, f.heap, scan, d, j));
            assert(objs.contains(d));
            assert(object_state(h0, f.heap, d));
            if next.forwarded[d] + j == scan {
                if d != b {
                    assert(places_apart(h0, f.heap, d, b));
                }
            }
        }
        assert forall|c: int| half_start(next.is_top) <= c < next.base_ptr implies #[trigger] tiled(
            h0,
            next,
            c,
        ) by {
            assert(tiled(h0, f.heap, c));
            let d = choose|d: usize| covers(h0, f.heap, d, c);
            assert(covers(h0, next, d, c));
        }
        assert forall|b1: usize, b2: usize|
            next.forwarded.contains_key(b1) && next.forwarded.contains_key(b2) && b1
                != b2 implies #[trigger] places_apart(h0, next, b1, b2) by {
            assert(places_apart(h0, f.heap, b1, b2));
        }
        assert forall|c: int|
            half_start(h0.is_top) <= c < half_start(h0.is_top) + HALF implies #[trigger] next.memory[c]
            == h0.memory[c] by {
            assert(f.heap.memory[c] == h0.memory[c]);
        }
        assert(collecting(h0, objs, next, scan + 1));
        lemma_scan_collecting(h0, objs, next, scan + 1);
        assert(scan_cells(h, scan) == scan_cells(next, scan + 1));
    }
}

/// Whether the object at `b` was moved to `t`.
pub open spec fn placed_at(f: Map<usize, i64>, b: usize, t: usize) -> bool {
    f.contains_key(b) && f[b] == t
}

/// The new bases of the objects that were moved.
pub open spec fn new_places(f: Map<usize, i64>) -> Set<usize> {
    Set::new(|t: usize| exists|b: usize| placed_at(f, b, t))
}

/// Whether a collection kept what the variables reach. `h` and `scopes` are
/// the heap and the variables before the collection, `objs` the objects
/// they reach, and `c` the heap and the variables after it, where the heap
/// records the new base of every object that was moved.
///
/// The other half is in use, with no more cells allocated than before.
/// Every variable holds what the collection makes of what it held, and what
/// it pointed to was moved. Every object that was moved was one of the
/// objects and has its size at its new base, within the heap; every cell of
/// it holds what the collection makes of what the cell held, and what the
/// cell pointed to was moved. No two objects were moved to the same base.
pub open spec fn keeps(h: HeapView, scopes: Seq<Seq<Value>>, objs: Set<usize>, c: Collected) -> bool {
    let f = c.heap.forwarded;
    &&& c.heap.is_top == !h.is_top
    &&& c.heap.gc_limit == h.gc_limit
    &&& c.heap.allocated() <= h.allocated()
    &&& c.scopes.len() == scopes.len()
    &&& forall|a: int| 0 <= a < scopes.len() ==> (#[trigger] c.scopes[a]).len() == scopes[a].len()
    &&& forall|a: int, i: int|
        0 <= a < scopes.len() && 0 <= i < scopes[a].len() ==> #[trigger] c.scopes[a][i] == moved(
            f,
            scopes[a][i],
        ) && points_moved(f, scopes[a][i])
    &&& forall|b: usize| #[trigger]
        f.contains_key(b) ==> objs.contains(b) && 0 <= f[b] < HEAP_SIZE
            && c.heap.sizes.contains_key(f[b] as usize) && c.heap.sizes[f[b] as usize]
            == h.sizes[b]
    &&& forall|b: usize, k: int|
        f.contains_key(b) && 0 <= k < h.sizes[b] ==> #[trigger] cell(
            c.heap.memory,
            f[b] as usize,
            k,
        ) == moved(f, cell(h.memory, b, k)) && points_moved(f, cell(h.memory, b, k))
    &&& forall|b1: usize, b2: usize|
        #![trigger f[b1], f[b2]]
        f.contains_key(b1) && f.contains_key(b2) && b1 != b2 ==> f[b1] != f[b2]
}

/// The state of a collection right after the halves changed their parts.
pub proof fn lemma_start_collecting(h: HeapView, objs: Set<usize>)
    requires
        heap_closed(h, objs),
    ensures
        collecting(
            h,
            objs,
            HeapView { forwarded: Map::empty(), ..h.flipped() },
            half_start(!h.is_top),
        ),
{
    let start = HeapView { forwarded: Map::empty(), ..h.flipped() };
    let w = waiting(h, start.forwarded, objs);
    assert forall|i: int| 0 <= i < w.len() && w[i] implies half_start(h.is_top) <= i
        < h.base_ptr by {
        let b = choose|b: usize| waits(h, start.forwarded, objs, b, i);
        assert(is_object(h, b));
    }
    lemma_count_within(w, half_start(h.is_top), h.base_ptr as int);
    assert forall|b: usize| #[trigger] objs.contains(b) implies object_state(h, start, b) by {
        assert(is_object(h, b));
    }
}

/// A collection keeps what the variables reach, up to the places of the
/// objects: where every pointer in a variable or in an object points to
/// one of the objects, which have cells of their own in the half in use,
/// the collection moves the objects that the variables reach to the other
/// half and redirects every pointer to them, in the variables and in the
/// objects alike; and the objects that were moved are then closed under the
/// pointers of the heap in their turn.
pub proof fn lemma_collection_keeps(h: HeapView, scopes: Seq<Seq<Value>>, objs: Set<usize>)
    requires
        closed(h, scopes, objs),
    ensures
        keeps(h, scopes, objs, collected(h, scopes)),
        closed(
            collected(h, scopes).heap,
            collected(h, scopes).scopes,
            new_places(collected(h, scopes).heap.forwarded),
        ),
        blank_beyond(h) ==> blank_beyond(collected(h, scopes).heap),
{
    let start = HeapView { forwarded: Map::empty(), ..h.flipped() };
    let lo = half_start(!h.is_top);
    assert(start.base_ptr == lo);
    lemma_start_collecting(h, objs);
    lemma_scopes_collecting(h, objs, start, lo, scopes, scopes.len());
    let roots = forward_scopes(start, scopes, scopes.len());
    lemma_scan_collecting(h, objs, roots.heap, lo);
    let done = scan_cells(roots.heap, lo);
    let c = collected(h, scopes);
    assert(c.heap == done.cleared());
    assert(c.scopes == roots.scopes);
    let f = c.heap.forwarded;
    let end = done.base_ptr as int;
    assert(collecting(h, objs, done, end));
    assert forall|i: int| lo <= i < lo + HALF implies #[trigger] c.heap.memory[i]
        == done.memory[i] by {}
    assert forall|a: int, i: int| 0 <= a < scopes.len() && 0 <= i < scopes[a].len() implies #[trigger] c.scopes[a][i]
        == moved(f, scopes[a][i]) && points_moved(f, scopes[a][i]) by {
        assert(roots.scopes[a][i] == moved(roots.heap.forwarded, scopes[a][i]));
        lemma_moved_stays(roots.heap.forwarded, f, scopes[a][i]);
    }
    assert forall|b: usize| #[trigger] f.contains_key(b) implies objs.contains(b) && 0 <= f[b]
        < HEAP_SIZE && c.heap.sizes.contains_key(f[b] as usize) && c.heap.sizes[f[b] as usize]
        == h.sizes[b] by {
        assert(objs.contains(b));
        assert(object_state(h, done, b));
        assert(is_object(h, b));
    }
    assert forall|b: usize, k: int| f.contains_key(b) && 0 <= k < h.sizes[b] implies #[trigger] cell(
        c.heap.memory,
        f[b] as usize,
        k,
    ) == moved(f, cell(h.memory, b, k)) && points_moved(f, cell(h.memory, b, k)) by {
        assert(objs.contains(b));
        assert(object_state(h, done, b));
        assert(cell_state(h, done, end, b, k));
        assert(c.heap.memory[f[b] + k] == done.memory[f[b] + k]);
    }
    assert forall|b1: usize, b2: usize|
        #![trigger f[b1], f[b2]]
        f.contains_key(b1) && f.contains_key(b2) && b1 != b2 implies f[b1] != f[b2] by {
        assert(places_apart(h, done, b1, b2));
        assert(objs.contains(b1));
        assert(is_object(h, b1));
        assert(objs.contains(b2));
        assert(is_object(h, b2));
    }
    let places = new_places(f);
    assert forall|t: usize| #[trigger] places.contains(t) implies is_object(c.heap, t) by {
        let b = choose|b: usize| placed_at(f, b, t);
        assert(objs.contains(b));
        assert(object_state(h, done, b));
        assert(is_object(h, b));
    }
    assert forall|t1: usize, t2: usize|
        places.contains(t1) && places.contains(t2) && t1 != t2 implies #[trigger] apart(
        c.heap,
        t1,
        t2,
    ) by {
        let b1 = choose|b: usize| placed_at(f, b, t1);
        let b2 = choose|b: usize| placed_at(f, b, t2);
        assert(objs.contains(b1) && objs.contains(b2));
        assert(object_state(h, done, b1));
        assert(object_state(h, done, b2));
        assert(places_apart(h, done, b1, b2));
    }
    assert forall|t: usize, k: int|
        places.contains(t) && 0 <= k < c.heap.sizes[t] implies points_within(
        #[trigger] cell(c.heap.memory, t, k),
        places,
    ) by {
        let b = choose|b: usize| placed_at(f, b, t);
        assert(objs.contains(b));
        assert(object_state(h, done, b));
        assert(cell(c.heap.memory, f[b] as usize, k) == moved(f, cell(h.memory, b, k)));
        lemma_moved_within(f, cell(h.memory, b, k));
    }
    assert forall|a: int, i: int|
        0 <= a < c.scopes.len() && 0 <= i < c.scopes[a].len() implies points_within(
        #[trigger] c.scopes[a][i],
        places,
    ) by {
        assert(c.scopes[a].len() == scopes[a].len());
        assert(c.scopes[a][i] == moved(f, scopes[a][i]));
        lemma_moved_within(f, scopes[a][i]);
    }
    assert(c.heap.wf());
}

/// What a collection makes of a value that points to an object that was
/// moved points to one of the new places.
pub proof fn lemma_moved_within(f: Map<usize, i64>, v: Value)
    requires
        points_moved(f, v),
        forall|b: usize| #[trigger] f.contains_key(b) ==> 0 <= f[b] <= HEAP_SIZE,
    ensures
        points_within(moved(f, v), new_places(f)),
{
    match v {
        Value::Pointer(p) => {
            assert(placed_at(f, p.base, f[p.base] as usize));
        },
        _ => {},
    }
}

} // verus!
