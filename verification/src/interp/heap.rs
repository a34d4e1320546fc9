//! The heap: a fixed array of cells in two halves, of which one is in use
//! at a time, with a bump allocator and a copying collector.
use crate::interp::value::{blank, Environment, Pointer, Scope, Value};
use fxhash::FxHashMap;
use vstd::prelude::*;

verus! {

/// `fxhash::FxHasher`: the hasher of the maps of the heap. Nothing is said
/// of what is inside a value of it.
#[verifier::external_type_specification]
#[verifier::external_body]
pub struct ExFxHasher(fxhash::FxHasher);

/// `std::hash::BuildHasherDefault`: makes the hashers of a map. Nothing is
/// said of what is inside a value of it.
#[verifier::external_type_specification]
#[verifier::external_body]
#[verifier::reject_recursive_types(H)]
pub struct ExBuildHasherDefault<H>(std::hash::BuildHasherDefault<H>);

/// The number of cells of the heap.
pub const HEAP_SIZE: usize = 1000000;

/// The number of cells of one half of the heap.
pub const HALF: usize = 500000;

/// The number of allocated cells at which the first collection runs.
pub const INITIAL_GC_LIMIT: i64 = 16;

/// The factor by which the limit grows when a collection runs.
pub const GC_GROWTH_FACTOR: i64 = 2;

/// What a map from addresses to numbers holds.
pub uninterp spec fn entries_of(m: FxHashMap<usize, i64>) -> Map<usize, i64>;

/// `FxHashMap::default`: the new map holds nothing.
#[verifier::external_body]
fn table_new() -> (m: FxHashMap<usize, i64>)
    ensures
        entries_of(m) == no_entries(),
{
    FxHashMap::default()
}

/// The entries of a map that holds none.
pub open spec fn no_entries() -> Map<usize, i64> {
    Map::empty()
}

/// `HashMap::insert`: the key holds the new value, and all else stays.
#[verifier::external_body]
fn table_insert(m: &mut FxHashMap<usize, i64>, key: usize, value: i64)
    ensures
        entries_of(*final(m)) == entries_of(*old(m)).insert(key, value),
{
    m.insert(key, value);
}

/// `HashMap::remove`: the value of the key, if it had one; afterwards the
/// key has none, and all else stays.
#[verifier::external_body]
fn table_remove(m: &mut FxHashMap<usize, i64>, key: usize) -> (r: Option<i64>)
    ensures
        r == (if entries_of(*old(m)).contains_key(key) {
            Some(entries_of(*old(m))[key])
        } else {
            None
        }),
        entries_of(*final(m)) == entries_of(*old(m)).remove(key),
{
    m.remove(&key)
}

/// `HashMap::get`: the value of the key, if it has one.
#[verifier::external_body]
fn table_get(m: &FxHashMap<usize, i64>, key: usize) -> (r: Option<i64>)
    ensures
        r == (if entries_of(*m).contains_key(key) {
            Some(entries_of(*m)[key])
        } else {
            None
        }),
{
    m.get(&key).copied()
}


/// What can go wrong with the heap.
#[derive(Debug, Clone, Copy, PartialEq, Eq)]
pub enum HeapError {
    CannotAllocSize(i64),
    InvalidMemoryAccess(usize, i64),
    UsingUninitializedMemory,
}

/// The heap.
///
/// `memory` holds the cells; `size_map` gives the size of every object by
/// its base; `base_ptr` is where the next object goes; `is_top` says that
/// the lower half is in use; `gc_limit` is the number of allocated cells at
/// which the next collection runs; and `forwarded` gives, during a
/// collection, the new base of every object that was moved.
pub struct Heap {
    pub memory: Vec<Value>,
    pub size_map: FxHashMap<usize, i64>,
    pub forwarded: FxHashMap<usize, i64>,
    pub base_ptr: usize,
    pub is_top: bool,
    pub gc_limit: i64,
}

/// The model of a [`Heap`].
pub struct HeapView {
    pub memory: Seq<Value>,
    pub sizes: Map<usize, i64>,
    pub forwarded: Map<usize, i64>,
    pub base_ptr: usize,
    pub is_top: bool,
    pub gc_limit: i64,
}

impl View for Heap {
    type V = HeapView;

    open spec fn view(&self) -> HeapView {
        HeapView {
            memory: self.memory@,
            sizes: entries_of(self.size_map),
            forwarded: entries_of(self.forwarded),
            base_ptr: self.base_ptr,
            is_top: self.is_top,
            gc_limit: self.gc_limit,
        }
    }
}

impl HeapView {
    /// The invariant of a heap: it has all its cells, the place of the
    /// next object lies in the half in use, and every object lies within
    /// the heap.
    pub open spec fn wf(self) -> bool {
        &&& self.memory.len() == HEAP_SIZE
        &&& self.is_top ==> self.base_ptr <= HALF
        &&& !self.is_top ==> HALF <= self.base_ptr <= HEAP_SIZE
        &&& forall|b: usize| #[trigger]
            self.sizes.contains_key(b) ==> 0 <= self.sizes[b] && b + self.sizes[b] <= HEAP_SIZE
    }

    /// The number of cells allocated in the half in use.
    pub open spec fn allocated(self) -> int {
        if self.is_top {
            self.base_ptr as int
        } else {
            self.base_ptr - HALF
        }
    }

    /// Whether an object of the given size can be allocated.
    pub open spec fn can_alloc(self, amount: i64) -> bool {
        0 <= amount <= HALF - self.allocated()
    }

    /// The heap after an object of the given size was allocated.
    pub open spec fn with_object(self, amount: i64) -> HeapView {
        HeapView {
            sizes: self.sizes.insert(self.base_ptr, amount),
            base_ptr: (self.base_ptr + amount) as usize,
            ..self
        }
    }

    /// Whether a collection is due before an allocation of the given size.
    pub open spec fn gc_due(self, amount: i64) -> bool {
        amount + self.allocated() >= self.gc_limit
    }

    /// The heap with the limit grown; the limit stops at the greatest
    /// number.
    pub open spec fn grown(self) -> HeapView {
        HeapView {
            gc_limit: if self.gc_limit * GC_GROWTH_FACTOR > i64::MAX {
                i64::MAX
            } else if self.gc_limit * GC_GROWTH_FACTOR < i64::MIN {
                i64::MIN
            } else {
                (self.gc_limit * GC_GROWTH_FACTOR) as i64
            },
            ..self
        }
    }

    /// The heap with the other half in use, and nothing allocated in it.
    pub open spec fn flipped(self) -> HeapView {
        HeapView {
            base_ptr: if self.is_top {
                HALF
            } else {
                0
            },
            is_top: !self.is_top,
            ..self
        }
    }

    /// Whether the address lies in the half that is not in use.
    pub open spec fn in_from_space(self, b: usize) -> bool {
        if self.is_top {
            b >= HALF
        } else {
            b < HALF
        }
    }

    /// The heap with the cells of the half that is not in use cleared.
    pub open spec fn cleared(self) -> HeapView {
        HeapView {
            memory: Seq::new(
                self.memory.len(),
                |i: int|
                    if (self.is_top && i >= HALF) || (!self.is_top && i < HALF) {
                        Value::Uninitialized
                    } else {
                        self.memory[i]
                    },
            ),
            ..self
        }
    }
}

/// The memory after the first `k` cells of an object were copied from one
/// place to another, from the lowest address up.
pub open spec fn copy_cells(memory: Seq<Value>, from: int, to: int, k: nat) -> Seq<Value>
    decreases k,
{
    if k == 0 {
        memory
    } else {
        let prev = copy_cells(memory, from, to, (k - 1) as nat);
        prev.update(to + k - 1, prev[from + k - 1])
    }
}

/// Copying cells keeps the number of cells.
pub proof fn lemma_copy_len(memory: Seq<Value>, from: int, to: int, k: nat)
    requires
        0 <= from,
        0 <= to,
        from + k <= memory.len(),
        to + k <= memory.len(),
    ensures
        copy_cells(memory, from, to, k).len() == memory.len(),
    decreases k,
{
    if k > 0 {
        lemma_copy_len(memory, from, to, (k - 1) as nat);
    }
}

/// What forwarding a field gives: the heap after it, and the new value of
/// the field where the field changes.
pub struct Forwarded {
    pub heap: HeapView,
    pub field: Option<Value>,
}

/// Forwards a field.
///
/// A pointer into the half that is not in use is forwarded: where its
/// object was not moved yet, the object is moved to the half in use, its
/// size is taken from the old base and given to the new one, and the move is
/// recorded; where it was moved, the record gives the new base. The pointer
/// keeps its displacement. Any other field stays as it is.
pub open spec fn forward(h: HeapView, fld: Value) -> Forwarded {
    match fld {
        Value::Pointer(p) => if !h.in_from_space(p.base) {
            Forwarded { heap: h, field: None }
        } else if h.sizes.contains_key(p.base) {
            let s = h.sizes[p.base];
            let taken = HeapView { sizes: h.sizes.remove(p.base), ..h };
            if taken.can_alloc(s) && p.base + s <= HEAP_SIZE {
                let to = taken.base_ptr;
                let placed = taken.with_object(s);
                Forwarded {
                    heap: HeapView {
                        memory: copy_cells(placed.memory, p.base as int, to as int, s as nat),
                        forwarded: placed.forwarded.insert(p.base, to as i64),
                        ..placed
                    },
                    field: Some(Value::Pointer(Pointer { base: to, offset: p.offset })),
                }
            } else {
                Forwarded { heap: taken, field: None }
            }
        } else if h.forwarded.contains_key(p.base) && 0 <= h.forwarded[p.base] <= HEAP_SIZE {
            Forwarded {
                heap: h,
                field: Some(
                    Value::Pointer(
                        Pointer { base: h.forwarded[p.base] as usize, offset: p.offset },
                    ),
                ),
            }
        } else {
            Forwarded { heap: h, field: None }
        },
        _ => Forwarded { heap: h, field: None },
    }
}

/// Forwarding keeps the invariant of the heap, and which half is in use.
pub proof fn lemma_forward_wf(h: HeapView, fld: Value)
    requires
        h.wf(),
    ensures
        forward(h, fld).heap.wf(),
        forward(h, fld).heap.is_top == h.is_top,
        forward(h, fld).heap.base_ptr >= h.base_ptr,
        forward(h, fld).heap.gc_limit == h.gc_limit,
{
    match fld {
        Value::Pointer(p) => {
            if h.in_from_space(p.base) && h.sizes.contains_key(p.base) {
                let s = h.sizes[p.base];
                let taken = HeapView { sizes: h.sizes.remove(p.base), ..h };
                assert(taken.wf());
                if taken.can_alloc(s) && p.base + s <= HEAP_SIZE {
                    lemma_copy_len(
                        taken.with_object(s).memory,
                        p.base as int,
                        taken.base_ptr as int,
                        s as nat,
                    );
                    let placed = taken.with_object(s);
                    assert forall|b: usize| #[trigger] placed.sizes.contains_key(b) implies 0
                        <= placed.sizes[b] && b + placed.sizes[b] <= HEAP_SIZE by {
                        if b != taken.base_ptr {
                            assert(taken.sizes.contains_key(b));
                        }
                    }
                }
            }
        },
        _ => {},
    }
}

impl Default for Heap {
    fn default() -> (heap: Self)
        ensures
            heap@.wf(),
            heap@.base_ptr == 0,
            heap@.is_top,
            heap@.gc_limit == INITIAL_GC_LIMIT,
            heap@.sizes == no_entries(),
            heap@.forwarded == no_entries(),
            forall|i: int| 0 <= i < HEAP_SIZE ==> heap@.memory[i] == Value::Uninitialized,
    {
        Self {
            memory: blank(HEAP_SIZE),
            size_map: table_new(),
            forwarded: table_new(),
            base_ptr: 0,
            is_top: true,
            gc_limit: INITIAL_GC_LIMIT,
        }
    }
}

impl Heap {
    /// The number of cells allocated in the half in use.
    pub fn allocated_size(&self) -> (n: i64)
        requires
            self@.wf(),
        ensures
            n == self@.allocated(),
    {
        if self.is_top {
            self.base_ptr as i64
        } else {
            (self.base_ptr - HALF) as i64
        }
    }

    /// Whether a collection is due before an allocation of the given size;
    /// if it is, the limit grows.
    pub fn should_run_gc(&mut self, amount: i64) -> (due: bool)
        requires
            old(self)@.wf(),
        ensures
            due == old(self)@.gc_due(amount),
            final(self)@ == if due {
                old(self)@.grown()
            } else {
                old(self)@
            },
    {
        let total: i128 = amount as i128 + self.allocated_size() as i128;
        if total >= self.gc_limit as i128 {
            let grown: i128 = self.gc_limit as i128 * 2;
            self.gc_limit = if grown > 9223372036854775807i128 {
                i64::MAX
            } else if grown < -9223372036854775808i128 {
                i64::MIN
            } else {
                grown as i64
            };
            true
        } else {
            false
        }
    }

    /// Puts the other half in use, with nothing allocated in it.
    pub fn flip(&mut self)
        ensures
            final(self)@ == old(self)@.flipped(),
    {
        if self.is_top {
            self.base_ptr = HALF;
        } else {
            self.base_ptr = 0;
        }
        self.is_top = !self.is_top;
    }

    /// Clears the cells of the half that is not in use.
    pub fn clear(&mut self)
        requires
            old(self)@.wf(),
        ensures
            final(self)@ == old(self)@.cleared(),
    {
        let (start, end) = if self.is_top {
            (HALF, HEAP_SIZE)
        } else {
            (0, HALF)
        };
        let ghost before = self@;
        let mut i: usize = start;
        while i < end
            invariant
                start <= i <= end <= HEAP_SIZE,
                before.memory.len() == HEAP_SIZE,
                before.is_top ==> start == HALF && end == HEAP_SIZE,
                !before.is_top ==> start == 0 && end == HALF,
                self.size_map == old(self).size_map,
                self.forwarded == old(self).forwarded,
                self.base_ptr == before.base_ptr,
                self.is_top == before.is_top,
                self.gc_limit == before.gc_limit,
                self.memory.len() == HEAP_SIZE,
                forall|k: int| 0 <= k < HEAP_SIZE ==> self.memory[k] == if start <= k < i {
                    Value::Uninitialized
                } else {
                    before.memory[k]
                },
            decreases end - i,
        {
            self.memory.set(i, Value::Uninitialized);
            i += 1;
        }
        assert(self@.memory =~= before.cleared().memory);
    }

    /// Allocates an object of the given number of cells.
    pub fn allocate(&mut self, amount: i64) -> (r: Result<Pointer, HeapError>)
        requires
            old(self)@.wf(),
        ensures
            final(self)@.wf(),
            old(self)@.can_alloc(amount) ==> r == Ok::<Pointer, HeapError>(
                Pointer { base: old(self)@.base_ptr, offset: 0 },
            ) && final(self)@ == old(self)@.with_object(amount),
            !old(self)@.can_alloc(amount) ==> r == Err::<Pointer, HeapError>(
                HeapError::CannotAllocSize(amount),
            ) && final(self)@ == old(self)@,
    {
        if amount < 0 || amount > HALF as i64 - self.allocated_size() {
            return Err(HeapError::CannotAllocSize(amount));
        }
        let base = self.base_ptr;
        table_insert(&mut self.size_map, base, amount);
        self.base_ptr += amount as usize;
        proof {
            assert forall|b: usize| #[trigger] self@.sizes.contains_key(b) implies 0
                <= self@.sizes[b] && b + self@.sizes[b] <= HEAP_SIZE by {
                if b != base {
                    assert(old(self)@.sizes.contains_key(b));
                }
            }
        }
        Ok(Pointer { base, offset: 0 })
    }

    /// The cell that the pointer names, if it is within the heap.
    pub open spec fn cell_of(key: Pointer) -> Option<int> {
        if key.offset >= 0 && key.base + key.offset < HEAP_SIZE {
            Some(key.base + key.offset)
        } else {
            None
        }
    }

    /// Writes the cell that the pointer names.
    pub fn write(&mut self, key: &Pointer, val: Value) -> (r: Result<(), HeapError>)
        requires
            old(self)@.wf(),
        ensures
            final(self)@.wf(),
            match Self::cell_of(*key) {
                Some(cell) => r is Ok && final(self)@ == (HeapView {
                    memory: old(self)@.memory.update(cell, val),
                    ..old(self)@
                }),
                None => r == Err::<(), HeapError>(
                    HeapError::InvalidMemoryAccess(key.base, key.offset),
                ) && final(self)@ == old(self)@,
            },
    {
        if key.offset < 0 || key.base >= HEAP_SIZE || key.offset >= (HEAP_SIZE - key.base) as i64 {
            return Err(HeapError::InvalidMemoryAccess(key.base, key.offset));
        }
        let ptr: usize = key.base + key.offset as usize;
        self.memory.set(ptr, val);
        Ok(())
    }

    /// Reads the cell that the pointer names.
    pub fn read(&self, key: &Pointer) -> (r: Result<Value, HeapError>)
        requires
            self@.wf(),
        ensures
            match Self::cell_of(*key) {
                Some(cell) => if self@.memory[cell] == Value::Uninitialized {
                    r == Err::<Value, HeapError>(HeapError::UsingUninitializedMemory)
                } else {
                    r == Ok::<Value, HeapError>(self@.memory[cell])
                },
                None => r == Err::<Value, HeapError>(
                    HeapError::InvalidMemoryAccess(key.base, key.offset),
                ),
            },
    {
        if key.offset < 0 || key.base >= HEAP_SIZE || key.offset >= (HEAP_SIZE - key.base) as i64 {
            return Err(HeapError::InvalidMemoryAccess(key.base, key.offset));
        }
        let ptr: usize = key.base + key.offset as usize;
        match self.memory[ptr] {
            Value::Uninitialized => Err(HeapError::UsingUninitializedMemory),
            val => Ok(val),
        }
    }

    /// Forwards a field during a collection. Returns the new value of the
    /// field where the field changes.
    pub fn process_field(&mut self, fld: &Value) -> (r: Option<Value>)
        requires
            old(self)@.wf(),
        ensures
            final(self)@ == forward(old(self)@, *fld).heap,
            r == forward(old(self)@, *fld).field,
            final(self)@.wf(),
    {
        proof {
            lemma_forward_wf(self@, *fld);
        }
        if let Value::Pointer(from_ref) = fld {
            let in_from_space = if self.is_top {
                from_ref.base >= HALF
            } else {
                from_ref.base < HALF
            };
            if !in_from_space {
                return None;
            }
            let size = table_remove(&mut self.size_map, from_ref.base);
            if let Some(s) = size {
                assert(old(self)@.sizes.contains_key(from_ref.base));
                if s as i128 > HALF as i128 - self.allocated_size() as i128 || from_ref.base as i128
                    + s as i128 > HEAP_SIZE as i128 {
                    return None;
                }
                let to_base = self.base_ptr;
                table_insert(&mut self.size_map, to_base, s);
                self.base_ptr += s as usize;
                let ghost placed = self@;
                let mut i: usize = 0;
                while i < s as usize
                    invariant
                        i <= s,
                        0 <= s,
                        from_ref.base + s <= HEAP_SIZE,
                        to_base + s <= HEAP_SIZE,
                        self.memory.len() == HEAP_SIZE,
                        placed.memory.len() == HEAP_SIZE,
                        self.memory@ == copy_cells(
                            placed.memory,
                            from_ref.base as int,
                            to_base as int,
                            i as nat,
                        ),
                        entries_of(self.size_map) == placed.sizes,
                        entries_of(self.forwarded) == placed.forwarded,
                        self.base_ptr == placed.base_ptr,
                        self.is_top == placed.is_top,
                        self.gc_limit == placed.gc_limit,
                    decreases s - i,
                {
                    let from = self.memory[i + from_ref.base];
                    self.memory.set(i + to_base, from);
                    i += 1;
                }
                table_insert(&mut self.forwarded, from_ref.base, to_base as i64);
                return Some(Value::Pointer(Pointer { base: to_base, offset: from_ref.offset }));
            }
            assert(self@ =~= old(self)@) by {
                assert(self@.sizes =~= old(self)@.sizes);
            }
            let moved = table_get(&self.forwarded, from_ref.base);
            if let Some(to) = moved {
                if 0 <= to && to <= HEAP_SIZE as i64 {
                    return Some(
                        Value::Pointer(Pointer { base: to as usize, offset: from_ref.offset }),
                    );
                }
            }
            assert(self@ =~= old(self)@) by {
                assert(self@.sizes =~= old(self)@.sizes);
            }
        }
        None
    }
}


/// The variables of every scope of an environment.
pub open spec fn scopes_of(env: Environment) -> Seq<Seq<Value>> {
    env.env@.map_values(|s: Scope| s.vars@)
}

/// The heap and the variables of a scope after some of the variables were
/// forwarded.
pub struct VarsDone {
    pub heap: HeapView,
    pub vars: Seq<Value>,
}

/// The heap and the scopes after some of the scopes were forwarded.
pub struct ScopesDone {
    pub heap: HeapView,
    pub scopes: Seq<Seq<Value>>,
}

/// The heap and the variables of a scope after the first `k` variables were
/// forwarded, in order.
pub open spec fn forward_vars(h: HeapView, vars: Seq<Value>, k: nat) -> VarsDone
    decreases k,
{
    if k == 0 {
        VarsDone { heap: h, vars }
    } else {
        let prev = forward_vars(h, vars, (k - 1) as nat);
        let f = forward(prev.heap, prev.vars[k - 1]);
        VarsDone {
            heap: f.heap,
            vars: match f.field {
                Some(v) => prev.vars.update(k - 1, v),
                None => prev.vars,
            },
        }
    }
}

/// The heap and the scopes after the variables of the first `k` scopes were
/// forwarded, in order.
pub open spec fn forward_scopes(h: HeapView, scopes: Seq<Seq<Value>>, k: nat) -> ScopesDone
    decreases k,
{
    if k == 0 {
        ScopesDone { heap: h, scopes }
    } else {
        let prev = forward_scopes(h, scopes, (k - 1) as nat);
        let r = forward_vars(prev.heap, prev.scopes[k - 1], prev.scopes[k - 1].len());
        ScopesDone { heap: r.heap, scopes: prev.scopes.update(k - 1, r.vars) }
    }
}

/// The heap after the cells of the half in use were forwarded from the
/// given address up to the place of the next object, which moves as objects
/// are moved in.
pub open spec fn scan_cells(h: HeapView, scan: int) -> HeapView
    decreases HEAP_SIZE - scan,
{
    if scan < 0 || scan >= h.base_ptr || scan >= h.memory.len() || scan >= HEAP_SIZE {
        h
    } else {
        let f = forward(h, h.memory[scan]);
        let next = match f.field {
            Some(v) => HeapView { memory: f.heap.memory.update(scan, v), ..f.heap },
            None => f.heap,
        };
        scan_cells(next, scan + 1)
    }
}

/// The heap and the scopes after a collection.
pub struct Collected {
    pub heap: HeapView,
    pub scopes: Seq<Seq<Value>>,
}

/// A collection: the other half comes into use; every variable of every
/// scope is forwarded; the cells of the half in use are forwarded in turn;
/// and the half that went out of use is cleared.
pub open spec fn collected(h: HeapView, scopes: Seq<Seq<Value>>) -> Collected {
    let start = HeapView { forwarded: Map::empty(), ..h.flipped() };
    let roots = forward_scopes(start, scopes, scopes.len());
    let scanned = scan_cells(roots.heap, start.base_ptr as int);
    Collected { heap: scanned.cleared(), scopes: roots.scopes }
}

/// Forwarding the variables of a scope keeps the invariant of the heap and
/// the number of variables.
pub proof fn lemma_forward_vars(h: HeapView, vars: Seq<Value>, k: nat)
    requires
        h.wf(),
        k <= vars.len(),
    ensures
        forward_vars(h, vars, k).heap.wf(),
        forward_vars(h, vars, k).heap.is_top == h.is_top,
        forward_vars(h, vars, k).vars.len() == vars.len(),
    decreases k,
{
    if k > 0 {
        lemma_forward_vars(h, vars, (k - 1) as nat);
        let prev = forward_vars(h, vars, (k - 1) as nat);
        lemma_forward_wf(prev.heap, prev.vars[k - 1]);
    }
}

impl Heap {
    /// Collects: moves every object that a variable of the environment
    /// reaches into the other half of the heap, redirects the pointers, and
    /// clears the half that went out of use.
    pub fn gc(&mut self, value_store: &mut Environment)
        requires
            old(self)@.wf(),
        ensures
            final(self)@.wf(),
            final(self)@ == collected(old(self)@, scopes_of(*old(value_store))).heap,
            scopes_of(*final(value_store)) == collected(
                old(self)@,
                scopes_of(*old(value_store)),
            ).scopes,
    {
        let ghost h0 = self@;
        let ghost s0 = scopes_of(*value_store);
        self.flip();
        self.forwarded = table_new();
        let ghost start = self@;
        assert(start == (HeapView { forwarded: Map::empty(), ..h0.flipped() }));
        let scan_from = self.base_ptr;
        let n = value_store.env.len();
        assert(s0.len() == n);
        let mut a: usize = 0;
        while a < n
            invariant
                a <= n,
                n == value_store.env.len(),
                start.wf(),
                s0.len() == n,
                self@.wf(),
                self@.is_top == start.is_top,
                self@ == forward_scopes(start, s0, a as nat).heap,
                scopes_of(*value_store) == forward_scopes(start, s0, a as nat).scopes,
            decreases n - a,
        {
            let ghost before = self@;
            let ghost scopes_before = scopes_of(*value_store);
            let ghost vars0 = scopes_before[a as int];
            let m = value_store.env[a].vars.len();
            assert(vars0 == value_store.env[a as int].vars@);
            let mut i: usize = 0;
            while i < m
                invariant
                    i <= m,
                    a < n,
                    n == value_store.env.len(),
                    m == vars0.len(),
                    scopes_before.len() == n,
                    before.wf(),
                    self@.wf(),
                    self@.is_top == before.is_top,
                    self@ == forward_vars(before, vars0, i as nat).heap,
                    value_store.env[a as int].vars@ == forward_vars(before, vars0, i as nat).vars,
                    scopes_of(*value_store) == scopes_before.update(
                        a as int,
                        value_store.env[a as int].vars@,
                    ),
                decreases m - i,
            {
                proof {
                    lemma_forward_vars(before, vars0, i as nat);
                }
                let root = value_store.env[a].vars[i];
                let ghost env_before = value_store.env@;
                let ghost scopes_mid = scopes_of(*value_store);
                if let Some(ptr) = self.process_field(&root) {
                    value_store.env[a].vars.set(i, ptr);
                    assert(value_store.env@.len() == env_before.len());
                    assert(forall|j: int|
                        0 <= j < n && j != a ==> value_store.env@[j] == env_before[j]);
                    assert(scopes_of(*value_store).len() == n);
                    assert forall|j: int| 0 <= j < n implies scopes_of(*value_store)[j]
                        == scopes_before.update(a as int, value_store.env[a as int].vars@)[j] by {
                        if j != a {
                            assert(scopes_of(*value_store)[j] == value_store.env@[j].vars@);
                            assert(scopes_mid[j] == env_before[j].vars@);
                            assert(scopes_mid[j] == scopes_before[j]);
                        }
                    }
                    assert(scopes_of(*value_store) =~= scopes_before.update(
                        a as int,
                        value_store.env[a as int].vars@,
                    ));
                }
                i += 1;
            }
            a += 1;
        }
        let ghost roots = self@;
        let mut scan: usize = scan_from;
        proof {
            if start.is_top {
                assert(scan_from == 0);
            } else {
                assert(scan_from == HALF);
            }
        }
        while scan < self.base_ptr
            invariant
                self@.wf(),
                self@.is_top == start.is_top,
                scan <= HEAP_SIZE,
                scan_cells(self@, scan as int) == scan_cells(roots, scan_from as int),
            decreases HEAP_SIZE - scan,
        {
            let fld = self.memory[scan];
            proof {
                lemma_forward_wf(self@, fld);
            }
            if let Some(ptr) = self.process_field(&fld) {
                self.memory.set(scan, ptr);
            }
            scan += 1;
        }
        assert(self@ == scan_cells(roots, scan_from as int));
        self.clear();
    }
}

} // verus!
