//! Conversion into static single assignment form, by phi placement on the
//! iterated dominance frontier and renaming along the dominator tree, and
//! conversion out of it.
use crate::bits::{copy_row, count_true, filled, lemma_count_below, lemma_count_bound};
use crate::cfg::Cfg;
use crate::df::dest_of;
use crate::dominators::{frontier_table, in_frontier, rows_of, square};
use crate::fresh::{contains_name, decimal, decimal_string, name_set};
use crate::ir::{
    clone_names, clone_type, codes, is_str, names, Code, CodeView, Function, InstrView,
    Instruction, Type,
};
use crate::ordered::{numbered_get_index, numbered_len};
use vstd::prelude::*;
use vstd::string::*;

verus! {

/// A phi node under construction: its destination, the variable it merges,
/// its arguments with the blocks they come from, and its type.
#[derive(Debug)]
pub struct Phi {
    pub dest: String,
    pub orig_dest: String,
    pub vars: Vec<String>,
    pub labels: Vec<i32>,
    pub op_type: Option<Type>,
}

/// The model of a [`Phi`].
pub struct PhiView {
    pub dest: Seq<char>,
    pub orig_dest: Seq<char>,
    pub vars: Seq<Seq<char>>,
    pub labels: Seq<i32>,
    pub op_type: Option<Type>,
}

impl View for Phi {
    type V = PhiView;

    open spec fn view(&self) -> PhiView {
        PhiView {
            dest: self.dest@,
            orig_dest: self.orig_dest@,
            vars: names(self.vars@),
            labels: self.labels@,
            op_type: self.op_type,
        }
    }
}

/// The phi node for a variable, as it is placed: without arguments.
pub open spec fn new_phi(dest: Seq<char>, op_type: Option<Type>) -> PhiView {
    PhiView { dest, orig_dest: dest, vars: Seq::empty(), labels: Seq::empty(), op_type }
}

impl Phi {
    /// A phi node for a variable, without arguments.
    pub fn new(dest: String, op_type: Option<Type>) -> (phi: Self)
        ensures
            phi@ == new_phi(dest@, op_type),
    {
        let phi = Phi {
            dest: dest.clone(),
            orig_dest: dest,
            vars: Vec::new(),
            labels: Vec::new(),
            op_type,
        };
        assert(names(phi.vars@) =~= Seq::<Seq<char>>::empty());
        phi
    }

    /// Whether two phi nodes have the same destination, arguments and
    /// source blocks.
    pub fn same_as(&self, other: &Self) -> (r: bool)
        ensures
            r == (self@.dest == other@.dest && self@.vars == other@.vars && self@.labels
                == other@.labels),
    {
        if !(self.dest == other.dest) || self.vars.len() != other.vars.len() || self.labels.len()
            != other.labels.len() {
            if self.vars.len() != other.vars.len() {
                assert(self@.vars.len() != other@.vars.len());
            }
            if self.labels.len() != other.labels.len() {
                assert(self@.labels.len() != other@.labels.len());
            }
            return false;
        }
        let mut i: usize = 0;
        while i < self.vars.len()
            invariant
                i <= self.vars.len(),
                self.vars.len() == other.vars.len(),
                forall|j: int| 0 <= j < i ==> self.vars[j]@ == other.vars[j]@,
            decreases self.vars.len() - i,
        {
            if !(self.vars[i] == other.vars[i]) {
                assert(self@.vars[i as int] != other@.vars[i as int]);
                return false;
            }
            i += 1;
        }
        assert(self@.vars =~= other@.vars);
        let mut k: usize = 0;
        while k < self.labels.len()
            invariant
                k <= self.labels.len(),
                self.labels.len() == other.labels.len(),
                forall|j: int| 0 <= j < k ==> self.labels[j] == other.labels[j],
            decreases self.labels.len() - k,
        {
            if self.labels[k] != other.labels[k] {
                return false;
            }
            k += 1;
        }
        assert(self@.labels =~= other@.labels);
        true
    }

    /// Copies the phi node.
    pub fn copy(&self) -> (r: Self)
        ensures
            r@ == self@,
    {
        Phi {
            dest: self.dest.clone(),
            orig_dest: self.orig_dest.clone(),
            vars: clone_names(&self.vars),
            labels: crate::cfg::copy_ids(&self.labels),
            op_type: clone_type(&self.op_type),
        }
    }
}

/// The models of a list of phi nodes.
pub open spec fn phi_views(v: Seq<Phi>) -> Seq<PhiView> {
    v.map_values(|p: Phi| p@)
}

/// The models of the phi nodes of every block.
pub open spec fn phi_table(v: Seq<Vec<Phi>>) -> Seq<Seq<PhiView>> {
    v.map_values(|l: Vec<Phi>| phi_views(l@))
}

/// The map that a list of counters stands for; a later entry of a name
/// replaces an earlier one.
pub open spec fn counts(list: Seq<(String, u64)>) -> Map<Seq<char>, u64>
    decreases list.len(),
{
    if list.len() == 0 {
        Map::empty()
    } else {
        counts(list.drop_last()).insert(list.last().0@, list.last().1)
    }
}

/// The number of names made so far for a variable.
pub open spec fn count_of(counters: Map<Seq<char>, u64>, name: Seq<char>) -> u64 {
    if counters.contains_key(name) {
        counters[name]
    } else {
        0
    }
}

/// The name of a variable's definition number `k`: the variable, a dot, and
/// the number.
pub open spec fn versioned(name: Seq<char>, k: u64) -> Seq<char> {
    name + "."@ + decimal(k as nat)
}

/// The names made for definitions tell the variable and the number apart:
/// two of them are the same only for the same variable and the same number.
pub proof fn lemma_versioned_injective(a: Seq<char>, i: u64, b: Seq<char>, j: u64)
    requires
        versioned(a, i) == versioned(b, j),
    ensures
        a == b,
        i == j,
{
    reveal_strlit(".");
    let s = versioned(a, i);
    let t = versioned(b, j);
    let di = decimal(i as nat);
    let dj = decimal(j as nat);
    assert(s.len() == a.len() + 1 + di.len());
    assert(t.len() == b.len() + 1 + dj.len());
    if a.len() < b.len() {
        assert(t[b.len() as int] == '.');
        let k = b.len() - a.len() - 1;
        assert(s[b.len() as int] == di[k]);
        crate::fresh::lemma_decimal_no_dot(i as nat, k);
    }
    if b.len() < a.len() {
        assert(s[a.len() as int] == '.');
        let k = a.len() - b.len() - 1;
        assert(t[a.len() as int] == dj[k]);
        crate::fresh::lemma_decimal_no_dot(j as nat, k);
    }
    assert(a =~= s.subrange(0, a.len() as int));
    assert(b =~= t.subrange(0, b.len() as int));
    assert(di =~= s.subrange(a.len() as int + 1, s.len() as int));
    assert(dj =~= t.subrange(b.len() as int + 1, t.len() as int));
    crate::fresh::lemma_decimal_injective(i as nat, j as nat);
}

/// The counters after one more name was made for a variable. A counter
/// that has reached the greatest number stays there.
pub open spec fn counted(counters: Map<Seq<char>, u64>, name: Seq<char>) -> Map<Seq<char>, u64> {
    counters.insert(
        name,
        if count_of(counters, name) < u64::MAX {
            (count_of(counters, name) + 1) as u64
        } else {
            u64::MAX
        },
    )
}

fn count_lookup(counters: &Vec<(String, u64)>, name: &String) -> (r: (bool, u64))
    ensures
        r.0 == counts(counters@).contains_key(name@),
        r.1 == count_of(counts(counters@), name@),
{
    let mut i: usize = counters.len();
    assert(counters@.take(i as int) =~= counters@);
    while i > 0
        invariant
            i <= counters.len(),
            counts(counters@).contains_key(name@) <==> counts(counters@.take(i as int)).contains_key(
                name@,
            ),
            count_of(counts(counters@), name@) == count_of(
                counts(counters@.take(i as int)),
                name@,
            ),
        decreases i,
    {
        i -= 1;
        assert(counters@.take(i + 1).drop_last() =~= counters@.take(i as int));
        assert(counters@.take(i + 1).last() == counters[i as int]);
        if counters[i].0 == *name {
            return (true, counters[i].1);
        }
    }
    (false, 0)
}

/// Makes the next name for a variable: the variable, a dot, and the number
/// of names made for it before.
pub fn fresh_name(curr_name: &String, counters: &mut Vec<(String, u64)>) -> (new_name: String)
    ensures
        new_name@ == versioned(curr_name@, count_of(counts(old(counters)@), curr_name@)),
        counts(final(counters)@) == counted(counts(old(counters)@), curr_name@),
{
    let (_, i) = count_lookup(counters, curr_name);
    let mut new_name = curr_name.clone();
    new_name.append(".");
    let digits = decimal_string(i as u128);
    new_name.append(digits.as_str());
    let next = if i < u64::MAX {
        i + 1
    } else {
        i
    };
    counters.push((curr_name.clone(), next));
    assert(counters@.drop_last() =~= old(counters)@);
    new_name
}

/// The map that a list of name stacks stands for; a later entry of a
/// variable replaces an earlier one.
pub open spec fn stacks_of(list: Seq<(String, Vec<String>)>) -> Map<Seq<char>, Seq<Seq<char>>>
    decreases list.len(),
{
    if list.len() == 0 {
        Map::empty()
    } else {
        stacks_of(list.drop_last()).insert(list.last().0@, names(list.last().1@))
    }
}

/// The stack of names of a variable; empty where it has none.
pub open spec fn stack_of(stacks: Map<Seq<char>, Seq<Seq<char>>>, name: Seq<char>) -> Seq<
    Seq<char>,
> {
    if stacks.contains_key(name) {
        stacks[name]
    } else {
        Seq::empty()
    }
}

/// The stacks after a name was pushed for a variable.
pub open spec fn pushed(
    stacks: Map<Seq<char>, Seq<Seq<char>>>,
    name: Seq<char>,
    new_name: Seq<char>,
) -> Map<Seq<char>, Seq<Seq<char>>> {
    stacks.insert(name, stack_of(stacks, name).push(new_name))
}

/// The name that a variable currently goes by: the top of its stack, if
/// the stack holds anything.
pub open spec fn top_of(stacks: Map<Seq<char>, Seq<Seq<char>>>, name: Seq<char>) -> Option<
    Seq<char>,
> {
    if stack_of(stacks, name).len() > 0 {
        Some(stack_of(stacks, name).last())
    } else {
        None
    }
}

fn stack_lookup(stacks: &Vec<(String, Vec<String>)>, name: &String) -> (r: Option<usize>)
    ensures
        r is Some <==> stacks_of(stacks@).contains_key(name@),
        r is Some ==> r->0 < stacks.len() && names(stacks[r->0 as int].1@) == stacks_of(stacks@)[name@],
{
    let mut i: usize = stacks.len();
    assert(stacks@.take(i as int) =~= stacks@);
    while i > 0
        invariant
            i <= stacks.len(),
            stacks_of(stacks@).contains_key(name@) <==> stacks_of(stacks@.take(i as int)).contains_key(
                name@,
            ),
            stacks_of(stacks@).contains_key(name@) ==> stacks_of(stacks@)[name@] == stacks_of(
                stacks@.take(i as int),
            )[name@],
        decreases i,
    {
        i -= 1;
        assert(stacks@.take(i + 1).drop_last() =~= stacks@.take(i as int));
        assert(stacks@.take(i + 1).last() == stacks[i as int]);
        if stacks[i].0 == *name {
            return Some(i);
        }
    }
    None
}

/// The current name of a variable, if it has one.
pub fn top_name(stacks: &Vec<(String, Vec<String>)>, name: &String) -> (r: Option<String>)
    ensures
        r is Some <==> top_of(stacks_of(stacks@), name@) is Some,
        r is Some ==> r->0@ == top_of(stacks_of(stacks@), name@)->0,
{
    match stack_lookup(stacks, name) {
        Some(i) => {
            let stack = &stacks[i].1;
            if stack.len() > 0 {
                assert(names(stack@).last() == stack[stack.len() - 1]@);
                Some(stack[stack.len() - 1].clone())
            } else {
                None
            }
        },
        None => None,
    }
}

/// Pushes a new name on the stack of a variable.
pub fn push_name(stacks: &mut Vec<(String, Vec<String>)>, name: &String, new_name: String)
    ensures
        stacks_of(final(stacks)@) == pushed(stacks_of(old(stacks)@), name@, new_name@),
{
    let mut stack = match stack_lookup(stacks, name) {
        Some(i) => clone_names(&stacks[i].1),
        None => {
            let empty: Vec<String> = Vec::new();
            assert(names(empty@) =~= Seq::<Seq<char>>::empty());
            empty
        },
    };
    let ghost before = names(stack@);
    stack.push(new_name);
    assert(names(stack@) =~= before.push(new_name@));
    stacks.push((name.clone(), stack));
    assert(stacks@.drop_last() =~= old(stacks)@);
}

/// Copies the stacks.
pub fn copy_stacks(stacks: &Vec<(String, Vec<String>)>) -> (r: Vec<(String, Vec<String>)>)
    ensures
        stacks_of(r@) == stacks_of(stacks@),
{
    let mut out: Vec<(String, Vec<String>)> = Vec::new();
    let mut i: usize = 0;
    assert(stacks@.take(0) =~= Seq::<(String, Vec<String>)>::empty());
    while i < stacks.len()
        invariant
            i <= stacks.len(),
            stacks_of(out@) == stacks_of(stacks@.take(i as int)),
        decreases stacks.len() - i,
    {
        let ghost before = out@;
        out.push((stacks[i].0.clone(), clone_names(&stacks[i].1)));
        assert(out@.drop_last() =~= before);
        assert(stacks@.take(i + 1).drop_last() =~= stacks@.take(i as int));
        assert(stacks@.take(i + 1).last() == stacks[i as int]);
        i += 1;
    }
    assert(stacks@.take(i as int) =~= stacks@);
    out
}


/// The items of all blocks, in the order of the block map.
pub open spec fn all_items(entries: Seq<(i32, Seq<CodeView>)>) -> Seq<CodeView>
    decreases entries.len(),
{
    if entries.len() == 0 {
        Seq::empty()
    } else {
        all_items(entries.drop_last()) + entries.last().1
    }
}

/// The variables that the items define, in the order in which they are
/// first defined.
pub open spec fn def_order(items: Seq<CodeView>) -> Seq<Seq<char>>
    decreases items.len(),
{
    if items.len() == 0 {
        Seq::empty()
    } else {
        let prev = def_order(items.drop_last());
        match dest_of(items.last()) {
            Some(d) => if prev.contains(d) {
                prev
            } else {
                prev.push(d)
            },
            None => prev,
        }
    }
}

/// The type that an item gives to its destination.
pub open spec fn type_of(c: CodeView) -> Option<Type> {
    match c {
        CodeView::Instruction(InstrView::Constant { const_type, .. }) => const_type,
        CodeView::Instruction(InstrView::Value { op_type, .. }) => op_type,
        _ => None,
    }
}

/// The type that the first definition of a variable gives it.
pub open spec fn def_type(items: Seq<CodeView>, v: Seq<char>) -> Option<Type>
    decreases items.len(),
{
    if items.len() == 0 {
        None
    } else if exists|i: int| 0 <= i < items.len() - 1 && dest_of(#[trigger] items[i]) == Some(v) {
        def_type(items.drop_last(), v)
    } else if dest_of(items.last()) == Some(v) {
        type_of(items.last())
    } else {
        None
    }
}

/// A variable with the type of its first definition and, for every block
/// number, whether the block defines it.
#[derive(Debug)]
pub struct VarDefs {
    pub name: String,
    pub op_type: Option<Type>,
    pub blocks: Vec<bool>,
}

fn gather_items(cfg: &Cfg) -> (items: Vec<Code>)
    ensures
        codes(items@) == all_items(cfg.entries()),
{
    let n = numbered_len(&cfg.block_map);
    let mut items: Vec<Code> = Vec::new();
    let ghost entries = cfg.entries();
    let mut p: usize = 0;
    assert(codes(items@) =~= all_items(entries.take(0)));
    while p < n
        invariant
            p <= n,
            n == entries.len(),
            entries == cfg.entries(),
            codes(items@) == all_items(entries.take(p as int)),
        decreases n - p,
    {
        let (_, block) = numbered_get_index(&cfg.block_map, p);
        let ghost base = codes(items@);
        let mut j: usize = 0;
        while j < block.instrs.len()
            invariant
                j <= block.instrs.len(),
                codes(items@) == base + block@.take(j as int),
            decreases block.instrs.len() - j,
        {
            let ghost cur = codes(items@);
            items.push(block.instrs[j].clone());
            assert(codes(items@) =~= cur.push(block@[j as int]));
            assert(block@.take(j + 1) =~= block@.take(j as int).push(block@[j as int]));
            j += 1;
        }
        proof {
            assert(block@.take(j as int) =~= block@);
            assert(entries.take(p + 1).drop_last() =~= entries.take(p as int));
            assert(entries.take(p + 1).last() == entries[p as int]);
        }
        p += 1;
    }
    assert(entries.take(n as int) =~= entries);
    items
}

fn defined_names(items: &Vec<Code>) -> (order: Vec<(String, Option<Type>)>)
    ensures
        order.len() == def_order(codes(items@)).len(),
        forall|j: int|
            0 <= j < order.len() ==> (#[trigger] order[j]).0@ == def_order(codes(items@))[j]
                && order[j].1 == def_type(codes(items@), order[j].0@),
{
    let mut order: Vec<(String, Option<Type>)> = Vec::new();
    let mut seen: Vec<String> = Vec::new();
    let ghost all = codes(items@);
    let mut i: usize = 0;
    assert(all.take(0) =~= Seq::<CodeView>::empty());
    while i < items.len()
        invariant
            i <= items.len(),
            all == codes(items@),
            names(seen@) == def_order(all.take(i as int)),
            order.len() == seen.len(),
            forall|x: Seq<char>|
                names(seen@).contains(x) <==> exists|k: int|
                    0 <= k < i && dest_of(#[trigger] all[k]) == Some(x),
            forall|j: int|
                0 <= j < order.len() ==> (#[trigger] order[j]).0@ == seen[j]@ && order[j].1
                    == def_type(all.take(i as int), seen[j]@),
        decreases items.len() - i,
    {
        let ghost cur = all.take(i as int);
        let ghost next = all.take(i + 1);
        let ghost item = all[i as int];
        let ghost seen_before = names(seen@);
        let ghost order_before = order@;
        proof {
            assert(next.drop_last() =~= cur);
            assert(next.last() == item);
            assert(item == items[i as int]@);
            crate::cfg::lemma_name_set_members(seen@);
        }
        if let Code::Instruction(instr) = &items[i] {
            match instr {
                Instruction::Constant { dest, const_type: op_type, .. }
                | Instruction::Value { dest, op_type, .. } => {
                    if !contains_name(&seen, dest) {
                        seen.push(dest.clone());
                        order.push((dest.clone(), clone_type(op_type)));
                        assert(names(seen@) =~= seen_before.push(dest@));
                    }
                },
                Instruction::Effect { .. } => {},
            }
        }
        proof {
            assert forall|x: Seq<char>|
                names(seen@).contains(x) <==> exists|k: int|
                    0 <= k < i + 1 && dest_of(#[trigger] all[k]) == Some(x) by {
                if names(seen@).contains(x) {
                    let j = choose|j: int| 0 <= j < names(seen@).len() && names(seen@)[j] == x;
                    if j < seen_before.len() {
                        assert(seen_before[j] == x);
                        assert(seen_before.contains(x));
                        let k = choose|k: int| 0 <= k < i && dest_of(#[trigger] all[k]) == Some(x);
                        assert(0 <= k < i + 1 && dest_of(all[k]) == Some(x));
                    } else {
                        assert(dest_of(all[i as int]) == Some(x));
                    }
                }
                if exists|k: int| 0 <= k < i + 1 && dest_of(#[trigger] all[k]) == Some(x) {
                    let k = choose|k: int| 0 <= k < i + 1 && dest_of(#[trigger] all[k]) == Some(x);
                    if k < i {
                        assert(seen_before.contains(x));
                        let j = choose|j: int| 0 <= j < seen_before.len() && seen_before[j] == x;
                        assert(names(seen@)[j] == x);
                    } else {
                        if seen_before.contains(x) {
                            let j = choose|j: int| 0 <= j < seen_before.len() && seen_before[j] == x;
                            assert(names(seen@)[j] == x);
                        } else {
                            assert(names(seen@)[seen_before.len() as int] == x);
                        }
                    }
                }
            }
            assert forall|j: int| 0 <= j < order.len() implies (#[trigger] order[j]).0@ == seen[j]@
                && order[j].1 == def_type(next, seen[j]@) by {
                let x = seen[j]@;
                if j < order_before.len() {
                    assert(order[j] == order_before[j]);
                    assert(seen_before[j] == x);
                    assert(seen_before.contains(x));
                    let k = choose|k: int| 0 <= k < i && dest_of(#[trigger] all[k]) == Some(x);
                    assert(next[k] == all[k]);
                    assert(0 <= k < next.len() - 1 && dest_of(next[k]) == Some(x));
                } else {
                    assert(!seen_before.contains(x));
                    assert forall|k: int| 0 <= k < next.len() - 1 implies dest_of(
                        #[trigger] next[k],
                    ) != Some(x) by {
                        assert(next[k] == all[k]);
                    }
                }
            }
        }
        i += 1;
    }
    assert(all.take(i as int) =~= all);
    proof {
        assert forall|j: int| 0 <= j < order.len() implies (#[trigger] order[j]).0@ == def_order(
            all,
        )[j] by {
            assert(names(seen@)[j] == seen[j]@);
        }
    }
    order
}

/// Whether the block with the given number defines the variable.
pub open spec fn defines(cfg: Cfg, b: i32, v: Seq<char>) -> bool {
    crate::df::defs(cfg.body(b)).contains(v)
}

/// The variables that the blocks define, in the order of their first
/// definition, each with the type of that definition and the blocks that
/// define it.
pub fn get_def_blocks(cfg: &Cfg) -> (vars: Vec<VarDefs>)
    requires
        cfg.wf(),
    ensures
        vars.len() == def_order(all_items(cfg.entries())).len(),
        forall|j: int|
            0 <= j < vars.len() ==> {
                &&& (#[trigger] vars[j]).name@ == def_order(all_items(cfg.entries()))[j]
                &&& vars[j].op_type == def_type(all_items(cfg.entries()), vars[j].name@)
                &&& vars[j].blocks.len() == cfg.size()
                &&& forall|b: i32|
                    cfg.is_block(b) ==> (#[trigger] vars[j].blocks[b as int] <==> defines(
                        *cfg,
                        b,
                        vars[j].name@,
                    ))
            },
{
    let n = numbered_len(&cfg.block_map);
    let items = gather_items(cfg);
    let order = defined_names(&items);
    let ghost wanted = def_order(all_items(cfg.entries()));
    let ghost all = all_items(cfg.entries());
    let mut vars: Vec<VarDefs> = Vec::new();
    let mut j: usize = 0;
    while j < order.len()
        invariant
            j <= order.len(),
            n == cfg.size(),
            cfg.wf(),
            wanted == def_order(all_items(cfg.entries())),
            all == all_items(cfg.entries()),
            order.len() == wanted.len(),
            forall|k: int|
                0 <= k < order.len() ==> (#[trigger] order[k]).0@ == wanted[k] && order[k].1
                    == def_type(all, order[k].0@),
            vars.len() == j,
            forall|k: int|
                0 <= k < j ==> {
                    &&& (#[trigger] vars[k]).name@ == wanted[k]
                    &&& vars[k].op_type == def_type(all, vars[k].name@)
                    &&& vars[k].blocks.len() == n
                    &&& forall|b: i32|
                        cfg.is_block(b) ==> (#[trigger] vars[k].blocks[b as int] <==> defines(
                            *cfg,
                            b,
                            vars[k].name@,
                        ))
                },
        decreases order.len() - j,
    {
        let name = order[j].0.clone();
        let mut blocks = filled(n, false);
        let mut p: usize = 0;
        while p < n
            invariant
                p <= n,
                n == cfg.size(),
                cfg.wf(),
                blocks.len() == n,
                forall|q: int|
                    0 <= q < p ==> (blocks[(#[trigger] cfg.entries()[q]).0 as int] <==> crate::df::defs(
                        cfg.entries()[q].1,
                    ).contains(name@)),
                forall|q: int| p <= q < n ==> !blocks[(#[trigger] cfg.entries()[q]).0 as int],
            decreases n - p,
        {
            let (num, block) = numbered_get_index(&cfg.block_map, p);
            assert(cfg.is_block(cfg.entries()[p as int].0));
            let defined = crate::df::get_def_vars(block);
            let ghost before = blocks@;
            if contains_name(&defined, &name) {
                blocks.set(num as usize, true);
            }
            proof {
                assert forall|q: int| 0 <= q < n && q != p implies blocks[(
                #[trigger] cfg.entries()[q]).0 as int] == before[cfg.entries()[q].0 as int] by {
                    assert(cfg.entries()[q].0 != cfg.entries()[p as int].0);
                    assert(cfg.is_block(cfg.entries()[q].0));
                }
            }
            p += 1;
        }
        proof {
            assert forall|b: i32| cfg.is_block(b) implies (#[trigger] blocks[b as int] <==> defines(
                *cfg,
                b,
                name@,
            )) by {
                crate::cfg::lemma_succs_resolve(*cfg, b);
                let q = cfg.place(b);
                assert(cfg.entries()[q].0 == b);
            }
        }
        vars.push(VarDefs { name, op_type: clone_type(&order[j].1), blocks });
        j += 1;
    }
    vars
}

/// Whether the blocks form a path along the frontier relation of the table
/// that starts at a flagged block and has at least one step.
pub open spec fn is_df_path(rows: Seq<Seq<bool>>, has_def: Seq<bool>, path: Seq<int>) -> bool {
    &&& path.len() >= 2
    &&& forall|i: int| 0 <= i < path.len() ==> 0 <= #[trigger] path[i] < rows.len()
    &&& has_def[path[0]]
    &&& forall|i: int| 0 <= i < path.len() - 1 ==> rows[#[trigger] path[i]][path[i + 1]]
}

/// Whether the block is on the iterated frontier of the flagged blocks: it
/// is in the frontier of a flagged block, or of a block that is itself on
/// the iterated frontier.
pub open spec fn on_iterated_frontier(rows: Seq<Seq<bool>>, has_def: Seq<bool>, b: int) -> bool {
    exists|path: Seq<int>| is_df_path(rows, has_def, path) && path.last() == b
}

/// On a set of blocks that holds the frontier of every flagged block and of
/// every block of its own, every block of a frontier path after the first
/// is in the set.
pub proof fn lemma_closed_placed(
    rows: Seq<Seq<bool>>,
    has_def: Seq<bool>,
    placed: Seq<bool>,
    path: Seq<int>,
    i: int,
)
    requires
        is_df_path(rows, has_def, path),
        1 <= i < path.len(),
        forall|a: int, b: int|
            0 <= a < rows.len() && 0 <= b < rows.len() && (has_def[a] || placed[a]) && rows[a][b]
                ==> placed[b],
    ensures
        placed[path[i]],
    decreases i,
{
    if i > 1 {
        lemma_closed_placed(rows, has_def, placed, path, i - 1);
    }
    assert(rows[path[i - 1]][path[i - 1 + 1]]);
    assert(0 <= path[i - 1] < rows.len());
    assert(0 <= path[i] < rows.len());
}

/// The iterated frontier of the flagged blocks.
pub fn iterated_frontier(rows: &Vec<Vec<bool>>, has_def: &Vec<bool>) -> (placed: Vec<bool>)
    requires
        square(rows_of(rows@), has_def.len() as nat),
    ensures
        placed.len() == has_def.len(),
        forall|b: int|
            0 <= b < placed.len() ==> placed[b] == on_iterated_frontier(
                rows_of(rows@),
                has_def@,
                b,
            ),
{
    let n = has_def.len();
    let ghost table = rows_of(rows@);
    let mut placed = filled(n, false);
    let mut changed = true;
    proof {
        lemma_count_bound(placed@);
    }
    while changed
        invariant
            n == has_def.len(),
            table == rows_of(rows@),
            square(table, n as nat),
            placed.len() == n,
            forall|b: int| 0 <= b < n && placed[b] ==> on_iterated_frontier(table, has_def@, b),
            !changed ==> forall|a: int, b: int|
                0 <= a < n && 0 <= b < n && (has_def[a] || placed[a]) && table[a][b] ==> placed[b],
            count_true(placed@) <= n,
        decreases
                n - count_true(placed@) + if changed {
                    1nat
                } else {
                    0nat
                },
    {
        changed = false;
        let ghost start = placed@;
        let mut a: usize = 0;
        while a < n
            invariant
                a <= n,
                n == has_def.len(),
                table == rows_of(rows@),
                square(table, n as nat),
                placed.len() == n,
                start.len() == n,
                forall|b: int| 0 <= b < n && placed[b] ==> on_iterated_frontier(table, has_def@, b),
                crate::bits::below(start, placed@),
                changed == (placed@ != start),
                !changed ==> forall|x: int, b: int|
                    0 <= x < a && 0 <= b < n && (has_def[x] || start[x]) && table[x][b] ==> start[b],
            decreases n - a,
        {
            if has_def[a] || placed[a] {
                let mut b: usize = 0;
                while b < n
                    invariant
                        b <= n,
                        a < n,
                        n == has_def.len(),
                        table == rows_of(rows@),
                        square(table, n as nat),
                        placed.len() == n,
                        start.len() == n,
                        has_def[a as int] || placed[a as int],
                        forall|y: int|
                            0 <= y < n && placed[y] ==> on_iterated_frontier(table, has_def@, y),
                        crate::bits::below(start, placed@),
                        changed == (placed@ != start),
                        !changed ==> forall|y: int| 0 <= y < b && table[a as int][y] ==> start[y],
                        !changed ==> forall|x: int, y: int|
                            0 <= x < a && 0 <= y < n && (has_def[x] || start[x]) && table[x][y]
                                ==> start[y],
                    decreases n - b,
                {
                    assert(table[a as int] == rows[a as int]@);
                    if rows[a][b] && !placed[b] {
                        proof {
                            if has_def[a as int] {
                                let path = seq![a as int, b as int];
                                assert(is_df_path(table, has_def@, path));
                                assert(path.last() == b);
                            } else {
                                let prior = choose|path: Seq<int>|
                                    is_df_path(table, has_def@, path) && path.last() == a;
                                let path = prior.push(b as int);
                                assert forall|i: int| 0 <= i < path.len() - 1 implies table[
                                #[trigger] path[i]][path[i + 1]] by {
                                    if i < prior.len() - 1 {
                                        assert(path[i] == prior[i]);
                                        assert(path[i + 1] == prior[i + 1]);
                                    }
                                }
                                assert(is_df_path(table, has_def@, path));
                                assert(path.last() == b);
                            }
                        }
                        placed.set(b, true);
                        changed = true;
                        assert(placed@ != start) by {
                            assert(placed[b as int] != start[b as int]);
                        }
                    }
                    b += 1;
                }
            }
            a += 1;
        }
        proof {
            lemma_count_below(start, placed@);
            lemma_count_bound(placed@);
        }
    }
    proof {
        assert forall|b: int| 0 <= b < placed.len() implies placed[b] == on_iterated_frontier(
            table,
            has_def@,
            b,
        ) by {
            if on_iterated_frontier(table, has_def@, b) {
                let path = choose|path: Seq<int>| is_df_path(table, has_def@, path) && path.last() == b;
                lemma_closed_placed(table, has_def@, placed@, path, path.len() - 1);
            }
        }
    }
    placed
}


/// The frontier relation of the graph as a table: the flag `b` of row `a`
/// says whether `b` is in the dominance frontier of `a`.
pub open spec fn frontier_rows(cfg: Cfg) -> Seq<Seq<bool>> {
    Seq::new(
        cfg.size(),
        |a: int| Seq::new(cfg.size(), |b: int| in_frontier(cfg, a as i32, b as i32)),
    )
}

/// For every block number, whether the block counts as a definition of the
/// variable: it defines it, or it is the entry block and the variable is a
/// parameter.
pub open spec fn var_flags(cfg: Cfg, params: Set<Seq<char>>, v: Seq<char>) -> Seq<bool> {
    Seq::new(
        cfg.size(),
        |b: int| defines(cfg, b as i32, v) || (b == cfg.entry() && params.contains(v)),
    )
}

/// The phi nodes placed at a block for the first `j` variables, in the
/// order of the variables: one for each variable on whose iterated dominance
/// frontier the block lies.
pub open spec fn phi_list(cfg: Cfg, params: Set<Seq<char>>, j: nat, b: int) -> Seq<PhiView>
    decreases j,
{
    if j == 0 {
        Seq::empty()
    } else {
        let prev = phi_list(cfg, params, (j - 1) as nat, b);
        let items = all_items(cfg.entries());
        let v = def_order(items)[j - 1];
        if on_iterated_frontier(frontier_rows(cfg), var_flags(cfg, params, v), b) {
            prev.push(new_phi(v, def_type(items, v)))
        } else {
            prev
        }
    }
}

/// The phi nodes placed at every block.
pub open spec fn placed_phis(cfg: Cfg, params: Set<Seq<char>>) -> Seq<Seq<PhiView>> {
    Seq::new(
        cfg.size(),
        |b: int| phi_list(cfg, params, def_order(all_items(cfg.entries())).len(), b),
    )
}

/// Places the phi nodes: for every variable, one at each block of the
/// iterated dominance frontier of its definitions. A parameter counts as
/// defined in the entry block.
pub fn get_phi_nodes(cfg: &Cfg, args: &Vec<String>) -> (phis: Vec<Vec<Phi>>)
    requires
        cfg.wf(),
        cfg.clean_entry(),
    ensures
        phi_table(phis@) == placed_phis(*cfg, name_set(args@)),
{
    let n = numbered_len(&cfg.block_map);
    let vars = get_def_blocks(cfg);
    let front = frontier_table(cfg);
    let ghost params = name_set(args@);
    let ghost order = def_order(all_items(cfg.entries()));
    let mut phis: Vec<Vec<Phi>> = Vec::new();
    let mut k: usize = 0;
    while k < n
        invariant
            k <= n,
            phis.len() == k,
            forall|b: int| 0 <= b < k ==> phi_views((#[trigger] phis[b])@) == phi_list(*cfg, params, 0, b),
        decreases n - k,
    {
        let empty: Vec<Phi> = Vec::new();
        assert(phi_views(empty@) =~= Seq::<PhiView>::empty());
        phis.push(empty);
        k += 1;
    }
    proof {
        assert(rows_of(front@) =~= frontier_rows(*cfg)) by {
            assert forall|a: int| 0 <= a < n implies rows_of(front@)[a] =~= frontier_rows(*cfg)[a] by {
                assert(rows_of(front@)[a] == front[a]@);
                assert(rows_of(front@)[a].len() == n);
                assert forall|b: int| 0 <= b < n implies front[a]@[b] == in_frontier(
                    *cfg,
                    a as i32,
                    b as i32,
                ) by {
                    assert(cfg.is_block(a as i32) && cfg.is_block(b as i32));
                    assert(front[a as i32 as int][b as i32 as int] <==> in_frontier(
                        *cfg,
                        a as i32,
                        b as i32,
                    ));
                }
            }
        }
    }
    let mut j: usize = 0;
    while j < vars.len()
        invariant
            j <= vars.len(),
            n == cfg.size(),
            cfg.wf(),
            params == name_set(args@),
            order == def_order(all_items(cfg.entries())),
            vars.len() == order.len(),
            forall|i: int|
                0 <= i < vars.len() ==> {
                    &&& (#[trigger] vars[i]).name@ == order[i]
                    &&& vars[i].op_type == def_type(all_items(cfg.entries()), vars[i].name@)
                    &&& vars[i].blocks.len() == cfg.size()
                    &&& forall|b: i32|
                        cfg.is_block(b) ==> (#[trigger] vars[i].blocks[b as int] <==> defines(
                            *cfg,
                            b,
                            vars[i].name@,
                        ))
                },
            rows_of(front@) == frontier_rows(*cfg),
            square(rows_of(front@), n as nat),
            phis.len() == n,
            forall|b: int|
                0 <= b < n ==> phi_views((#[trigger] phis[b])@) == phi_list(*cfg, params, j as nat, b),
        decreases vars.len() - j,
    {
        let var = &vars[j];
        let mut has_def = copy_row(&var.blocks);
        if n > 0 && contains_name(args, &var.name) {
            let (entry, _) = numbered_get_index(&cfg.block_map, 0);
            assert(cfg.is_block(cfg.entries()[0].0));
            has_def.set(entry as usize, true);
        }
        proof {
            let flags = var_flags(*cfg, params, var.name@);
            assert(has_def@ =~= flags) by {
                assert forall|b: int| 0 <= b < n implies has_def[b] == flags[b] by {
                    assert(cfg.is_block(b as i32));
                    assert(var.blocks[b as i32 as int] <==> defines(*cfg, b as i32, var.name@));
                }
            }
        }
        let placed = iterated_frontier(&front, &has_def);
        let mut b: usize = 0;
        while b < n
            invariant
                b <= n,
                n == cfg.size(),
                placed.len() == n,
                phis.len() == n,
                j < vars.len(),
                var == vars[j as int],
                var.name@ == order[j as int],
                var.op_type == def_type(all_items(cfg.entries()), var.name@),
                order == def_order(all_items(cfg.entries())),
                forall|x: int|
                    0 <= x < n ==> placed[x] == on_iterated_frontier(
                        frontier_rows(*cfg),
                        var_flags(*cfg, params, var.name@),
                        x,
                    ),
                forall|x: int|
                    0 <= x < b ==> phi_views((#[trigger] phis[x])@) == phi_list(
                        *cfg,
                        params,
                        (j + 1) as nat,
                        x,
                    ),
                forall|x: int|
                    b <= x < n ==> phi_views((#[trigger] phis[x])@) == phi_list(
                        *cfg,
                        params,
                        j as nat,
                        x,
                    ),
            decreases n - b,
        {
            if placed[b] {
                let ghost before = phi_views(phis[b as int]@);
                let phi = Phi::new(var.name.clone(), clone_type(&var.op_type));
                phis[b].push(phi);
                assert(phi_views(phis[b as int]@) =~= before.push(phi@));
            }
            b += 1;
        }
        j += 1;
    }
    assert(phi_table(phis@) =~= placed_phis(*cfg, params));
    phis
}

/// What renaming made of a list of phi nodes, with the stacks and counters
/// after it.
pub struct RenamedPhis {
    pub items: Seq<PhiView>,
    pub stacks: Map<Seq<char>, Seq<Seq<char>>>,
    pub counters: Map<Seq<char>, u64>,
}

/// What renaming made of a list of code items, with the stacks and counters
/// after it.
pub struct RenamedItems {
    pub items: Seq<CodeView>,
    pub stacks: Map<Seq<char>, Seq<Seq<char>>>,
    pub counters: Map<Seq<char>, u64>,
}

/// The first `k` phi nodes of a block renamed: each gets the next name of
/// its variable as destination, and the name goes on the variable's stack.
pub open spec fn rename_phis(
    phis: Seq<PhiView>,
    k: nat,
    stacks: Map<Seq<char>, Seq<Seq<char>>>,
    counters: Map<Seq<char>, u64>,
) -> RenamedPhis
    decreases k,
{
    if k == 0 {
        RenamedPhis { items: Seq::empty(), stacks, counters }
    } else {
        let r = rename_phis(phis, (k - 1) as nat, stacks, counters);
        let p = phis[k - 1];
        let name = versioned(p.dest, count_of(r.counters, p.dest));
        RenamedPhis {
            items: r.items.push(PhiView { dest: name, ..p }),
            stacks: pushed(r.stacks, p.dest, name),
            counters: counted(r.counters, p.dest),
        }
    }
}

/// The current names of the arguments; an argument without a current name
/// stays as it is.
pub open spec fn current_names(stacks: Map<Seq<char>, Seq<Seq<char>>>, args: Seq<Seq<char>>) -> Seq<
    Seq<char>,
> {
    args.map_values(
        |a: Seq<char>|
            match top_of(stacks, a) {
                Some(n) => n,
                None => a,
            },
    )
}

/// An instruction with its arguments under their current names and its
/// destination under the given name.
pub open spec fn renamed_instr(
    instr: InstrView,
    stacks: Map<Seq<char>, Seq<Seq<char>>>,
    new_dest: Seq<char>,
) -> InstrView {
    match instr {
        InstrView::Constant { const_type, value, .. } => InstrView::Constant {
            dest: new_dest,
            const_type,
            value,
        },
        InstrView::Value { op, op_type, args, labels, funcs, .. } => InstrView::Value {
            op,
            dest: new_dest,
            op_type,
            args: current_names(stacks, args),
            labels,
            funcs,
        },
        InstrView::Effect { op, args, labels, funcs } => InstrView::Effect {
            op,
            args: current_names(stacks, args),
            labels,
            funcs,
        },
    }
}

/// The first `k` items of a block renamed: the arguments of an instruction
/// go by their current names, and its destination gets the next name of its
/// variable, which goes on the variable's stack.
pub open spec fn rename_items(
    body: Seq<CodeView>,
    k: nat,
    stacks: Map<Seq<char>, Seq<Seq<char>>>,
    counters: Map<Seq<char>, u64>,
) -> RenamedItems
    decreases k,
{
    if k == 0 {
        RenamedItems { items: Seq::empty(), stacks, counters }
    } else {
        let r = rename_items(body, (k - 1) as nat, stacks, counters);
        match body[k - 1] {
            CodeView::Label { .. } => RenamedItems { items: r.items.push(body[k - 1]), ..r },
            CodeView::Instruction(instr) => match instr.dest() {
                Some(d) => {
                    let name = versioned(d, count_of(r.counters, d));
                    RenamedItems {
                        items: r.items.push(
                            CodeView::Instruction(renamed_instr(instr, r.stacks, name)),
                        ),
                        stacks: pushed(r.stacks, d, name),
                        counters: counted(r.counters, d),
                    }
                },
                None => RenamedItems {
                    items: r.items.push(CodeView::Instruction(renamed_instr(instr, r.stacks, d_none()))),
                    ..r
                },
            },
        }
    }
}

/// The destination handed on for an instruction that has none.
pub open spec fn d_none() -> Seq<char> {
    Seq::empty()
}

/// The phi nodes of a successor after a block handed them its names: each
/// gets the current name of its variable, or `__undefined` where the
/// variable has none, together with the number of the block.
pub open spec fn fill_list(
    phis: Seq<PhiView>,
    block: i32,
    stacks: Map<Seq<char>, Seq<Seq<char>>>,
) -> Seq<PhiView> {
    phis.map_values(
        |p: PhiView|
            PhiView {
                vars: p.vars.push(
                    match top_of(stacks, p.orig_dest) {
                        Some(n) => n,
                        None => "__undefined"@,
                    },
                ),
                labels: p.labels.push(block),
                ..p
            },
    )
}

/// The phi nodes of all blocks after a block handed its names to the phi
/// nodes of its first `k` successors.
pub open spec fn fill_phis(
    phis: Seq<Seq<PhiView>>,
    succs: Seq<i32>,
    k: nat,
    block: i32,
    stacks: Map<Seq<char>, Seq<Seq<char>>>,
) -> Seq<Seq<PhiView>>
    decreases k,
{
    if k == 0 {
        phis
    } else {
        let prev = fill_phis(phis, succs, (k - 1) as nat, block, stacks);
        let s = succs[k - 1];
        if 0 <= s < prev.len() {
            prev.update(s as int, fill_list(prev[s as int], block, stacks))
        } else {
            prev
        }
    }
}

fn rename_phi_list(
    phis: &Vec<Phi>,
    stacks: &mut Vec<(String, Vec<String>)>,
    counters: &mut Vec<(String, u64)>,
) -> (out: Vec<Phi>)
    ensures
        ({
            let r = rename_phis(
                phi_views(phis@),
                phis.len() as nat,
                stacks_of(old(stacks)@),
                counts(old(counters)@),
            );
            &&& phi_views(out@) == r.items
            &&& stacks_of(final(stacks)@) == r.stacks
            &&& counts(final(counters)@) == r.counters
        }),
{
    let mut out: Vec<Phi> = Vec::new();
    let ghost all = phi_views(phis@);
    let ghost st0 = stacks_of(stacks@);
    let ghost c0 = counts(counters@);
    let mut k: usize = 0;
    assert(phi_views(out@) =~= Seq::<PhiView>::empty());
    while k < phis.len()
        invariant
            k <= phis.len(),
            all == phi_views(phis@),
            phi_views(out@) == rename_phis(all, k as nat, st0, c0).items,
            stacks_of(stacks@) == rename_phis(all, k as nat, st0, c0).stacks,
            counts(counters@) == rename_phis(all, k as nat, st0, c0).counters,
        decreases phis.len() - k,
    {
        let ghost before = phi_views(out@);
        let phi = &phis[k];
        assert(all[k as int] == phi@);
        let name = fresh_name(&phi.dest, counters);
        push_name(stacks, &phi.dest, name.clone());
        let renamed = Phi {
            dest: name,
            orig_dest: phi.orig_dest.clone(),
            vars: clone_names(&phi.vars),
            labels: crate::cfg::copy_ids(&phi.labels),
            op_type: clone_type(&phi.op_type),
        };
        out.push(renamed);
        assert(phi_views(out@) =~= before.push(renamed@));
        k += 1;
    }
    out
}

fn current(stacks: &Vec<(String, Vec<String>)>, args: &Vec<String>) -> (out: Vec<String>)
    ensures
        names(out@) == current_names(stacks_of(stacks@), names(args@)),
{
    let mut out: Vec<String> = Vec::new();
    let mut i: usize = 0;
    while i < args.len()
        invariant
            i <= args.len(),
            out.len() == i,
            forall|k: int|
                0 <= k < i ==> (#[trigger] out[k])@ == (match top_of(stacks_of(stacks@), args[k]@) {
                    Some(n) => n,
                    None => args[k]@,
                }),
        decreases args.len() - i,
    {
        let name = match top_name(stacks, &args[i]) {
            Some(n) => n,
            None => args[i].clone(),
        };
        out.push(name);
        i += 1;
    }
    assert(names(out@) =~= current_names(stacks_of(stacks@), names(args@)));
    out
}

fn rename_body(
    body: &Vec<Code>,
    stacks: &mut Vec<(String, Vec<String>)>,
    counters: &mut Vec<(String, u64)>,
) -> (out: Vec<Code>)
    ensures
        ({
            let r = rename_items(
                codes(body@),
                body.len() as nat,
                stacks_of(old(stacks)@),
                counts(old(counters)@),
            );
            &&& codes(out@) == r.items
            &&& stacks_of(final(stacks)@) == r.stacks
            &&& counts(final(counters)@) == r.counters
        }),
{
    let mut out: Vec<Code> = Vec::new();
    let ghost all = codes(body@);
    let ghost st0 = stacks_of(stacks@);
    let ghost c0 = counts(counters@);
    let mut k: usize = 0;
    assert(codes(out@) =~= Seq::<CodeView>::empty());
    while k < body.len()
        invariant
            k <= body.len(),
            all == codes(body@),
            codes(out@) == rename_items(all, k as nat, st0, c0).items,
            stacks_of(stacks@) == rename_items(all, k as nat, st0, c0).stacks,
            counts(counters@) == rename_items(all, k as nat, st0, c0).counters,
        decreases body.len() - k,
    {
        let ghost before = codes(out@);
        assert(all[k as int] == body[k as int]@);
        let item = match &body[k] {
            Code::Label { label } => Code::Label { label: label.clone() },
            Code::Instruction(instr) => {
                let renamed = match instr {
                    Instruction::Constant { dest, const_type, value } => {
                        let name = fresh_name(dest, counters);
                        push_name(stacks, dest, name.clone());
                        Instruction::Constant {
                            dest: name,
                            const_type: clone_type(const_type),
                            value: *value,
                        }
                    },
                    Instruction::Value { op, dest, op_type, args, labels, funcs } => {
                        let new_args = current(stacks, args);
                        let name = fresh_name(dest, counters);
                        push_name(stacks, dest, name.clone());
                        Instruction::Value {
                            op: op.clone(),
                            dest: name,
                            op_type: clone_type(op_type),
                            args: new_args,
                            labels: clone_names(labels),
                            funcs: clone_names(funcs),
                        }
                    },
                    Instruction::Effect { op, args, labels, funcs } => {
                        let new_args = current(stacks, args);
                        Instruction::Effect {
                            op: op.clone(),
                            args: new_args,
                            labels: clone_names(labels),
                            funcs: clone_names(funcs),
                        }
                    },
                };
                Code::Instruction(renamed)
            },
        };
        out.push(item);
        assert(codes(out@) =~= before.push(item@));
        k += 1;
    }
    out
}

fn fill(
    phis: &mut Vec<Vec<Phi>>,
    succs: &Vec<i32>,
    block: i32,
    stacks: &Vec<(String, Vec<String>)>,
)
    ensures
        phi_table(final(phis)@) == fill_phis(
            phi_table(old(phis)@),
            succs@,
            succs.len() as nat,
            block,
            stacks_of(stacks@),
        ),
{
    let ghost start = phi_table(phis@);
    let ghost st = stacks_of(stacks@);
    let mut k: usize = 0;
    while k < succs.len()
        invariant
            k <= succs.len(),
            st == stacks_of(stacks@),
            phi_table(phis@) == fill_phis(start, succs@, k as nat, block, st),
        decreases succs.len() - k,
    {
        let s = succs[k];
        let ghost prev = phi_table(phis@);
        assert(prev.len() == phis.len());
        if 0 <= s && (s as usize) < phis.len() {
            let list = &phis[s as usize];
            assert(prev[s as int] == phi_views(list@));
            let mut filled: Vec<Phi> = Vec::new();
            let mut i: usize = 0;
            while i < list.len()
                invariant
                    i <= list.len(),
                    st == stacks_of(stacks@),
                    filled.len() == i,
                    forall|x: int|
                        0 <= x < i ==> (#[trigger] filled[x])@ == fill_list(
                            phi_views(list@),
                            block,
                            st,
                        )[x],
                decreases list.len() - i,
            {
                let p = &list[i];
                assert(phi_views(list@)[i as int] == p@);
                let mut vars = clone_names(&p.vars);
                let ghost vars_before = names(vars@);
                let name = match top_name(stacks, &p.orig_dest) {
                    Some(n) => n,
                    None => String::from_str("__undefined"),
                };
                vars.push(name);
                assert(names(vars@) =~= vars_before.push(name@));
                let mut labels = crate::cfg::copy_ids(&p.labels);
                labels.push(block);
                filled.push(
                    Phi {
                        dest: p.dest.clone(),
                        orig_dest: p.orig_dest.clone(),
                        vars,
                        labels,
                        op_type: clone_type(&p.op_type),
                    },
                );
                i += 1;
            }
            assert(phi_views(filled@) =~= fill_list(phi_views(list@), block, st));
            phis.set(s as usize, filled);
            assert(phi_table(phis@) =~= prev.update(s as int, fill_list(prev[s as int], block, st)));
        }
        k += 1;
    }
}


/// A task of the renaming walk: to rename a block, or to put back the
/// stacks as they were when a block was entered.
pub enum Frame {
    Visit(i32),
    Restore(Vec<(String, Vec<String>)>),
}

/// The model of a [`Frame`].
pub enum FrameView {
    Visit(i32),
    Restore(Map<Seq<char>, Seq<Seq<char>>>),
}

impl View for Frame {
    type V = FrameView;

    open spec fn view(&self) -> FrameView {
        match *self {
            Frame::Visit(b) => FrameView::Visit(b),
            Frame::Restore(stacks) => FrameView::Restore(stacks_of(stacks@)),
        }
    }
}

/// The models of a list of frames.
pub open spec fn frames_of(v: Seq<Frame>) -> Seq<FrameView> {
    v.map_values(|f: Frame| f@)
}

/// The state of the renaming walk: the bodies and the phi nodes of the
/// blocks by block number, the stack of names and the counter of every
/// variable, the blocks renamed so far, and the tasks still to do, the next
/// one last.
pub struct RenameState {
    pub bodies: Seq<Seq<CodeView>>,
    pub phis: Seq<Seq<PhiView>>,
    pub stacks: Map<Seq<char>, Seq<Seq<char>>>,
    pub counters: Map<Seq<char>, u64>,
    pub visited: Seq<bool>,
    pub work: Seq<FrameView>,
}

/// The tasks to visit the children of a block, the first child last.
pub open spec fn child_frames(kids: Seq<i32>) -> Seq<FrameView> {
    Seq::new(kids.len(), |i: int| FrameView::Visit(kids[kids.len() - 1 - i]))
}

/// Whether the next task is to rename a block that was not renamed yet.
pub open spec fn enters(st: RenameState) -> bool {
    st.work.len() > 0 && match st.work.last() {
        FrameView::Visit(b) => 0 <= b < st.visited.len() && b < st.bodies.len() && b
            < st.phis.len() && !st.visited[b as int],
        FrameView::Restore(_) => false,
    }
}

/// The state after the next task.
///
/// To rename a block: its phi nodes get new destinations, its instructions
/// are renamed in order, the phi nodes of its successors get its current
/// names, and then its children in the dominator tree are renamed, after
/// which the stacks are put back as they were on entry.
pub open spec fn rename_step(
    st: RenameState,
    succs: Seq<Seq<i32>>,
    kids: Seq<Seq<i32>>,
) -> RenameState {
    if st.work.len() == 0 {
        st
    } else if enters(st) {
        let b = st.work.last()->Visit_0;
        let rp = rename_phis(st.phis[b as int], st.phis[b as int].len(), st.stacks, st.counters);
        let ri = rename_items(
            st.bodies[b as int],
            st.bodies[b as int].len(),
            rp.stacks,
            rp.counters,
        );
        let targets = if b < succs.len() {
            succs[b as int]
        } else {
            Seq::empty()
        };
        let children = if b < kids.len() {
            kids[b as int]
        } else {
            Seq::empty()
        };
        RenameState {
            bodies: st.bodies.update(b as int, ri.items),
            phis: fill_phis(
                st.phis.update(b as int, rp.items),
                targets,
                targets.len(),
                b,
                ri.stacks,
            ),
            stacks: ri.stacks,
            counters: ri.counters,
            visited: st.visited.update(b as int, true),
            work: st.work.drop_last().push(FrameView::Restore(st.stacks)) + child_frames(children),
        }
    } else {
        match st.work.last() {
            FrameView::Restore(backup) => RenameState {
                stacks: backup,
                work: st.work.drop_last(),
                ..st
            },
            FrameView::Visit(_) => RenameState { work: st.work.drop_last(), ..st },
        }
    }
}

/// The number of blocks not renamed yet.
pub open spec fn unvisited(st: RenameState) -> nat {
    (st.visited.len() - count_true(st.visited)) as nat
}

/// Renaming a block leaves one block less to rename.
pub proof fn lemma_visit_counts(visited: Seq<bool>, b: int)
    requires
        0 <= b < visited.len(),
        !visited[b],
    ensures
        count_true(visited.update(b, true)) <= visited.len(),
        count_true(visited) < count_true(visited.update(b, true)),
{
    lemma_count_below(visited, visited.update(b, true));
    lemma_count_bound(visited.update(b, true));
    assert(visited.update(b, true)[b] != visited[b]);
}

/// The state when no task is left.
pub open spec fn finish(st: RenameState, succs: Seq<Seq<i32>>, kids: Seq<Seq<i32>>) -> RenameState
    decreases unvisited(st), st.work.len(),
{
    if st.work.len() == 0 {
        st
    } else {
        proof {
            if enters(st) {
                lemma_visit_counts(st.visited, st.work.last()->Visit_0 as int);
            }
            lemma_count_bound(st.visited);
        }
        finish(rename_step(st, succs, kids), succs, kids)
    }
}

/// The stacks at the start of the walk: every parameter goes by its own
/// name.
pub open spec fn param_stacks(params: Seq<Seq<char>>) -> Map<Seq<char>, Seq<Seq<char>>>
    decreases params.len(),
{
    if params.len() == 0 {
        Map::empty()
    } else {
        param_stacks(params.drop_last()).insert(params.last(), seq![params.last()])
    }
}

/// The state at the start of the walk from the entry block.
pub open spec fn start_state(
    bodies: Seq<Seq<CodeView>>,
    phis: Seq<Seq<PhiView>>,
    params: Seq<Seq<char>>,
    entry: i32,
) -> RenameState {
    RenameState {
        bodies,
        phis,
        stacks: param_stacks(params),
        counters: Map::empty(),
        visited: Seq::new(bodies.len(), |i: int| false),
        work: seq![FrameView::Visit(entry)],
    }
}

/// Renames the variables of the blocks by a walk of the dominator tree from
/// the entry block, and fills in the arguments of the phi nodes.
///
/// `bodies`, `phis`, `succs` and `kids` give, for every block number, the
/// body of the block, its phi nodes, its successors and its children in the
/// dominator tree.
pub fn rename(
    bodies: &mut Vec<Vec<Code>>,
    phis: &mut Vec<Vec<Phi>>,
    succs: &Vec<Vec<i32>>,
    kids: &Vec<Vec<i32>>,
    args: &Vec<String>,
    entry: i32,
)
    ensures
        ({
            let end = finish(
                start_state(
                    body_table(old(bodies)@),
                    phi_table(old(phis)@),
                    names(args@),
                    entry,
                ),
                crate::cfg::id_lists(succs@),
                crate::cfg::id_lists(kids@),
            );
            &&& body_table(final(bodies)@) == end.bodies
            &&& phi_table(final(phis)@) == end.phis
        }),
{
    let ghost succ_lists = crate::cfg::id_lists(succs@);
    let ghost kid_lists = crate::cfg::id_lists(kids@);
    let ghost init = start_state(body_table(bodies@), phi_table(phis@), names(args@), entry);
    let mut stacks: Vec<(String, Vec<String>)> = Vec::new();
    let mut i: usize = 0;
    assert(names(args@).take(0) =~= Seq::<Seq<char>>::empty());
    while i < args.len()
        invariant
            i <= args.len(),
            stacks_of(stacks@) == param_stacks(names(args@).take(i as int)),
        decreases args.len() - i,
    {
        let mut own: Vec<String> = Vec::new();
        own.push(args[i].clone());
        assert(names(own@) =~= seq![args[i as int]@]);
        let ghost before = stacks@;
        stacks.push((args[i].clone(), own));
        proof {
            assert(stacks@.drop_last() =~= before);
            assert(names(args@).take(i + 1).drop_last() =~= names(args@).take(i as int));
            assert(names(args@).take(i + 1).last() == args[i as int]@);
        }
        i += 1;
    }
    assert(names(args@).take(i as int) =~= names(args@));
    let mut counters: Vec<(String, u64)> = Vec::new();
    let mut visited = filled(bodies.len(), false);
    let mut work: Vec<Frame> = Vec::new();
    work.push(Frame::Visit(entry));
    assert(frames_of(work@) =~= seq![FrameView::Visit(entry)]);
    assert(visited@ =~= Seq::new(bodies.len() as nat, |i: int| false));
    assert(body_table(bodies@).len() == bodies.len());
    let ghost mut cur = init;
    while work.len() > 0
        invariant
            succ_lists == crate::cfg::id_lists(succs@),
            kid_lists == crate::cfg::id_lists(kids@),
            cur.bodies == body_table(bodies@),
            cur.phis == phi_table(phis@),
            cur.stacks == stacks_of(stacks@),
            cur.counters == counts(counters@),
            cur.visited == visited@,
            cur.work == frames_of(work@),
            finish(cur, succ_lists, kid_lists) == finish(init, succ_lists, kid_lists),
        decreases unvisited(cur), work.len(),
    {
        let ghost before = cur;
        let ghost next = rename_step(before, succ_lists, kid_lists);
        proof {
            lemma_count_bound(visited@);
            assert(frames_of(work@).len() == work.len());
            assert(body_table(bodies@).len() == bodies.len());
            assert(phi_table(phis@).len() == phis.len());
        }
        let ghost work_before = frames_of(work@);
        let frame = work.pop().unwrap();
        assert(frames_of(work@) =~= work_before.drop_last());
        assert(frame@ == work_before.last());
        match frame {
            Frame::Restore(backup) => {
                stacks = backup;
            },
            Frame::Visit(b) => {
                if 0 <= b && (b as usize) < visited.len() && (b as usize) < bodies.len() && (
                b as usize) < phis.len() && !visited[b as usize] {
                    assert(enters(before));
                    proof {
                        lemma_visit_counts(visited@, b as int);
                    }
                    let backup = copy_stacks(&stacks);
                    assert(phi_table(phis@)[b as int] == phi_views(phis[b as int]@));
                    assert(body_table(bodies@)[b as int] == codes(bodies[b as int]@));
                    let new_phis = rename_phi_list(&phis[b as usize], &mut stacks, &mut counters);
                    let new_body = rename_body(&bodies[b as usize], &mut stacks, &mut counters);
                    let ghost phis_before = phi_table(phis@);
                    let ghost bodies_before = body_table(bodies@);
                    phis.set(b as usize, new_phis);
                    assert(phi_table(phis@) =~= phis_before.update(b as int, phi_views(new_phis@)));
                    bodies.set(b as usize, new_body);
                    assert(body_table(bodies@) =~= bodies_before.update(b as int, codes(new_body@)));
                    let ghost targets = if b < succ_lists.len() {
                        succ_lists[b as int]
                    } else {
                        Seq::empty()
                    };
                    if (b as usize) < succs.len() {
                        assert(succ_lists[b as int] == succs[b as int]@);
                        fill(phis, &succs[b as usize], b, &stacks);
                    }
                    visited.set(b as usize, true);
                    work.push(Frame::Restore(backup));
                    let ghost base = frames_of(work@);
                    assert(base =~= work_before.drop_last().push(FrameView::Restore(before.stacks)));
                    let ghost children = if b < kid_lists.len() {
                        kid_lists[b as int]
                    } else {
                        Seq::empty()
                    };
                    if (b as usize) < kids.len() {
                        let list = &kids[b as usize];
                        assert(kid_lists[b as int] == list@);
                        let mut c: usize = 0;
                        assert(child_frames(children).take(0) =~= Seq::<FrameView>::empty());
                        while c < list.len()
                            invariant
                                c <= list.len(),
                                children == list@,
                                frames_of(work@) == base + child_frames(children).take(c as int),
                            decreases list.len() - c,
                        {
                            let ghost so_far = frames_of(work@);
                            work.push(Frame::Visit(list[list.len() - 1 - c]));
                            assert(frames_of(work@) =~= so_far.push(
                                FrameView::Visit(list[list.len() - 1 - c]),
                            ));
                            assert(child_frames(children).take(c + 1) =~= child_frames(
                                children,
                            ).take(c as int).push(child_frames(children)[c as int]));
                            c += 1;
                        }
                        assert(child_frames(children).take(c as int) =~= child_frames(children));
                    } else {
                        assert(child_frames(children) =~= Seq::<FrameView>::empty());
                    }
                    assert(frames_of(work@) =~= next.work);
                }
            },
        }
        proof {
            cur = next;
            assert(cur.work =~= frames_of(work@));
        }
    }
}

/// The models of the bodies of the blocks.
pub open spec fn body_table(v: Seq<Vec<Code>>) -> Seq<Seq<CodeView>> {
    v.map_values(|b: Vec<Code>| codes(b@))
}


/// The bodies of the blocks by block number.
pub open spec fn bodies_of(cfg: Cfg) -> Seq<Seq<CodeView>> {
    Seq::new(cfg.size(), |b: int| cfg.body(b as i32))
}

/// The blocks among the first `k` whose immediate dominator is `v`, by
/// ascending number.
pub open spec fn kid_nums(cfg: Cfg, v: i32, k: nat) -> Seq<i32>
    decreases k,
{
    if k == 0 {
        Seq::empty()
    } else {
        let prev = kid_nums(cfg, v, (k - 1) as nat);
        if crate::dominators::is_idom(cfg, (k - 1) as i32, Some(v)) {
            prev.push((k - 1) as i32)
        } else {
            prev
        }
    }
}

/// The children of every block in the dominator tree, by ascending number.
pub open spec fn kid_table(cfg: Cfg) -> Seq<Seq<i32>> {
    Seq::new(cfg.size(), |v: int| kid_nums(cfg, v as i32, cfg.size()))
}

/// The children as block numbers are the children as places in the arena.
pub proof fn lemma_kid_nums(cfg: Cfg, v: i32, k: nat)
    requires
        k <= i32::MAX,
    ensures
        kid_nums(cfg, v, k).len() == crate::dominators::kids_of(cfg, v, k).len(),
        forall|i: int|
            0 <= i < kid_nums(cfg, v, k).len() ==> 0 <= #[trigger] kid_nums(cfg, v, k)[i] < k
                && kid_nums(cfg, v, k)[i] == crate::dominators::kids_of(cfg, v, k)[i],
    decreases k,
{
    if k > 0 {
        lemma_kid_nums(cfg, v, (k - 1) as nat);
    }
}

/// The walk of the whole graph: the state when no task is left, from the
/// start at the entry block with the phi nodes as they were placed.
pub open spec fn renamed(cfg: Cfg, params: Seq<Seq<char>>) -> RenameState {
    finish(
        start_state(bodies_of(cfg), placed_phis(cfg, params.to_set()), params, cfg.entry()),
        cfg.succ_lists(),
        kid_table(cfg),
    )
}

/// Renames the variables of the graph and fills in the arguments of the phi
/// nodes. Returns the renamed bodies of the blocks by block number.
pub fn rename_vars(cfg: &Cfg, args: &Vec<String>, phis: &mut Vec<Vec<Phi>>) -> (bodies: Vec<
    Vec<Code>,
>)
    requires
        cfg.wf(),
        cfg.clean_entry(),
        cfg.size() > 0,
        phi_table(old(phis)@) == placed_phis(*cfg, names(args@).to_set()),
    ensures
        body_table(bodies@) == renamed(*cfg, names(args@)).bodies,
        phi_table(final(phis)@) == renamed(*cfg, names(args@)).phis,
{
    let n = numbered_len(&cfg.block_map);
    let (entry, _) = numbered_get_index(&cfg.block_map, 0);
    let dom_tree = crate::dominators::form_dom_tree(cfg);
    let mut bodies: Vec<Vec<Code>> = Vec::new();
    let mut succs: Vec<Vec<i32>> = Vec::new();
    let mut kids: Vec<Vec<i32>> = Vec::new();
    let mut b: usize = 0;
    while b < n
        invariant
            b <= n,
            n == cfg.size(),
            n <= i32::MAX,
            cfg.wf(),
            crate::dominators::is_dom_tree(*cfg, dom_tree),
            bodies.len() == b,
            succs.len() == b,
            kids.len() == b,
            forall|x: int| 0 <= x < b ==> codes((#[trigger] bodies[x])@) == cfg.body(x as i32),
            forall|x: int| 0 <= x < b ==> (#[trigger] succs[x])@ == cfg.succs(x as i32),
            forall|x: int| 0 <= x < b ==> (#[trigger] kids[x])@ == kid_nums(*cfg, x as i32, n as nat),
        decreases n - b,
    {
        let num = b as i32;
        assert(cfg.is_block(num));
        let body = match crate::df::block_of(cfg, num) {
            Some(block) => crate::ir::clone_codes(&block.instrs),
            None => Vec::new(),
        };
        bodies.push(body);
        succs.push(crate::df::neighbours(cfg, num, true));
        let mut list: Vec<i32> = Vec::new();
        proof {
            lemma_kid_nums(*cfg, num, n as nat);
            assert(dom_tree.has_node(num));
            assert(dom_tree.nodes()[b as int].children@ == crate::dominators::kids_of(
                *cfg,
                b as i32,
                cfg.size(),
            ));
        }
        match dom_tree.get_node(&num) {
            Some(node) => {
                let mut c: usize = 0;
                while c < node.children.len()
                    invariant
                        c <= node.children.len(),
                        n <= i32::MAX,
                        node.children@.len() == kid_nums(*cfg, num, n as nat).len(),
                        forall|i: int|
                            0 <= i < node.children.len() ==> 0 <= #[trigger] kid_nums(
                                *cfg,
                                num,
                                n as nat,
                            )[i] < n && kid_nums(*cfg, num, n as nat)[i] == node.children[i],
                        list@ == kid_nums(*cfg, num, n as nat).take(c as int),
                    decreases node.children.len() - c,
                {
                    assert(0 <= kid_nums(*cfg, num, n as nat)[c as int] < n);
                    list.push(node.children[c] as i32);
                    assert(kid_nums(*cfg, num, n as nat).take(c + 1) =~= kid_nums(
                        *cfg,
                        num,
                        n as nat,
                    ).take(c as int).push(kid_nums(*cfg, num, n as nat)[c as int]));
                    c += 1;
                }
                assert(kid_nums(*cfg, num, n as nat).take(c as int) =~= kid_nums(
                    *cfg,
                    num,
                    n as nat,
                ));
            },
            None => {},
        }
        kids.push(list);
        b += 1;
    }
    proof {
        assert(body_table(bodies@) =~= bodies_of(*cfg));
        assert(crate::cfg::id_lists(succs@) =~= cfg.succ_lists());
        assert(crate::cfg::id_lists(kids@) =~= kid_table(*cfg));
    }
    rename(&mut bodies, phis, &succs, &kids, args, entry);
    bodies
}

/// The label of a block number; empty where the number has none.
pub open spec fn label_name(pairs: Map<i32, Seq<char>>, num: i32) -> Seq<char> {
    if pairs.contains_key(num) {
        pairs[num]
    } else {
        Seq::empty()
    }
}

/// The instruction that a phi node stands for.
pub open spec fn phi_instr(p: PhiView, pairs: Map<i32, Seq<char>>) -> CodeView {
    CodeView::Instruction(
        InstrView::Value {
            op: "phi"@,
            dest: p.dest,
            op_type: p.op_type,
            args: p.vars,
            labels: p.labels.map_values(|l: i32| label_name(pairs, l)),
            funcs: Seq::empty(),
        },
    )
}

/// The instructions of the phi nodes of a block, the last node first.
pub open spec fn phi_instrs(list: Seq<PhiView>, pairs: Map<i32, Seq<char>>) -> Seq<CodeView> {
    Seq::new(list.len(), |i: int| phi_instr(list[list.len() - 1 - i], pairs))
}

/// The bodies with the phi instructions of every block put before its
/// items.
pub open spec fn with_phis(
    bodies: Seq<Seq<CodeView>>,
    phis: Seq<Seq<PhiView>>,
    pairs: Map<i32, Seq<char>>,
) -> Seq<Seq<CodeView>> {
    Seq::new(
        bodies.len(),
        |b: int|
            if b < phis.len() {
                phi_instrs(phis[b], pairs) + bodies[b]
            } else {
                bodies[b]
            },
    )
}

fn make_phi(p: &Phi, cfg: &Cfg) -> (code: Code)
    ensures
        code@ == phi_instr(p@, cfg.labels()),
{
    let mut labels: Vec<String> = Vec::new();
    let mut i: usize = 0;
    while i < p.labels.len()
        invariant
            i <= p.labels.len(),
            labels.len() == i,
            forall|k: int|
                0 <= k < i ==> (#[trigger] labels[k])@ == label_name(cfg.labels(), p.labels[k]),
        decreases p.labels.len() - i,
    {
        let name = match crate::ordered::labels_get_by_left(&cfg.name_map, p.labels[i]) {
            Some(l) => l.clone(),
            None => String::new(),
        };
        labels.push(name);
        i += 1;
    }
    assert(names(labels@) =~= p@.labels.map_values(|l: i32| label_name(cfg.labels(), l)));
    let funcs: Vec<String> = Vec::new();
    assert(names(funcs@) =~= Seq::<Seq<char>>::empty());
    Code::Instruction(
        Instruction::Value {
            op: String::from_str("phi"),
            dest: p.dest.clone(),
            op_type: clone_type(&p.op_type),
            args: clone_names(&p.vars),
            labels,
            funcs,
        },
    )
}

/// Puts the phi instructions of every block before the items of the block,
/// the last phi node of the block first.
pub fn insert_phi_nodes(cfg: &Cfg, bodies: &mut Vec<Vec<Code>>, phi_nodes: &Vec<Vec<Phi>>)
    ensures
        body_table(final(bodies)@) == with_phis(
            body_table(old(bodies)@),
            phi_table(phi_nodes@),
            cfg.labels(),
        ),
{
    let ghost start = body_table(bodies@);
    let ghost table = phi_table(phi_nodes@);
    let ghost pairs = cfg.labels();
    let n = bodies.len();
    assert(start.len() == n);
    let mut b: usize = 0;
    while b < n
        invariant
            b <= n,
            n == bodies.len(),
            start.len() == n,
            table == phi_table(phi_nodes@),
            pairs == cfg.labels(),
            forall|x: int|
                0 <= x < b ==> codes((#[trigger] bodies[x])@) == with_phis(start, table, pairs)[x],
            forall|x: int| b <= x < n ==> codes((#[trigger] bodies[x])@) == start[x],
        decreases n - b,
    {
        if b < phi_nodes.len() {
            let list = &phi_nodes[b];
            assert(table[b as int] == phi_views(list@));
            let mut items: Vec<Code> = Vec::new();
            let mut i: usize = 0;
            while i < list.len()
                invariant
                    i <= list.len(),
                    pairs == cfg.labels(),
                    items.len() == i,
                    forall|k: int|
                        0 <= k < i ==> (#[trigger] items[k])@ == phi_instrs(
                            phi_views(list@),
                            pairs,
                        )[k],
                decreases list.len() - i,
            {
                assert(phi_views(list@)[list.len() - 1 - i] == list[list.len() - 1 - i]@);
                items.push(make_phi(&list[list.len() - 1 - i], cfg));
                i += 1;
            }
            assert(codes(items@) =~= phi_instrs(phi_views(list@), pairs));
            let body = &bodies[b];
            let ghost base = codes(items@);
            let mut j: usize = 0;
            while j < body.len()
                invariant
                    j <= body.len(),
                    codes(items@) == base + codes(body@).take(j as int),
                decreases body.len() - j,
            {
                let ghost cur = codes(items@);
                items.push(body[j].clone());
                assert(codes(items@) =~= cur.push(codes(body@)[j as int]));
                assert(codes(body@).take(j + 1) =~= codes(body@).take(j as int).push(
                    codes(body@)[j as int],
                ));
                j += 1;
            }
            assert(codes(body@).take(j as int) =~= codes(body@));
            bodies.set(b, items);
        }
        b += 1;
    }
    assert(body_table(bodies@) =~= with_phis(start, table, pairs));
}

/// The body that blocks stand for when laid out in the order of the block
/// map: each block's label, then the items that the table gives for its
/// number.
pub open spec fn laid_out(
    entries: Seq<(i32, Seq<CodeView>)>,
    pairs: Map<i32, Seq<char>>,
    bodies: Seq<Seq<CodeView>>,
) -> Seq<CodeView>
    decreases entries.len(),
{
    if entries.len() == 0 {
        Seq::empty()
    } else {
        let num = entries.last().0;
        laid_out(entries.drop_last(), pairs, bodies).push(
            CodeView::Label { label: label_name(pairs, num) },
        ) + if 0 <= num < bodies.len() {
            bodies[num as int]
        } else {
            Seq::empty()
        }
    }
}

/// Lays blocks out as a body, in the order of the block map, with the items
/// that the table gives for each block number.
pub fn lay_out(cfg: &Cfg, bodies: &Vec<Vec<Code>>) -> (instrs: Vec<Code>)
    ensures
        codes(instrs@) == laid_out(cfg.entries(), cfg.labels(), body_table(bodies@)),
{
    let mut instrs: Vec<Code> = Vec::new();
    let n = numbered_len(&cfg.block_map);
    let ghost entries = cfg.entries();
    let ghost pairs = cfg.labels();
    let ghost table = body_table(bodies@);
    assert(table.len() == bodies.len());
    let mut p: usize = 0;
    assert(codes(instrs@) =~= laid_out(entries.take(0), pairs, table));
    while p < n
        invariant
            p <= n,
            n == entries.len(),
            entries == cfg.entries(),
            pairs == cfg.labels(),
            table == body_table(bodies@),
            table.len() == bodies.len(),
            codes(instrs@) == laid_out(entries.take(p as int), pairs, table),
        decreases n - p,
    {
        let (num, _) = numbered_get_index(&cfg.block_map, p);
        let ghost before = codes(instrs@);
        let label = match crate::ordered::labels_get_by_left(&cfg.name_map, num) {
            Some(l) => l.clone(),
            None => String::new(),
        };
        instrs.push(Code::Label { label });
        let ghost labelled = before.push(CodeView::Label { label: label_name(pairs, num) });
        assert(codes(instrs@) =~= labelled);
        if 0 <= num && (num as usize) < bodies.len() {
            let body = &bodies[num as usize];
            assert(table[num as int] == codes(body@));
            let mut j: usize = 0;
            while j < body.len()
                invariant
                    j <= body.len(),
                    codes(instrs@) == labelled + codes(body@).take(j as int),
                decreases body.len() - j,
            {
                let ghost cur = codes(instrs@);
                instrs.push(body[j].clone());
                assert(codes(instrs@) =~= cur.push(codes(body@)[j as int]));
                assert(codes(body@).take(j + 1) =~= codes(body@).take(j as int).push(
                    codes(body@)[j as int],
                ));
                j += 1;
            }
            assert(codes(body@).take(j as int) =~= codes(body@));
        } else {
            assert(codes(instrs@) =~= labelled + Seq::<CodeView>::empty());
        }
        proof {
            assert(entries.take(p + 1).drop_last() =~= entries.take(p as int));
            assert(entries.take(p + 1).last() == entries[p as int]);
        }
        p += 1;
    }
    assert(entries.take(n as int) =~= entries);
    instrs
}

/// The names of the parameters.
pub open spec fn param_names(args: Seq<crate::ir::Argument>) -> Seq<Seq<char>> {
    args.map_values(|a: crate::ir::Argument| a.name@)
}

/// The body of a function in static single assignment form, before dead
/// code is eliminated: the blocks of the graph in the order of the block
/// map, each with its label, its phi instructions and its renamed items.
pub open spec fn ssa_body(cfg: Cfg, params: Seq<Seq<char>>) -> Seq<CodeView> {
    if cfg.size() == 0 {
        Seq::empty()
    } else {
        let end = renamed(cfg, params);
        laid_out(cfg.entries(), cfg.labels(), with_phis(end.bodies, end.phis, cfg.labels()))
    }
}

/// Converts the function into static single assignment form.
///
/// The body becomes that of the control-flow graph of its blocks, with phi
/// nodes on the iterated dominance frontier of every variable and every
/// definition renamed, and is then cleared of dead code.
pub fn to_ssa(func: &mut Function)
    requires
        old(func).instrs.len() < i32::MAX - 1,
    ensures
        exists|cfg: Cfg|
            crate::cfg::is_cfg_of(cfg, crate::form_blocks::blocks_of(codes(old(func).instrs@)))
                && codes(final(func).instrs@) == crate::tdce::dce_body(
                #[trigger] ssa_body(cfg, param_names(old(func).args@)),
            ),
        final(func).name == old(func).name,
        final(func).args == old(func).args,
        final(func).return_type == old(func).return_type,
{
    let blocks = crate::form_blocks::form_blocks(func);
    proof {
        crate::form_blocks::lemma_blocks_count(codes(func.instrs@));
        assert(crate::form_blocks::block_views(blocks@).len() == blocks.len());
        assert(codes(func.instrs@).len() == func.instrs.len());
    }
    let cfg = crate::cfg::form_cfg(blocks);
    let mut args: Vec<String> = Vec::new();
    let mut i: usize = 0;
    while i < func.args.len()
        invariant
            i <= func.args.len(),
            args.len() == i,
            forall|k: int| 0 <= k < i ==> (#[trigger] args[k])@ == func.args[k].name@,
        decreases func.args.len() - i,
    {
        args.push(func.args[i].name.clone());
        i += 1;
    }
    assert(names(args@) =~= param_names(func.args@));
    let n = numbered_len(&cfg.block_map);
    if n == 0 {
        func.instrs = Vec::new();
        assert(codes(func.instrs@) =~= ssa_body(cfg, param_names(func.args@)));
    } else {
        let mut phi_nodes = get_phi_nodes(&cfg, &args);
        proof {
            crate::cfg::lemma_name_set_members(args@);
        }
        let mut bodies = rename_vars(&cfg, &args, &mut phi_nodes);
        insert_phi_nodes(&cfg, &mut bodies, &phi_nodes);
        func.instrs = lay_out(&cfg, &bodies);
        assert(codes(func.instrs@) == ssa_body(cfg, param_names(func.args@)));
    }
    crate::tdce::trivial_dce(func);
}


/// Whether the item is a phi instruction.
pub open spec fn is_phi(c: CodeView) -> bool {
    match c {
        CodeView::Instruction(InstrView::Value { op, .. }) => op == "phi"@,
        _ => false,
    }
}

/// The copy that stands for argument `i` of a phi instruction.
pub open spec fn phi_copy(c: CodeView, i: int) -> CodeView {
    match c {
        CodeView::Instruction(InstrView::Value { dest, op_type, args, .. }) => CodeView::Instruction(
            InstrView::Value {
                op: "id"@,
                dest,
                op_type,
                args: seq![args[i]],
                labels: Seq::empty(),
                funcs: Seq::empty(),
            },
        ),
        other => other,
    }
}

/// The copies that the first `i` labels of a phi instruction ask of block
/// `t`: one for each label that is the label of `t` and has an argument.
pub open spec fn phi_copies(c: CodeView, pairs: Map<i32, Seq<char>>, t: i32, i: nat) -> Seq<
    CodeView,
>
    decreases i,
{
    if i == 0 {
        Seq::empty()
    } else {
        let prev = phi_copies(c, pairs, t, (i - 1) as nat);
        match c {
            CodeView::Instruction(InstrView::Value { args, labels, .. }) => if i - 1 < labels.len()
                && i - 1 < args.len() && crate::cfg::label_id(pairs, labels[i - 1]) == Some(t) {
                prev.push(phi_copy(c, i - 1))
            } else {
                prev
            },
            _ => prev,
        }
    }
}

/// The number of labels of an item that is a phi instruction; zero for any
/// other item.
pub open spec fn phi_arity(c: CodeView) -> nat {
    if is_phi(c) {
        c->Instruction_0.labels().len()
    } else {
        0
    }
}

/// The copies that the phi instructions among the first `k` items ask of
/// block `t`.
pub open spec fn copies_upto(items: Seq<CodeView>, pairs: Map<i32, Seq<char>>, t: i32, k: nat) -> Seq<
    CodeView,
>
    decreases k,
{
    if k == 0 {
        Seq::empty()
    } else {
        copies_upto(items, pairs, t, (k - 1) as nat) + phi_copies(
            items[k - 1],
            pairs,
            t,
            phi_arity(items[k - 1]),
        )
    }
}

/// The items that are not phi instructions, in order.
pub open spec fn without_phis(items: Seq<CodeView>) -> Seq<CodeView>
    decreases items.len(),
{
    if items.len() == 0 {
        Seq::empty()
    } else {
        let r = without_phis(items.drop_last());
        if is_phi(items.last()) {
            r
        } else {
            r.push(items.last())
        }
    }
}

/// The body of a block out of static single assignment form: the copies
/// asked of it stand before its last item, and its phi instructions are
/// gone.
pub open spec fn lowered(body: Seq<CodeView>, copies: Seq<CodeView>) -> Seq<CodeView> {
    if body.len() == 0 {
        without_phis(copies)
    } else {
        without_phis(body.drop_last() + copies + seq![body.last()])
    }
}

/// The body of a function out of static single assignment form, before
/// dead code is eliminated.
pub open spec fn from_ssa_body(cfg: Cfg) -> Seq<CodeView> {
    let items = all_items(cfg.entries());
    laid_out(
        cfg.entries(),
        cfg.labels(),
        Seq::new(
            cfg.size(),
            |t: int|
                lowered(
                    cfg.body(t as i32),
                    copies_upto(items, cfg.labels(), t as i32, items.len()),
                ),
        ),
    )
}

fn strip_phis(items: &Vec<Code>) -> (out: Vec<Code>)
    ensures
        codes(out@) == without_phis(codes(items@)),
{
    let mut out: Vec<Code> = Vec::new();
    let ghost all = codes(items@);
    let mut i: usize = 0;
    assert(codes(out@) =~= without_phis(all.take(0)));
    while i < items.len()
        invariant
            i <= items.len(),
            all == codes(items@),
            codes(out@) == without_phis(all.take(i as int)),
        decreases items.len() - i,
    {
        let ghost before = codes(out@);
        proof {
            assert(all.take(i + 1).drop_last() =~= all.take(i as int));
            assert(all.take(i + 1).last() == items[i as int]@);
        }
        let phi = match &items[i] {
            Code::Instruction(Instruction::Value { op, .. }) => is_str(op, "phi"),
            _ => false,
        };
        if !phi {
            out.push(items[i].clone());
            assert(codes(out@) =~= before.push(items[i as int]@));
        }
        i += 1;
    }
    assert(all.take(i as int) =~= all);
    out
}

/// Converts the function out of static single assignment form.
///
/// For every argument of a phi instruction, a copy into the destination of
/// the phi is put at the end of the block that the argument comes from,
/// before its terminator; the phi instructions are deleted; and the body is
/// cleared of dead code.
pub fn from_ssa(func: &mut Function)
    requires
        old(func).instrs.len() < i32::MAX - 1,
    ensures
        exists|cfg: Cfg|
            crate::cfg::is_cfg_of(cfg, crate::form_blocks::blocks_of(codes(old(func).instrs@)))
                && codes(final(func).instrs@) == crate::tdce::dce_body(#[trigger] from_ssa_body(cfg)),
        final(func).name == old(func).name,
        final(func).args == old(func).args,
        final(func).return_type == old(func).return_type,
{
    let blocks = crate::form_blocks::form_blocks(func);
    proof {
        crate::form_blocks::lemma_blocks_count(codes(func.instrs@));
        assert(crate::form_blocks::block_views(blocks@).len() == blocks.len());
        assert(codes(func.instrs@).len() == func.instrs.len());
    }
    let cfg = crate::cfg::form_cfg(blocks);
    let n = numbered_len(&cfg.block_map);
    let items = gather_items(&cfg);
    let ghost all = codes(items@);
    let ghost pairs = cfg.labels();
    let mut copies: Vec<Vec<Code>> = Vec::new();
    let mut t: usize = 0;
    while t < n
        invariant
            t <= n,
            copies.len() == t,
            forall|x: int|
                0 <= x < t ==> codes((#[trigger] copies[x])@) == copies_upto(all, pairs, x as i32, 0),
        decreases n - t,
    {
        let empty: Vec<Code> = Vec::new();
        assert(codes(empty@) =~= Seq::<CodeView>::empty());
        copies.push(empty);
        t += 1;
    }
    let mut k: usize = 0;
    while k < items.len()
        invariant
            k <= items.len(),
            n == cfg.size(),
            cfg.wf(),
            all == codes(items@),
            pairs == cfg.labels(),
            copies.len() == n,
            forall|x: int|
                0 <= x < n ==> codes((#[trigger] copies[x])@) == copies_upto(
                    all,
                    pairs,
                    x as i32,
                    k as nat,
                ),
        decreases items.len() - k,
    {
        let ghost item = all[k as int];
        assert(item == items[k as int]@);
        let mut done = false;
        if let Code::Instruction(Instruction::Value { op, dest, op_type, labels, args, .. }) =
            &items[k] {
            if is_str(op, "phi") {
                done = true;
                let ghost base = body_table(copies@);
                assert(base.len() == n);
                assert(phi_arity(item) == labels.len());
                let mut i: usize = 0;
                while i < labels.len()
                    invariant
                        i <= labels.len(),
                        n == cfg.size(),
                        cfg.wf(),
                        pairs == cfg.labels(),
                        item == items[k as int]@,
                        items[k as int] == (Code::Instruction(
                            Instruction::Value {
                                op: *op,
                                dest: *dest,
                                op_type: *op_type,
                                labels: *labels,
                                args: *args,
                                funcs: items[k as int]->Instruction_0->Value_funcs,
                            },
                        )),
                        copies.len() == n,
                        base.len() == n,
                        forall|x: int|
                            0 <= x < n ==> codes((#[trigger] copies[x])@) == base[x] + phi_copies(
                                item,
                                pairs,
                                x as i32,
                                i as nat,
                            ),
                    decreases labels.len() - i,
                {
                    let ghost label = labels[i as int]@;
                    assert(item->Instruction_0.labels()[i as int] == label);
                    let target = crate::ordered::labels_get_by_right(&cfg.name_map, &labels[i]);
                    proof {
                        match target {
                            Some(id) => {
                                crate::cfg::lemma_label_id(pairs, id, label);
                            },
                            None => {
                                assert(crate::cfg::label_id(pairs, label) is None);
                            },
                        }
                    }
                    if i < args.len() {
                        if let Some(id) = target {
                            assert(pairs.dom().contains(id));
                            assert(cfg.is_block(id));
                            let mut single: Vec<String> = Vec::new();
                            single.push(args[i].clone());
                            assert(names(single@) =~= seq![args[i as int]@]);
                            let none: Vec<String> = Vec::new();
                            assert(names(none@) =~= Seq::<Seq<char>>::empty());
                            let copy = Code::Instruction(
                                Instruction::Value {
                                    args: single,
                                    dest: dest.clone(),
                                    funcs: Vec::new(),
                                    labels: none,
                                    op: String::from_str("id"),
                                    op_type: clone_type(op_type),
                                },
                            );
                            assert(copy@ == phi_copy(item, i as int));
                            let ghost before = codes(copies[id as int]@);
                            copies[id as usize].push(copy);
                            assert(codes(copies[id as int]@) =~= before.push(copy@));
                        }
                    }
                    proof {
                        assert forall|x: int| 0 <= x < n implies codes((#[trigger] copies[x])@)
                            == base[x] + phi_copies(item, pairs, x as i32, (i + 1) as nat) by {
                            let now = phi_copies(item, pairs, x as i32, (i + 1) as nat);
                            let was = phi_copies(item, pairs, x as i32, i as nat);
                            if i < args.len() && target == Some(x as i32) {
                                assert(now == was.push(phi_copy(item, i as int)));
                                assert(codes(copies[x]@) =~= base[x] + now);
                            } else {
                                assert(now == was);
                            }
                        }
                    }
                    i += 1;
                }
            }
        }
        proof {
            if !done {
                assert(phi_arity(item) == 0);
                assert forall|x: int| 0 <= x < n implies codes((#[trigger] copies[x])@)
                    == copies_upto(all, pairs, x as i32, (k + 1) as nat) by {
                    assert(phi_copies(item, pairs, x as i32, 0) =~= Seq::<CodeView>::empty());
                    assert(codes(copies[x]@) =~= codes(copies[x]@) + Seq::<CodeView>::empty());
                }
            }
        }
        k += 1;
    }
    let mut bodies: Vec<Vec<Code>> = Vec::new();
    let mut b: usize = 0;
    while b < n
        invariant
            b <= n,
            n == cfg.size(),
            cfg.wf(),
            all == codes(items@),
            pairs == cfg.labels(),
            copies.len() == n,
            forall|x: int|
                0 <= x < n ==> codes((#[trigger] copies[x])@) == copies_upto(
                    all,
                    pairs,
                    x as i32,
                    items.len() as nat,
                ),
            bodies.len() == b,
            forall|x: int|
                0 <= x < b ==> codes((#[trigger] bodies[x])@) == lowered(
                    cfg.body(x as i32),
                    copies_upto(all, pairs, x as i32, all.len()),
                ),
        decreases n - b,
    {
        assert(cfg.is_block(b as i32));
        assert(all.len() == items.len());
        let empty: Vec<Code> = Vec::new();
        let body = match crate::df::block_of(&cfg, b as i32) {
            Some(block) => &block.instrs,
            None => &empty,
        };
        let extra = &copies[b];
        let mut joined: Vec<Code> = Vec::new();
        let ghost view = codes(body@);
        let ghost added = codes(extra@);
        let keep = if body.len() > 0 {
            body.len() - 1
        } else {
            0
        };
        let mut j: usize = 0;
        assert(codes(joined@) =~= view.take(0));
        while j < keep
            invariant
                j <= keep,
                keep <= body.len(),
                view == codes(body@),
                codes(joined@) == view.take(j as int),
            decreases keep - j,
        {
            let ghost cur = codes(joined@);
            joined.push(body[j].clone());
            assert(codes(joined@) =~= cur.push(view[j as int]));
            assert(view.take(j + 1) =~= view.take(j as int).push(view[j as int]));
            j += 1;
        }
        let ghost head = codes(joined@);
        let mut c: usize = 0;
        while c < extra.len()
            invariant
                c <= extra.len(),
                added == codes(extra@),
                codes(joined@) == head + added.take(c as int),
            decreases extra.len() - c,
        {
            let ghost cur = codes(joined@);
            joined.push(extra[c].clone());
            assert(codes(joined@) =~= cur.push(added[c as int]));
            assert(added.take(c + 1) =~= added.take(c as int).push(added[c as int]));
            c += 1;
        }
        assert(added.take(c as int) =~= added);
        if body.len() > 0 {
            let ghost cur = codes(joined@);
            joined.push(body[body.len() - 1].clone());
            assert(codes(joined@) =~= cur.push(view.last()));
            assert(view.take(keep as int) =~= view.drop_last());
            assert(codes(joined@) =~= view.drop_last() + added + seq![view.last()]);
        } else {
            assert(codes(joined@) =~= added);
        }
        bodies.push(strip_phis(&joined));
        b += 1;
    }
    proof {
        assert(body_table(bodies@) =~= Seq::new(
            cfg.size(),
            |t: int|
                lowered(cfg.body(t as i32), copies_upto(all, pairs, t as i32, all.len())),
        ));
    }
    func.instrs = lay_out(&cfg, &bodies);
    assert(codes(func.instrs@) == from_ssa_body(cfg));
    crate::tdce::trivial_dce(func);
}


/// The number of times a name occurs among the first `k` names.
pub open spec fn occurrences_of(list: Seq<Seq<char>>, name: Seq<char>, k: nat) -> nat
    decreases k,
{
    if k == 0 {
        0
    } else {
        occurrences_of(list, name, (k - 1) as nat) + if list[k - 1] == name {
            1nat
        } else {
            0nat
        }
    }
}

/// The distinct names among the first `k` names, in the order in which they
/// first occur.
pub open spec fn distinct_names(list: Seq<Seq<char>>, k: nat) -> Seq<Seq<char>>
    decreases k,
{
    if k == 0 {
        Seq::empty()
    } else {
        let prev = distinct_names(list, (k - 1) as nat);
        if prev.contains(list[k - 1]) {
            prev
        } else {
            prev.push(list[k - 1])
        }
    }
}

/// A name occurs among the names exactly when it is among the distinct
/// ones.
pub proof fn lemma_distinct_names(list: Seq<Seq<char>>, name: Seq<char>, k: nat)
    requires
        k <= list.len(),
    ensures
        distinct_names(list, k).contains(name) <==> occurrences_of(list, name, k) > 0,
    decreases k,
{
    if k > 0 {
        lemma_distinct_names(list, name, (k - 1) as nat);
        let prev = distinct_names(list, (k - 1) as nat);
        let now = distinct_names(list, k);
        if prev.contains(name) {
            let i = choose|i: int| 0 <= i < prev.len() && prev[i] == name;
            assert(now[i] == name);
        }
        if now.contains(name) && !prev.contains(name) {
            let i = choose|i: int| 0 <= i < now.len() && now[i] == name;
            if i < prev.len() {
                assert(prev[i] == name);
            }
        }
        if list[k - 1] == name && !prev.contains(name) {
            assert(now[prev.len() as int] == name);
        }
    }
}

/// For every variable of the list, in the order in which the variables
/// first occur, whether the list holds it more than once.
pub fn var_defined_multiple_times(vars: Vec<String>) -> (multiple_defs: Vec<(String, bool)>)
    ensures
        multiple_defs.len() == distinct_names(names(vars@), vars.len() as nat).len(),
        forall|j: int|
            0 <= j < multiple_defs.len() ==> (#[trigger] multiple_defs[j]).0@ == distinct_names(
                names(vars@),
                vars.len() as nat,
            )[j] && multiple_defs[j].1 == (occurrences_of(
                names(vars@),
                multiple_defs[j].0@,
                vars.len() as nat,
            ) > 1),
{
    let ghost list = names(vars@);
    let mut counts: Vec<(String, bool)> = Vec::new();
    let mut i: usize = 0;
    while i < vars.len()
        invariant
            i <= vars.len(),
            list == names(vars@),
            counts.len() == distinct_names(list, i as nat).len(),
            forall|j: int|
                0 <= j < counts.len() ==> (#[trigger] counts[j]).0@ == distinct_names(
                    list,
                    i as nat,
                )[j] && counts[j].1 == (occurrences_of(list, counts[j].0@, i as nat) > 1),
        decreases vars.len() - i,
    {
        let v = &vars[i];
        assert(list[i as int] == v@);
        let ghost before = distinct_names(list, i as nat);
        let ghost old_counts = counts@;
        let mut found = false;
        let mut j: usize = 0;
        while j < counts.len()
            invariant
                j <= counts.len(),
                counts.len() == before.len(),
                counts.len() == old_counts.len(),
                forall|k: int| 0 <= k < counts.len() ==> (#[trigger] counts[k]).0@ == before[k],
                forall|k: int|
                    0 <= k < counts.len() && before[k] != v@ ==> (#[trigger] counts[k]) == old_counts[k],
                forall|k: int| 0 <= k < j && before[k] == v@ ==> (#[trigger] counts[k]).1,
                forall|k: int| j <= k < counts.len() ==> (#[trigger] counts[k]) == old_counts[k],
                found == exists|k: int| 0 <= k < j && before[k] == v@,
            decreases counts.len() - j,
        {
            if counts[j].0 == *v {
                let name = counts[j].0.clone();
                counts.set(j, (name, true));
                found = true;
            }
            j += 1;
        }
        if !found {
            counts.push((v.clone(), false));
        }
        proof {
            let now = distinct_names(list, (i + 1) as nat);
            assert(found == before.contains(v@));
            assert forall|k: int| 0 <= k < counts.len() implies (#[trigger] counts[k]).0@ == now[k]
                && counts[k].1 == (occurrences_of(list, counts[k].0@, (i + 1) as nat) > 1) by {
                if k < before.len() {
                    assert(old_counts[k].0@ == before[k]);
                    if before[k] == v@ {
                        lemma_distinct_names(list, v@, i as nat);
                        assert(before.contains(v@));
                    }
                } else {
                    lemma_distinct_names(list, v@, i as nat);
                }
            }
        }
        i += 1;
    }
    counts
}

} // verus!
