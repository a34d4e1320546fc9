//! Local value numbering of a basic block, with copy propagation,
//! canonical argument order for commutative operations, and constant
//! folding.
use crate::form_blocks::{block_views, flatten_blocks, form_blocks, Block};
use crate::fresh::{contains_name, name_set};
use crate::ir::{codes, is_str, names, Code, CodeView, Function, InstrView, Instruction, Literal};
use std::collections::HashMap;
use vstd::prelude::*;
use vstd::string::*;

verus! {

broadcast use vstd::std_specs::hash::group_hash_axioms;

/// A value expression: an operation applied to value numbers.
#[derive(Debug)]
pub struct ValueExpr {
    pub op_code: String,
    pub args: Vec<i32>,
}

/// The model of a [`ValueExpr`].
pub struct ExprView {
    pub op_code: Seq<char>,
    pub args: Seq<i32>,
}

impl View for ValueExpr {
    type V = ExprView;

    open spec fn view(&self) -> ExprView {
        ExprView { op_code: self.op_code@, args: self.args@ }
    }
}

impl ValueExpr {
    /// The expression of an operation and its arguments' value numbers.
    pub fn new(op_code: String, args: Vec<i32>) -> (e: ValueExpr)
        ensures
            e.op_code == op_code,
            e.args == args,
    {
        ValueExpr { op_code, args }
    }

    /// Whether two expressions have the same operation and the same
    /// arguments.
    pub fn same_as(&self, other: &Self) -> (r: bool)
        ensures
            r == (self@ == other@),
    {
        if !(self.op_code == other.op_code) || self.args.len() != other.args.len() {
            if self.args.len() != other.args.len() {
                assert(self.args@.len() != other.args@.len());
            }
            return false;
        }
        let mut i: usize = 0;
        while i < self.args.len()
            invariant
                i <= self.args.len(),
                self.args.len() == other.args.len(),
                forall|j: int| 0 <= j < i ==> self.args[j] == other.args[j],
            decreases self.args.len() - i,
        {
            if self.args[i] != other.args[i] {
                return false;
            }
            i += 1;
        }
        assert(self.args@ =~= other.args@);
        true
    }

    /// Copies the expression.
    pub fn copy(&self) -> (r: Self)
        ensures
            r@ == self@,
    {
        ValueExpr { op_code: self.op_code.clone(), args: crate::cfg::copy_ids(&self.args) }
    }
}

/// The model of the entries of a table: for each value number, the
/// expression that computes it, if one is known, and the variable that holds
/// it.
pub open spec fn entries_of(v: Seq<(Option<ValueExpr>, String)>) -> Seq<
    (Option<ExprView>, Seq<char>),
> {
    v.map_values(
        |e: (Option<ValueExpr>, String)|
            (
                match e.0 {
                    Some(x) => Some(x@),
                    None => None,
                },
                e.1@,
            ),
    )
}

/// The entry of a value number, if the table has it.
pub open spec fn value_entry(table: Seq<(Option<ExprView>, Seq<char>)>, val: i32) -> Option<
    (Option<ExprView>, Seq<char>),
> {
    if 0 <= val < table.len() {
        Some(table[val as int])
    } else {
        None
    }
}

/// The greatest value number whose expression is `e`, or -1 where there is
/// none.
pub open spec fn last_with(table: Seq<(Option<ExprView>, Seq<char>)>, e: ExprView) -> int
    decreases table.len(),
{
    if table.len() == 0 {
        -1
    } else if table.last().0 == Some(e) {
        table.len() - 1
    } else {
        last_with(table.drop_last(), e)
    }
}

/// The value number that already stands for an expression, with its home.
/// With copy propagation, a copy stands for the value of its argument.
pub open spec fn expr_entry(
    table: Seq<(Option<ExprView>, Seq<char>)>,
    e: ExprView,
    prop: bool,
) -> Option<(i32, Seq<char>)> {
    if prop && e.op_code == "id"@ {
        if e.args.len() > 0 {
            match value_entry(table, e.args[0]) {
                Some(entry) => Some((e.args[0], entry.1)),
                None => None,
            }
        } else {
            None
        }
    } else {
        let i = last_with(table, e);
        if i >= 0 {
            Some((i as i32, table[i].1))
        } else {
            None
        }
    }
}

/// The table of value numbers of a block.
#[derive(Debug)]
pub struct LvnTable {
    pub vector: Vec<(Option<ValueExpr>, String)>,
}

impl View for LvnTable {
    type V = Seq<(Option<ExprView>, Seq<char>)>;

    open spec fn view(&self) -> Seq<(Option<ExprView>, Seq<char>)> {
        entries_of(self.vector@)
    }
}

impl Default for LvnTable {
    fn default() -> (t: Self)
        ensures
            t@ == Seq::<(Option<ExprView>, Seq<char>)>::empty(),
    {
        let t = LvnTable { vector: Vec::new() };
        assert(t@ =~= Seq::<(Option<ExprView>, Seq<char>)>::empty());
        t
    }
}

impl LvnTable {
    /// Adds a value under the next value number and returns the number.
    pub fn add_value(&mut self, value_expr: Option<ValueExpr>, home: &String) -> (val_num: i32)
        requires
            old(self)@.len() < i32::MAX,
        ensures
            val_num == old(self)@.len(),
            final(self)@ == old(self)@.push(
                (
                    match value_expr {
                        Some(x) => Some(x@),
                        None => None,
                    },
                    home@,
                ),
            ),
    {
        let val_num = self.vector.len() as i32;
        self.vector.push((value_expr, home.clone()));
        assert(self@ =~= old(self)@.push(
            (
                match value_expr {
                    Some(x) => Some(x@),
                    None => None,
                },
                home@,
            ),
        ));
        val_num
    }

    /// The value number that the next value will get.
    pub fn next_value(&self) -> (val_num: i32)
        requires
            self@.len() <= i32::MAX,
        ensures
            val_num == self@.len(),
    {
        self.vector.len() as i32
    }

    /// The entry of a value number, if the table has it.
    pub fn lookup_value(&self, val: i32) -> (r: Option<(Option<ValueExpr>, String)>)
        ensures
            match r {
                Some(e) => value_entry(self@, val) == Some(
                    (
                        match e.0 {
                            Some(x) => Some(x@),
                            None => None,
                        },
                        e.1@,
                    ),
                ),
                None => value_entry(self@, val) is None,
            },
    {
        if val < 0 || val as usize >= self.vector.len() {
            return None;
        }
        let entry = &self.vector[val as usize];
        let expr = match &entry.0 {
            Some(x) => Some(x.copy()),
            None => None,
        };
        assert(self@[val as int] == (
            match entry.0 {
                Some(x) => Some(x@),
                None => None,
            },
            entry.1@,
        ));
        Some((expr, entry.1.clone()))
    }

    /// The value number that already stands for an expression, with its
    /// home.
    pub fn lookup_expr(&self, value_expr: &ValueExpr, prop: bool) -> (r: Option<(i32, String)>)
        requires
            self@.len() <= i32::MAX,
        ensures
            match r {
                Some(e) => expr_entry(self@, value_expr@, prop) == Some((e.0, e.1@)),
                None => expr_entry(self@, value_expr@, prop) is None,
            },
    {
        if prop && is_str(&value_expr.op_code, "id") {
            if value_expr.args.len() == 0 {
                return None;
            }
            let val = value_expr.args[0];
            match self.lookup_value(val) {
                Some((_, var)) => Some((val, var)),
                None => None,
            }
        } else {
            let mut i: usize = self.vector.len();
            let ghost table = self@;
            assert(table.take(i as int) =~= table);
            while i > 0
                invariant
                    i <= self.vector.len(),
                    table == self@,
                    table.len() == self.vector.len(),
                    table.len() <= i32::MAX,
                    !(prop && value_expr.op_code@ == "id"@),
                    last_with(table, value_expr@) == last_with(table.take(i as int), value_expr@),
                decreases i,
            {
                i -= 1;
                let entry = &self.vector[i];
                assert(table.take(i + 1).last() == table[i as int]);
                assert(table.take(i + 1).drop_last() =~= table.take(i as int));
                let found = match &entry.0 {
                    Some(x) => x.same_as(value_expr),
                    None => false,
                };
                assert(table[i as int] == (
                    match entry.0 {
                        Some(x) => Some(x@),
                        None => None,
                    },
                    entry.1@,
                ));
                assert(found == (table.take(i + 1).last().0 == Some(value_expr@)));
                if found {
                    return Some((i as i32, entry.1.clone()));
                }
            }
            None
        }
    }

    /// Whether some value number already stands for the expression.
    pub fn contains_expr(&self, value_expr: &ValueExpr, prop: bool) -> (r: bool)
        requires
            self@.len() <= i32::MAX,
        ensures
            r == expr_entry(self@, value_expr@, prop) is Some,
    {
        self.lookup_expr(value_expr, prop).is_some()
    }
}

/// The name of the variable made for a value number.
pub open spec fn lvn_name(val: i32) -> Seq<char> {
    "lvn."@ + crate::fresh::signed_decimal(val as int)
}

/// The name of the variable made for a value number: `lvn.` and the number.
pub fn new_var(val: i32) -> (name: String)
    ensures
        name@ == lvn_name(val),
{
    let mut name = String::from_str("lvn.");
    let digits = crate::fresh::signed_decimal_string(val as i64);
    name.append(digits.as_str());
    name
}

/// The home of a new value: the destination itself, or a made-up variable
/// where the destination is overwritten later in the block.
pub open spec fn dest_home(next: i32, dest: Seq<char>, overwritten_later: bool) -> Seq<char> {
    if overwritten_later {
        lvn_name(next)
    } else {
        dest
    }
}

/// The home of a new value: the destination itself, or a made-up variable
/// where the destination is overwritten later in the block.
pub fn get_dest(table: &LvnTable, dest: &String, overwritten_later: bool) -> (home: String)
    requires
        table@.len() <= i32::MAX,
    ensures
        home@ == dest_home(table@.len() as i32, dest@, overwritten_later),
{
    if overwritten_later {
        new_var(table.next_value())
    } else {
        dest.clone()
    }
}


/// Whether a later item of the block defines the variable that the item at
/// `i` defines.
pub open spec fn defined_later(b: Seq<CodeView>, i: int) -> bool {
    exists|k: int| i < k < b.len() && crate::df::dest_of(#[trigger] b[k]) == crate::df::dest_of(b[i])
}

/// The mark of the item at `i`: unset exactly where the item defines a
/// variable that no later item of the block defines.
pub open spec fn overwritten(b: Seq<CodeView>, i: int) -> bool {
    crate::df::dest_of(b[i]) is None || defined_later(b, i)
}

/// Marks, for each item of a block, whether a later item defines the same
/// variable; an item that defines none is marked too.
pub fn overwritten_later(instrs: &Vec<Code>) -> (output: Vec<bool>)
    ensures
        output.len() == instrs.len(),
        forall|i: int| 0 <= i < output.len() ==> output[i] == overwritten(codes(instrs@), i),
{
    let n = instrs.len();
    let mut output = crate::bits::filled(n, true);
    let mut seen: Vec<String> = Vec::new();
    let ghost b = codes(instrs@);
    let mut i: usize = n;
    while i > 0
        invariant
            i <= n,
            n == instrs.len(),
            b == codes(instrs@),
            output.len() == n,
            forall|k: int| 0 <= k < i ==> output[k],
            forall|k: int| i <= k < n ==> output[k] == overwritten(b, k),
            forall|x: Seq<char>|
                name_set(seen@).contains(x) <==> exists|k: int|
                    i <= k < n && crate::df::dest_of(#[trigger] b[k]) == Some(x),
        decreases i,
    {
        i -= 1;
        let ghost seen_before = name_set(seen@);
        if let Code::Instruction(instr) = &instrs[i] {
            match instr {
                Instruction::Value { dest, .. } | Instruction::Constant { dest, .. } => {
                    if !contains_name(&seen, dest) {
                        output.set(i, false);
                        crate::df::insert_name(&mut seen, dest.clone());
                    }
                },
                Instruction::Effect { .. } => {},
            }
        }
        proof {
            let d = crate::df::dest_of(b[i as int]);
            assert(b[i as int] == instrs[i as int]@);
            assert forall|x: Seq<char>|
                name_set(seen@).contains(x) <==> exists|k: int|
                    i <= k < n && crate::df::dest_of(#[trigger] b[k]) == Some(x) by {
                if seen_before.contains(x) {
                    let k = choose|k: int|
                        i + 1 <= k < n && crate::df::dest_of(#[trigger] b[k]) == Some(x);
                    assert(i <= k < n && crate::df::dest_of(b[k]) == Some(x));
                }
                if exists|k: int| i <= k < n && crate::df::dest_of(#[trigger] b[k]) == Some(x) {
                    let k = choose|k: int|
                        i <= k < n && crate::df::dest_of(#[trigger] b[k]) == Some(x);
                    if k > i {
                        assert(seen_before.contains(x));
                    }
                }
            }
            match d {
                Some(x) => {
                    if seen_before.contains(x) {
                        let k = choose|k: int|
                            i + 1 <= k < n && crate::df::dest_of(#[trigger] b[k]) == Some(x);
                        assert(defined_later(b, i as int));
                    } else {
                        if defined_later(b, i as int) {
                            let k = choose|k: int|
                                i < k < b.len() && crate::df::dest_of(#[trigger] b[k])
                                    == crate::df::dest_of(b[i as int]);
                            assert(seen_before.contains(x));
                        }
                    }
                },
                None => {},
            }
        }
    }
    output
}

/// The list with those of the arguments added, in order, that are neither
/// written yet nor in the list.
pub open spec fn add_unread(
    list: Seq<Seq<char>>,
    args: Seq<Seq<char>>,
    written: Set<Seq<char>>,
) -> Seq<Seq<char>>
    decreases args.len(),
{
    if args.len() == 0 {
        list
    } else {
        let l = add_unread(list, args.drop_last(), written);
        let a = args.last();
        if written.contains(a) || l.contains(a) {
            l
        } else {
            l.push(a)
        }
    }
}

/// The variables that a block reads before it writes them, in the order in
/// which it first reads them.
pub open spec fn inputs(b: Seq<CodeView>) -> Seq<Seq<char>>
    decreases b.len(),
{
    if b.len() == 0 {
        Seq::empty()
    } else {
        add_unread(
            inputs(b.drop_last()),
            crate::df::args_of(b.last()),
            crate::df::defs(b.drop_last()),
        )
    }
}

/// The variables that a block reads before it writes them, in the order in
/// which it first reads them.
pub fn block_inputs(instrs: &Vec<Code>) -> (read: Vec<String>)
    ensures
        names(read@) == inputs(codes(instrs@)),
{
    let mut read: Vec<String> = Vec::new();
    let mut written: Vec<String> = Vec::new();
    let ghost b = codes(instrs@);
    let mut i: usize = 0;
    assert(names(read@) =~= inputs(b.take(0)));
    assert(name_set(written@) =~= crate::df::defs(b.take(0)));
    while i < instrs.len()
        invariant
            i <= instrs.len(),
            b == codes(instrs@),
            names(read@) == inputs(b.take(i as int)),
            name_set(written@) == crate::df::defs(b.take(i as int)),
        decreases instrs.len() - i,
    {
        let ghost cur = b.take(i as int);
        let ghost next = b.take(i + 1);
        let ghost item = b[i as int];
        let ghost read_before = names(read@);
        let ghost written_before = name_set(written@);
        proof {
            assert(next.drop_last() =~= cur);
            assert(next.last() == item);
            assert(item == instrs[i as int]@);
        }
        if let Code::Instruction(instr) = &instrs[i] {
            match instr {
                Instruction::Value { args, .. } | Instruction::Effect { args, .. } => {
                    let ghost wanted = names(args@);
                    let mut j: usize = 0;
                    assert(wanted.take(0) =~= Seq::<Seq<char>>::empty());
                    while j < args.len()
                        invariant
                            j <= args.len(),
                            wanted == names(args@),
                            name_set(written@) == written_before,
                            names(read@) == add_unread(
                                read_before,
                                wanted.take(j as int),
                                written_before,
                            ),
                        decreases args.len() - j,
                    {
                        let ghost before = names(read@);
                        proof {
                            assert(wanted.take(j + 1).drop_last() =~= wanted.take(j as int));
                            assert(wanted.take(j + 1).last() == args[j as int]@);
                            crate::cfg::lemma_name_set_members(read@);
                        }
                        if !contains_name(&written, &args[j]) && !contains_name(&read, &args[j]) {
                            read.push(args[j].clone());
                            assert(names(read@) =~= before.push(args[j as int]@));
                        }
                        j += 1;
                    }
                    assert(wanted.take(j as int) =~= wanted);
                },
                Instruction::Constant { .. } => {},
            }
            match instr {
                Instruction::Value { dest, .. } | Instruction::Constant { dest, .. } => {
                    crate::df::insert_name(&mut written, dest.clone());
                },
                Instruction::Effect { .. } => {},
            }
        }
        proof {
            assert(names(read@) == inputs(next));
            assert forall|x: Seq<char>| crate::df::defs(next).contains(x) <==> (crate::df::defs(
                cur,
            ).contains(x) || crate::df::dest_of(item) == Some(x)) by {
                if crate::df::defs(next).contains(x) {
                    let k = choose|k: int|
                        0 <= k < next.len() && crate::df::dest_of(#[trigger] next[k]) == Some(x);
                    if k < i {
                        assert(cur[k] == next[k]);
                    }
                }
                if crate::df::defs(cur).contains(x) {
                    let k = choose|k: int|
                        0 <= k < cur.len() && crate::df::dest_of(#[trigger] cur[k]) == Some(x);
                    assert(next[k] == cur[k]);
                }
                if crate::df::dest_of(item) == Some(x) {
                    assert(next[i as int] == item);
                }
            }
            assert(name_set(written@) =~= crate::df::defs(next));
        }
        i += 1;
    }
    assert(b.take(i as int) =~= b);
    read
}

/// The map that a list of bindings stands for; a later binding of a name
/// replaces an earlier one.
pub open spec fn bindings(list: Seq<(String, i32)>) -> Map<Seq<char>, i32>
    decreases list.len(),
{
    if list.len() == 0 {
        Map::empty()
    } else {
        bindings(list.drop_last()).insert(list.last().0@, list.last().1)
    }
}

/// The value number bound to a name, if there is one.
pub fn number_of(list: &Vec<(String, i32)>, name: &String) -> (r: Option<i32>)
    ensures
        r is Some <==> bindings(list@).contains_key(name@),
        r is Some ==> r->0 == bindings(list@)[name@],
{
    let mut i: usize = list.len();
    assert(list@.take(i as int) =~= list@);
    while i > 0
        invariant
            i <= list.len(),
            bindings(list@).contains_key(name@) <==> bindings(list@.take(i as int)).contains_key(
                name@,
            ),
            bindings(list@).contains_key(name@) ==> bindings(list@)[name@] == bindings(
                list@.take(i as int),
            )[name@],
        decreases i,
    {
        i -= 1;
        assert(list@.take(i + 1).drop_last() =~= list@.take(i as int));
        assert(list@.take(i + 1).last() == list[i as int]);
        if list[i].0 == *name {
            return Some(list[i].1);
        }
    }
    None
}

/// Binds a name to a value number.
pub fn bind(list: &mut Vec<(String, i32)>, name: String, num: i32)
    ensures
        bindings(final(list)@) == bindings(old(list)@).insert(name@, num),
{
    list.push((name, num));
    assert(list@.drop_last() =~= old(list)@);
}

/// The list with `x` put in before the first greater number of its sorted
/// tail.
pub open spec fn insert_asc(s: Seq<i32>, x: i32) -> Seq<i32>
    decreases s.len(),
{
    if s.len() == 0 {
        seq![x]
    } else if s.last() <= x {
        s.push(x)
    } else {
        insert_asc(s.drop_last(), x).push(s.last())
    }
}

/// The numbers in ascending order.
pub open spec fn sort_asc(s: Seq<i32>) -> Seq<i32>
    decreases s.len(),
{
    if s.len() == 0 {
        Seq::empty()
    } else {
        insert_asc(sort_asc(s.drop_last()), s.last())
    }
}

/// Whether the numbers ascend.
pub open spec fn ascending(s: Seq<i32>) -> bool {
    forall|i: int, j: int| 0 <= i <= j < s.len() ==> s[i] <= s[j]
}

/// Putting a number into an ascending list keeps it ascending and adds just
/// that number.
pub proof fn lemma_insert_asc(s: Seq<i32>, x: i32)
    requires
        ascending(s),
    ensures
        ascending(insert_asc(s, x)),
        insert_asc(s, x).to_multiset() == s.to_multiset().insert(x),
        insert_asc(s, x).len() == s.len() + 1,
    decreases s.len(),
{
    broadcast use vstd::seq_lib::group_to_multiset_ensures;

    if s.len() == 0 {
        assert(seq![x] =~= Seq::<i32>::empty().push(x));
    } else if s.last() <= x {
    } else {
        let head = s.drop_last();
        assert(ascending(head)) by {
            assert forall|i: int, j: int| 0 <= i <= j < head.len() implies head[i] <= head[j] by {
                assert(head[i] == s[i] && head[j] == s[j]);
            }
        }
        lemma_insert_asc(head, x);
        let r = insert_asc(head, x);
        assert(s =~= head.push(s.last()));
        assert forall|i: int| 0 <= i < r.len() implies r[i] <= s.last() by {
            assert(r.to_multiset().count(r[i]) > 0);
            if r[i] != x {
                assert(head.to_multiset().count(r[i]) > 0);
                let k = choose|k: int| 0 <= k < head.len() && head[k] == r[i];
                assert(s[k] <= s[s.len() - 1]);
            }
        }
        assert(r.push(s.last()).to_multiset() =~= s.to_multiset().insert(x));
    }
}

/// The sorted list ascends and holds the same numbers as often.
pub proof fn lemma_sort_asc(s: Seq<i32>)
    ensures
        ascending(sort_asc(s)),
        sort_asc(s).to_multiset() == s.to_multiset(),
        sort_asc(s).len() == s.len(),
    decreases s.len(),
{
    broadcast use vstd::seq_lib::group_to_multiset_ensures;

    if s.len() > 0 {
        lemma_sort_asc(s.drop_last());
        lemma_insert_asc(sort_asc(s.drop_last()), s.last());
        assert(s =~= s.drop_last().push(s.last()));
    }
}

fn insert_sorted(v: Vec<i32>, x: i32) -> (r: Vec<i32>)
    ensures
        r@ == insert_asc(v@, x),
    decreases v.len(),
{
    let mut v = v;
    if v.len() == 0 {
        v.push(x);
        assert(v@ =~= seq![x]);
        return v;
    }
    let ghost before = v@;
    let last = v[v.len() - 1];
    if last <= x {
        v.push(x);
        v
    } else {
        v.pop();
        assert(v@ =~= before.drop_last());
        let mut r = insert_sorted(v, x);
        r.push(last);
        r
    }
}

/// Sorts value numbers in ascending order.
pub fn sort_numbers(v: &Vec<i32>) -> (r: Vec<i32>)
    ensures
        r@ == sort_asc(v@),
{
    let mut out: Vec<i32> = Vec::new();
    let mut i: usize = 0;
    assert(v@.take(0) =~= Seq::<i32>::empty());
    while i < v.len()
        invariant
            i <= v.len(),
            out@ == sort_asc(v@.take(i as int)),
        decreases v.len() - i,
    {
        assert(v@.take(i + 1).drop_last() =~= v@.take(i as int));
        assert(v@.take(i + 1).last() == v[i as int]);
        out = insert_sorted(out, v[i]);
        i += 1;
    }
    assert(v@.take(i as int) =~= v@);
    out
}

/// The quotient of two integers rounded towards zero and wrapped into 64
/// bits.
pub open spec fn quotient(x: i64, y: i64) -> i64 {
    let a = x as int;
    let b = y as int;
    if x == i64::MIN && y == -1 {
        i64::MIN
    } else if a >= 0 && b > 0 {
        (a / b) as i64
    } else if a < 0 && b > 0 {
        (-((-a) / b)) as i64
    } else if a >= 0 {
        (-(a / (-b))) as i64
    } else {
        ((-a) / (-b)) as i64
    }
}

/// Divides with rounding towards zero, wrapping on overflow.
pub fn wrapping_quotient(x: i64, y: i64) -> (r: i64)
    requires
        y != 0,
    ensures
        r == quotient(x, y),
{
    if x == i64::MIN && y == -1 {
        return i64::MIN;
    }
    let xm: u64 = if x == i64::MIN {
        9223372036854775808u64
    } else if x < 0 {
        (-x) as u64
    } else {
        x as u64
    };
    let ym: u64 = if y == i64::MIN {
        9223372036854775808u64
    } else if y < 0 {
        (-y) as u64
    } else {
        y as u64
    };
    let q: u64 = xm / ym;
    assert(q <= xm) by (nonlinear_arith)
        requires
            q == xm / ym,
            ym >= 1,
    ;
    if ym >= 2 {
        assert(q <= 4611686018427387904u64) by (nonlinear_arith)
            requires
                q == xm / ym,
                xm <= 9223372036854775808u64,
                ym >= 2,
        ;
    }
    if (x < 0) != (y < 0) {
        if q == 9223372036854775808u64 {
            i64::MIN
        } else {
            -(q as i64)
        }
    } else {
        q as i64
    }
}

/// Whether the operation gives the same value when its arguments are
/// exchanged.
pub open spec fn is_commutative(op: Seq<char>) -> bool {
    op == "add"@ || op == "mul"@ || op == "and"@ || op == "or"@ || op == "eq"@
}

/// The value of a binary operation on two literals, where the operation is
/// one that can be folded on them. Integer arithmetic wraps; a division by
/// zero is not folded.
pub open spec fn fold_binary(op: Seq<char>, a: Literal, b: Literal) -> Option<Literal> {
    match (a, b) {
        (Literal::Int(x), Literal::Int(y)) => {
            if op == "add"@ {
                Some(Literal::Int(x.wrapping_add(y)))
            } else if op == "mul"@ {
                Some(Literal::Int(x.wrapping_mul(y)))
            } else if op == "sub"@ {
                Some(Literal::Int(x.wrapping_sub(y)))
            } else if op == "div"@ {
                if y == 0 {
                    None
                } else {
                    Some(Literal::Int(quotient(x, y)))
                }
            } else if op == "eq"@ {
                Some(Literal::Bool(x == y))
            } else if op == "lt"@ {
                Some(Literal::Bool(x < y))
            } else if op == "gt"@ {
                Some(Literal::Bool(x > y))
            } else if op == "le"@ {
                Some(Literal::Bool(x <= y))
            } else if op == "ge"@ {
                Some(Literal::Bool(x >= y))
            } else {
                None
            }
        },
        (Literal::Bool(x), Literal::Bool(y)) => {
            if op == "eq"@ {
                Some(Literal::Bool(x == y))
            } else if op == "lt"@ {
                Some(Literal::Bool(!x && y))
            } else if op == "gt"@ {
                Some(Literal::Bool(x && !y))
            } else if op == "le"@ {
                Some(Literal::Bool(!x || y))
            } else if op == "ge"@ {
                Some(Literal::Bool(x || !y))
            } else if op == "and"@ {
                Some(Literal::Bool(x && y))
            } else if op == "or"@ {
                Some(Literal::Bool(x || y))
            } else {
                None
            }
        },
        _ => None,
    }
}

/// The value of an operation on literals: `not` on its one operand, any
/// other operation on its two operands.
pub open spec fn fold_op(op: Seq<char>, a: Literal, b: Option<Literal>) -> Option<Literal> {
    if op == "not"@ {
        match a {
            Literal::Bool(x) => Some(Literal::Bool(!x)),
            _ => None,
        }
    } else {
        match b {
            Some(b) => fold_binary(op, a, b),
            None => None,
        }
    }
}

/// Applies an operation to literals.
pub fn apply_fold(op: &String, a: &Literal, b: Option<&Literal>) -> (r: Option<Literal>)
    ensures
        r == fold_op(
            op@,
            *a,
            match b {
                Some(l) => Some(*l),
                None => None,
            },
        ),
{
    if is_str(op, "not") {
        return match a {
            Literal::Bool(x) => Some(Literal::Bool(!*x)),
            _ => None,
        };
    }
    let b = match b {
        Some(b) => *b,
        None => {
            return None;
        },
    };
    match (*a, b) {
        (Literal::Int(x), Literal::Int(y)) => {
            if is_str(op, "add") {
                Some(Literal::Int(x.wrapping_add(y)))
            } else if is_str(op, "mul") {
                Some(Literal::Int(x.wrapping_mul(y)))
            } else if is_str(op, "sub") {
                Some(Literal::Int(x.wrapping_sub(y)))
            } else if is_str(op, "div") {
                if y == 0 {
                    None
                } else {
                    Some(Literal::Int(wrapping_quotient(x, y)))
                }
            } else if is_str(op, "eq") {
                Some(Literal::Bool(x == y))
            } else if is_str(op, "lt") {
                Some(Literal::Bool(x < y))
            } else if is_str(op, "gt") {
                Some(Literal::Bool(x > y))
            } else if is_str(op, "le") {
                Some(Literal::Bool(x <= y))
            } else if is_str(op, "ge") {
                Some(Literal::Bool(x >= y))
            } else {
                None
            }
        },
        (Literal::Bool(x), Literal::Bool(y)) => {
            if is_str(op, "eq") {
                Some(Literal::Bool(x == y))
            } else if is_str(op, "lt") {
                Some(Literal::Bool(!x && y))
            } else if is_str(op, "gt") {
                Some(Literal::Bool(x && !y))
            } else if is_str(op, "le") {
                Some(Literal::Bool(!x || y))
            } else if is_str(op, "ge") {
                Some(Literal::Bool(x || !y))
            } else if is_str(op, "and") {
                Some(Literal::Bool(x && y))
            } else if is_str(op, "or") {
                Some(Literal::Bool(x || y))
            } else {
                None
            }
        },
        _ => None,
    }
}


/// Whether every argument has a known literal.
pub open spec fn all_known(num2const: Map<i32, Literal>, args: Seq<i32>) -> bool {
    forall|i: int| 0 <= i < args.len() ==> num2const.contains_key(#[trigger] args[i])
}

/// The literal that an expression folds to, given the literals known for
/// value numbers.
///
/// With all arguments known, the operation is applied to the first two.
/// Otherwise `eq`, `le` and `ge` of a value with itself give true, an `and`
/// with a known false operand gives false, and an `or` with a known true
/// operand gives true.
pub open spec fn folded(num2const: Map<i32, Literal>, e: ExprView, fold: bool) -> Option<
    Literal,
> {
    if !fold {
        None
    } else if all_known(num2const, e.args) {
        if e.args.len() == 0 {
            None
        } else {
            fold_op(
                e.op_code,
                num2const[e.args[0]],
                if e.args.len() > 1 {
                    Some(num2const[e.args[1]])
                } else {
                    None
                },
            )
        }
    } else if e.args.len() != 2 {
        None
    } else if e.op_code == "eq"@ || e.op_code == "le"@ || e.op_code == "ge"@ {
        if e.args[0] == e.args[1] {
            Some(Literal::Bool(true))
        } else {
            None
        }
    } else if e.op_code == "and"@ || e.op_code == "or"@ {
        let known = if num2const.contains_key(e.args[0]) {
            Some(num2const[e.args[0]])
        } else if num2const.contains_key(e.args[1]) {
            Some(num2const[e.args[1]])
        } else {
            None
        };
        match known {
            Some(Literal::Bool(b)) => if e.op_code == "and"@ && !b {
                Some(Literal::Bool(false))
            } else if e.op_code == "or"@ && b {
                Some(Literal::Bool(true))
            } else {
                None
            },
            _ => None,
        }
    } else {
        None
    }
}

/// The known literals after an expression was folded for a value number:
/// the value number learns the literal where all arguments were known.
pub open spec fn learned(num2const: Map<i32, Literal>, e: ExprView, num: i32, fold: bool) -> Map<
    i32,
    Literal,
> {
    if fold && all_known(num2const, e.args) && folded(num2const, e, fold) is Some {
        num2const.insert(num, folded(num2const, e, fold)->0)
    } else {
        num2const
    }
}

/// Folds an expression to a literal where it can, and records the literal
/// for the value number where all arguments were known.
pub fn const_fold(
    num2const: &mut HashMap<i32, Literal>,
    value_expr: &ValueExpr,
    num: i32,
    fold: bool,
) -> (r: Option<Literal>)
    ensures
        r == folded(old(num2const)@, value_expr@, fold),
        final(num2const)@ == learned(old(num2const)@, value_expr@, num, fold),
{
    if !fold {
        return None;
    }
    let args = &value_expr.args;
    let mut all_const = true;
    let mut i: usize = 0;
    while i < args.len()
        invariant
            i <= args.len(),
            all_const == forall|k: int| 0 <= k < i ==> num2const@.contains_key(#[trigger] args[k]),
        decreases args.len() - i,
    {
        if !num2const.contains_key(&args[i]) {
            all_const = false;
        }
        i += 1;
    }
    assert(all_const == all_known(num2const@, value_expr@.args));
    if all_const {
        if args.len() == 0 {
            return None;
        }
        assert(num2const@.contains_key(args[0]));
        let a = match num2const.get(&args[0]) {
            Some(a) => *a,
            None => {
                return None;
            },
        };
        let b = if args.len() > 1 {
            assert(num2const@.contains_key(args[1]));
            match num2const.get(&args[1]) {
                Some(b) => Some(*b),
                None => None,
            }
        } else {
            None
        };
        let c = match b {
            Some(b) => apply_fold(&value_expr.op_code, &a, Some(&b)),
            None => apply_fold(&value_expr.op_code, &a, None),
        };
        if let Some(c) = c {
            num2const.insert(num, c);
            Some(c)
        } else {
            None
        }
    } else if args.len() != 2 {
        None
    } else if is_str(&value_expr.op_code, "eq") || is_str(&value_expr.op_code, "le") || is_str(
        &value_expr.op_code,
        "ge",
    ) {
        if args[0] == args[1] {
            Some(Literal::Bool(true))
        } else {
            None
        }
    } else if is_str(&value_expr.op_code, "and") || is_str(&value_expr.op_code, "or") {
        let known = match num2const.get(&args[0]) {
            Some(l) => Some(*l),
            None => match num2const.get(&args[1]) {
                Some(l) => Some(*l),
                None => None,
            },
        };
        match known {
            Some(Literal::Bool(b)) => {
                if is_str(&value_expr.op_code, "and") && !b {
                    Some(Literal::Bool(false))
                } else if is_str(&value_expr.op_code, "or") && b {
                    Some(Literal::Bool(true))
                } else {
                    None
                }
            },
            _ => None,
        }
    } else {
        None
    }
}

/// The variable that holds the value of `a`: the home of its value number,
/// or `a` itself where it has none.
pub open spec fn home_of(
    table: Seq<(Option<ExprView>, Seq<char>)>,
    var2num: Map<Seq<char>, i32>,
    a: Seq<char>,
) -> Seq<char> {
    if var2num.contains_key(a) {
        match value_entry(table, var2num[a]) {
            Some(e) => e.1,
            None => a,
        }
    } else {
        a
    }
}

/// The homes of the arguments.
pub open spec fn homes(
    table: Seq<(Option<ExprView>, Seq<char>)>,
    var2num: Map<Seq<char>, i32>,
    args: Seq<Seq<char>>,
) -> Seq<Seq<char>> {
    args.map_values(|a: Seq<char>| home_of(table, var2num, a))
}

/// An instruction with each argument replaced by its home and, where one is
/// given, with a new destination.
pub open spec fn reformed(
    instr: InstrView,
    dest: Option<Seq<char>>,
    table: Seq<(Option<ExprView>, Seq<char>)>,
    var2num: Map<Seq<char>, i32>,
) -> InstrView {
    match instr {
        InstrView::Value { op, dest: d, op_type, args, labels, funcs } => InstrView::Value {
            op,
            dest: match dest {
                Some(n) => n,
                None => d,
            },
            op_type,
            args: homes(table, var2num, args),
            labels,
            funcs,
        },
        InstrView::Effect { op, args, labels, funcs } => InstrView::Effect {
            op,
            args: homes(table, var2num, args),
            labels,
            funcs,
        },
        InstrView::Constant { dest: d, const_type, value } => InstrView::Constant {
            dest: match dest {
                Some(n) => n,
                None => d,
            },
            const_type,
            value,
        },
    }
}

fn arg_homes(args: &Vec<String>, table: &LvnTable, var2num: &Vec<(String, i32)>) -> (r: Vec<
    String,
>)
    ensures
        names(r@) == homes(table@, bindings(var2num@), names(args@)),
{
    let mut out: Vec<String> = Vec::new();
    let mut i: usize = 0;
    while i < args.len()
        invariant
            i <= args.len(),
            out.len() == i,
            forall|k: int|
                0 <= k < i ==> (#[trigger] out[k])@ == home_of(
                    table@,
                    bindings(var2num@),
                    args[k]@,
                ),
        decreases args.len() - i,
    {
        let a = &args[i];
        let home = match number_of(var2num, a) {
            Some(num) => match table.lookup_value(num) {
                Some((_, var)) => var,
                None => a.clone(),
            },
            None => a.clone(),
        };
        out.push(home);
        i += 1;
    }
    assert(names(out@) =~= homes(table@, bindings(var2num@), names(args@)));
    out
}

/// Rewrites an instruction: each argument is replaced by the home of its
/// value number, and the destination by the given one, if any.
pub fn reform_instr(
    instr: Instruction,
    dest: Option<String>,
    table: &LvnTable,
    var2num: &Vec<(String, i32)>,
) -> (code: Code)
    ensures
        code@ == CodeView::Instruction(
            reformed(
                instr@,
                match dest {
                    Some(d) => Some(d@),
                    None => None,
                },
                table@,
                bindings(var2num@),
            ),
        ),
{
    let new_instr = match instr {
        Instruction::Value { op, dest: d, op_type, args, labels, funcs } => Instruction::Value {
            op,
            dest: match dest {
                Some(n) => n,
                None => d,
            },
            op_type,
            args: arg_homes(&args, table, var2num),
            labels,
            funcs,
        },
        Instruction::Effect { op, args, labels, funcs } => Instruction::Effect {
            op,
            args: arg_homes(&args, table, var2num),
            labels,
            funcs,
        },
        Instruction::Constant { dest: d, const_type, value } => Instruction::Constant {
            dest: match dest {
                Some(n) => n,
                None => d,
            },
            const_type,
            value,
        },
    };
    Code::Instruction(new_instr)
}

/// The copy that stands for an instruction whose value a variable already
/// holds.
pub open spec fn copied(instr: InstrView, home: Seq<char>) -> InstrView {
    match instr {
        InstrView::Value { op, dest, op_type, args, labels, funcs } => InstrView::Value {
            op: "id"@,
            dest,
            op_type,
            args: seq![home],
            labels,
            funcs,
        },
        other => other,
    }
}

/// Turns an instruction with a destination into a copy of the variable that
/// holds its value.
pub fn copy_instr(instr: Instruction, home_var: &String) -> (code: Code)
    ensures
        code@ == CodeView::Instruction(copied(instr@, home_var@)),
{
    let new_instr = match instr {
        Instruction::Value { op_type, dest, funcs, labels, .. } => {
            let mut args: Vec<String> = Vec::new();
            args.push(home_var.clone());
            assert(names(args@) =~= seq![home_var@]);
            Instruction::Value { op: String::from_str("id"), args, op_type, dest, funcs, labels }
        },
        other => other,
    };
    Code::Instruction(new_instr)
}

/// The constant that stands for an instruction whose value is known.
pub open spec fn as_constant(instr: InstrView, new_dest: Option<Seq<char>>, value: Literal) -> InstrView {
    match instr {
        InstrView::Value { dest, op_type, .. } => InstrView::Constant {
            dest: match new_dest {
                Some(n) => n,
                None => dest,
            },
            const_type: op_type,
            value,
        },
        InstrView::Constant { dest, const_type, .. } => InstrView::Constant {
            dest: match new_dest {
                Some(n) => n,
                None => dest,
            },
            const_type,
            value,
        },
        other => other,
    }
}

/// Turns an instruction with a destination into a constant of the given
/// value, under the new destination if one is given.
pub fn const_instr(instr: Instruction, new_dest: Option<String>, value: Literal) -> (code: Code)
    requires
        !(instr is Effect),
    ensures
        code@ == CodeView::Instruction(
            as_constant(
                instr@,
                match new_dest {
                    Some(d) => Some(d@),
                    None => None,
                },
                value,
            ),
        ),
{
    let new_instr = match instr {
        Instruction::Value { dest, op_type, .. } => Instruction::Constant {
            dest: match new_dest {
                Some(n) => n,
                None => dest,
            },
            const_type: op_type,
            value,
        },
        Instruction::Constant { dest, const_type, .. } => Instruction::Constant {
            dest: match new_dest {
                Some(n) => n,
                None => dest,
            },
            const_type,
            value,
        },
        other => other,
    };
    Code::Instruction(new_instr)
}

/// The state of the pass: the table of value numbers, the value number of
/// each variable, the literal known for a value number, and the items
/// emitted so far.
pub struct LvnState {
    pub table: Seq<(Option<ExprView>, Seq<char>)>,
    pub var2num: Map<Seq<char>, i32>,
    pub num2const: Map<i32, Literal>,
    pub out: Seq<CodeView>,
}

/// The state after the first `k` inputs of the block got their value
/// numbers: each has no expression and is its own home.
pub open spec fn seeded(vars: Seq<Seq<char>>, k: nat) -> LvnState
    decreases k,
{
    if k == 0 {
        LvnState {
            table: Seq::empty(),
            var2num: Map::empty(),
            num2const: Map::empty(),
            out: Seq::empty(),
        }
    } else {
        let st = seeded(vars, (k - 1) as nat);
        LvnState {
            table: st.table.push((None, vars[k - 1])),
            var2num: st.var2num.insert(vars[k - 1], st.table.len() as i32),
            num2const: st.num2const,
            out: st.out,
        }
    }
}

/// Whether every argument has a value number.
pub open spec fn all_numbered(var2num: Map<Seq<char>, i32>, args: Seq<Seq<char>>) -> bool {
    forall|i: int| 0 <= i < args.len() ==> var2num.contains_key(#[trigger] args[i])
}

/// The value numbers of the arguments.
pub open spec fn arg_numbers(var2num: Map<Seq<char>, i32>, args: Seq<Seq<char>>) -> Seq<i32> {
    args.map_values(|a: Seq<char>| var2num[a])
}

/// The arguments of a canonical expression: sorted for a commutative
/// operation where commutativity is on.
pub open spec fn canonical(op: Seq<char>, nums: Seq<i32>, comm: bool) -> Seq<i32> {
    if comm && is_commutative(op) {
        sort_asc(nums)
    } else {
        nums
    }
}

/// Whether the pass numbers the value of the instruction: it is an
/// operation with a destination, other than a call, whose arguments all have
/// value numbers.
pub open spec fn is_numbered_value(st: LvnState, instr: InstrView) -> bool {
    match instr {
        InstrView::Value { op, args, .. } => op != "call"@ && all_numbered(st.var2num, args),
        _ => false,
    }
}

/// The state after one more item of the block.
pub open spec fn step(
    st: LvnState,
    item: CodeView,
    later: bool,
    prop: bool,
    comm: bool,
    fold: bool,
) -> LvnState {
    match item {
        CodeView::Label { .. } => LvnState { out: st.out.push(item), ..st },
        CodeView::Instruction(instr) => {
            let num = st.table.len() as i32;
            match instr {
                InstrView::Constant { dest, const_type, value } => {
                    let home = dest_home(num, dest, later);
                    LvnState {
                        table: st.table.push((None, home)),
                        var2num: st.var2num.insert(dest, num),
                        num2const: st.num2const.insert(num, value),
                        out: st.out.push(
                            CodeView::Instruction(
                                InstrView::Constant { dest: home, const_type, value },
                            ),
                        ),
                    }
                },
                InstrView::Value { op, dest, args, .. } => {
                    if is_numbered_value(st, instr) {
                        let e = ExprView {
                            op_code: op,
                            args: canonical(op, arg_numbers(st.var2num, args), comm),
                        };
                        let c = folded(st.num2const, e, fold);
                        match expr_entry(st.table, e, prop) {
                            Some(found) => LvnState {
                                table: st.table,
                                var2num: st.var2num.insert(dest, found.0),
                                num2const: learned(st.num2const, e, found.0, fold),
                                out: st.out.push(
                                    CodeView::Instruction(
                                        match c {
                                            Some(v) => as_constant(instr, None, v),
                                            None => copied(instr, found.1),
                                        },
                                    ),
                                ),
                            },
                            None => {
                                let home = dest_home(num, dest, later);
                                LvnState {
                                    table: st.table.push((Some(e), home)),
                                    var2num: match c {
                                        Some(v) => st.var2num.insert(dest, num).insert(home, num),
                                        None => st.var2num.insert(dest, num),
                                    },
                                    num2const: learned(st.num2const, e, num, fold),
                                    out: st.out.push(
                                        CodeView::Instruction(
                                            match c {
                                                Some(v) => as_constant(instr, Some(home), v),
                                                None => reformed(
                                                    instr,
                                                    Some(home),
                                                    st.table,
                                                    st.var2num,
                                                ),
                                            },
                                        ),
                                    ),
                                }
                            },
                        }
                    } else {
                        LvnState {
                            out: st.out.push(
                                CodeView::Instruction(reformed(instr, None, st.table, st.var2num)),
                            ),
                            ..st
                        }
                    }
                },
                InstrView::Effect { .. } => LvnState {
                    out: st.out.push(
                        CodeView::Instruction(reformed(instr, None, st.table, st.var2num)),
                    ),
                    ..st
                },
            }
        },
    }
}

/// The state after the first `i` items of the block.
pub open spec fn run(b: Seq<CodeView>, i: nat, prop: bool, comm: bool, fold: bool) -> LvnState
    decreases i,
{
    if i == 0 {
        seeded(inputs(b), inputs(b).len())
    } else {
        step(run(b, (i - 1) as nat, prop, comm, fold), b[i - 1], overwritten(b, i - 1), prop, comm, fold)
    }
}

/// The block that value numbering makes of a block.
pub open spec fn lvn_block(b: Seq<CodeView>, prop: bool, comm: bool, fold: bool) -> Seq<CodeView> {
    run(b, b.len(), prop, comm, fold).out
}

/// Whether the value numbers of a block fit the number type.
pub open spec fn lvn_fits(b: Seq<CodeView>) -> bool {
    inputs(b).len() + b.len() < i32::MAX
}

fn arg_values(args: &Vec<String>, var2num: &Vec<(String, i32)>) -> (r: Option<Vec<i32>>)
    ensures
        r is Some <==> all_numbered(bindings(var2num@), names(args@)),
        r is Some ==> r->0@ == arg_numbers(bindings(var2num@), names(args@)),
{
    let mut out: Vec<i32> = Vec::new();
    let mut i: usize = 0;
    while i < args.len()
        invariant
            i <= args.len(),
            out.len() == i,
            forall|k: int| 0 <= k < i ==> bindings(var2num@).contains_key(#[trigger] args[k]@),
            forall|k: int| 0 <= k < i ==> out[k] == bindings(var2num@)[args[k]@],
        decreases args.len() - i,
    {
        match number_of(var2num, &args[i]) {
            Some(num) => {
                out.push(num);
            },
            None => {
                assert(names(args@)[i as int] == args[i as int]@);
                return None;
            },
        }
        i += 1;
    }
    assert(out@ =~= arg_numbers(bindings(var2num@), names(args@)));
    assert forall|k: int| 0 <= k < names(args@).len() implies bindings(var2num@).contains_key(
        #[trigger] names(args@)[k],
    ) by {
        assert(names(args@)[k] == args[k]@);
    }
    Some(out)
}

/// Numbers the values of a block and rewrites it: an instruction whose
/// value a variable already holds becomes a copy of it or, where the value
/// folds to a literal, a constant.
pub fn lvn_pass(block: Block, prop: bool, comm: bool, fold: bool) -> (new_block: Block)
    requires
        lvn_fits(block@),
    ensures
        new_block@ == lvn_block(block@, prop, comm, fold),
{
    let ghost b = block@;
    let mut out: Vec<Code> = Vec::new();
    let mut table = LvnTable::default();
    let mut var2num: Vec<(String, i32)> = Vec::new();
    let mut num2const: HashMap<i32, Literal> = HashMap::new();
    let read = block_inputs(&block.instrs);
    let marks = overwritten_later(&block.instrs);
    let mut k: usize = 0;
    assert(codes(out@) =~= Seq::<CodeView>::empty());
    while k < read.len()
        invariant
            k <= read.len(),
            b == block@,
            names(read@) == inputs(b),
            lvn_fits(b),
            table@ == seeded(inputs(b), k as nat).table,
            table@.len() == k,
            bindings(var2num@) == seeded(inputs(b), k as nat).var2num,
            num2const@ == seeded(inputs(b), k as nat).num2const,
            codes(out@) == seeded(inputs(b), k as nat).out,
        decreases read.len() - k,
    {
        assert(names(read@)[k as int] == read[k as int]@);
        let num = table.add_value(None, &read[k]);
        bind(&mut var2num, read[k].clone(), num);
        k += 1;
    }
    let n = block.instrs.len();
    let mut i: usize = 0;
    while i < n
        invariant
            i <= n,
            n == block.instrs.len(),
            b == block@,
            lvn_fits(b),
            marks.len() == n,
            forall|j: int| 0 <= j < n ==> marks[j] == overwritten(b, j),
            table@.len() <= inputs(b).len() + i,
            table@ == run(b, i as nat, prop, comm, fold).table,
            bindings(var2num@) == run(b, i as nat, prop, comm, fold).var2num,
            num2const@ == run(b, i as nat, prop, comm, fold).num2const,
            codes(out@) == run(b, i as nat, prop, comm, fold).out,
        decreases n - i,
    {
        let ghost st = run(b, i as nat, prop, comm, fold);
        let ghost item = b[i as int];
        let ghost emitted = codes(out@);
        let later = marks[i];
        let code = block.instrs[i].clone();
        assert(code@ == item);
        match code {
            Code::Instruction(instr) => {
                let numbered = match &instr {
                    Instruction::Value { op, args, .. } => {
                        if is_str(op, "call") {
                            None
                        } else {
                            arg_values(args, &var2num)
                        }
                    },
                    _ => None,
                };
                match numbered {
                    Some(nums) => {
                        assert(is_numbered_value(st, instr@));
                        let (op_code, dest_name) = match &instr {
                            Instruction::Value { op, dest, .. } => (op.clone(), dest.clone()),
                            Instruction::Constant { dest, .. } => (dest.clone(), dest.clone()),
                            Instruction::Effect { op, .. } => (op.clone(), op.clone()),
                        };
                        let commutative = is_str(&op_code, "add") || is_str(&op_code, "mul")
                            || is_str(&op_code, "and") || is_str(&op_code, "or") || is_str(
                            &op_code,
                            "eq",
                        );
                        let arg_vals = if comm && commutative {
                            sort_numbers(&nums)
                        } else {
                            nums
                        };
                        let value_expr = ValueExpr::new(op_code, arg_vals);
                        match table.lookup_expr(&value_expr, prop) {
                            Some((num, var)) => {
                                let c = const_fold(&mut num2const, &value_expr, num, fold);
                                bind(&mut var2num, dest_name, num);
                                match c {
                                    Some(constant) => out.push(const_instr(instr, None, constant)),
                                    None => out.push(copy_instr(instr, &var)),
                                }
                            },
                            None => {
                                let new_dest = get_dest(&table, &dest_name, later);
                                let num = table.next_value();
                                let c = const_fold(&mut num2const, &value_expr, num, fold);
                                match c {
                                    Some(constant) => {
                                        table.add_value(Some(value_expr), &new_dest);
                                        bind(&mut var2num, dest_name, num);
                                        bind(&mut var2num, new_dest.clone(), num);
                                        out.push(const_instr(instr, Some(new_dest), constant));
                                    },
                                    None => {
                                        let code = reform_instr(
                                            instr,
                                            Some(new_dest.clone()),
                                            &table,
                                            &var2num,
                                        );
                                        table.add_value(Some(value_expr), &new_dest);
                                        bind(&mut var2num, dest_name, num);
                                        out.push(code);
                                    },
                                }
                            },
                        }
                    },
                    None => {
                        match instr {
                            Instruction::Constant { dest, const_type, value } => {
                                let new_dest = get_dest(&table, &dest, later);
                                let num = table.add_value(None, &new_dest);
                                bind(&mut var2num, dest, num);
                                num2const.insert(num, value);
                                out.push(
                                    Code::Instruction(
                                        Instruction::Constant { dest: new_dest, const_type, value },
                                    ),
                                );
                            },
                            other => {
                                assert(!is_numbered_value(st, other@));
                                out.push(reform_instr(other, None, &table, &var2num));
                            },
                        }
                    },
                }
            },
            Code::Label { label } => {
                out.push(Code::Label { label });
            },
        }
        proof {
            let next = step(st, item, later, prop, comm, fold);
            assert(codes(out@) =~= emitted.push(out[out.len() - 1]@));
            assert(codes(out@) == next.out);
        }
        i += 1;
    }
    Block { instrs: out }
}


/// The body that value numbering makes of a body: the blocks of the body,
/// each numbered by itself, laid end to end.
pub open spec fn lvn_body(code: Seq<CodeView>, prop: bool, comm: bool, fold: bool) -> Seq<
    CodeView,
> {
    crate::form_blocks::flat(
        crate::form_blocks::blocks_of(code).map_values(
            |b: Seq<CodeView>| lvn_block(b, prop, comm, fold),
        ),
    )
}

/// Whether the value numbers of every block of a body fit the number type.
pub open spec fn body_fits(code: Seq<CodeView>) -> bool {
    forall|k: int|
        0 <= k < crate::form_blocks::blocks_of(code).len() ==> lvn_fits(
            #[trigger] crate::form_blocks::blocks_of(code)[k],
        )
}

/// Whether the value numbers of every block of the function fit the number
/// type.
pub fn value_numbers_fit(func: &Function) -> (r: bool)
    ensures
        r == body_fits(codes(func.instrs@)),
{
    let blocks = form_blocks(func);
    let ghost all = crate::form_blocks::blocks_of(codes(func.instrs@));
    let mut i: usize = 0;
    while i < blocks.len()
        invariant
            i <= blocks.len(),
            all == block_views(blocks@),
            all == crate::form_blocks::blocks_of(codes(func.instrs@)),
            forall|k: int| 0 <= k < i ==> lvn_fits(#[trigger] all[k]),
        decreases blocks.len() - i,
    {
        assert(all[i as int] == blocks[i as int]@);
        let read = block_inputs(&blocks[i].instrs);
        assert(read.len() == names(read@).len());
        assert(inputs(all[i as int]).len() == read.len());
        assert(all[i as int].len() == blocks[i as int].instrs.len());
        if read.len() >= 2147483647 || blocks[i].instrs.len() >= 2147483647 - read.len() {
            assert(!lvn_fits(all[i as int]));
            return false;
        }
        i += 1;
    }
    true
}

/// Numbers the values of every block of the function and rewrites the
/// function's body.
pub fn local_value_numbering(func: &mut Function, prop: bool, comm: bool, fold: bool)
    requires
        body_fits(codes(old(func).instrs@)),
    ensures
        codes(final(func).instrs@) == lvn_body(codes(old(func).instrs@), prop, comm, fold),
        final(func).name == old(func).name,
        final(func).args == old(func).args,
        final(func).return_type == old(func).return_type,
{
    let blocks = form_blocks(func);
    let ghost all = crate::form_blocks::blocks_of(codes(func.instrs@));
    let mut new_blocks: Vec<Block> = Vec::new();
    let mut i: usize = 0;
    while i < blocks.len()
        invariant
            i <= blocks.len(),
            all == block_views(blocks@),
            forall|k: int| 0 <= k < all.len() ==> lvn_fits(#[trigger] all[k]),
            new_blocks.len() == i,
            forall|k: int|
                0 <= k < i ==> (#[trigger] new_blocks[k])@ == lvn_block(all[k], prop, comm, fold),
        decreases blocks.len() - i,
    {
        assert(all[i as int] == blocks[i as int]@);
        new_blocks.push(lvn_pass(blocks[i].clone(), prop, comm, fold));
        i += 1;
    }
    assert(block_views(new_blocks@) =~= all.map_values(
        |b: Seq<CodeView>| lvn_block(b, prop, comm, fold),
    ));
    func.instrs = flatten_blocks(new_blocks);
}

} // verus!
