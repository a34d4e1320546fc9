//! The control-flow graph of a function: its blocks under dense numbers and
//! unique labels, with the edges that the terminators name.
use crate::form_blocks::{block_views, ends_block, is_label, well_shaped, Block};
use crate::fresh::{fresh, fresh_name, name_set};
use crate::ir::{clone_codes, codes, effect, is_str, names, Code, CodeView, InstrView, Instruction};
use crate::ordered::{
    distinct_keys, has_key, keys, label_pairs, labels_get_by_left, labels_get_by_right,
    labels_insert, labels_len, labels_new, lemma_upsert_distinct, named_blocks, named_get_index,
    named_insert, named_into_vec, named_len, named_new, numbered_blocks, numbered_get_index,
    numbered_insert, numbered_into_vec, numbered_len, numbered_new, one_to_one, pair_inserted,
    upsert,
};
use bimap::BiMap;
use indexmap::IndexMap;
use std::collections::HashMap;
use vstd::prelude::*;
use vstd::string::*;

verus! {

broadcast use vstd::std_specs::hash::group_hash_axioms;

/// The set of the keys of a list of entries.
pub open spec fn key_set<V>(s: Seq<(Seq<char>, V)>) -> Set<Seq<char>> {
    Set::new(|k: Seq<char>| has_key(s, k))
}

/// The blocks under their names, in order. A block that starts with a label
/// is named by it and loses it; any other block gets the fresh name for the
/// seed `b` among the names so far. A name that comes again replaces the
/// block that bore it, in its place.
pub open spec fn name_blocks(blocks: Seq<Seq<CodeView>>) -> Seq<(Seq<char>, Seq<CodeView>)>
    decreases blocks.len(),
{
    if blocks.len() == 0 {
        Seq::empty()
    } else {
        let prev = name_blocks(blocks.drop_last());
        let b = blocks.last();
        if b.len() > 0 && b[0] is Label {
            upsert(prev, b[0]->label, b.drop_first())
        } else {
            upsert(prev, fresh_name("b"@, key_set(prev)), b)
        }
    }
}

/// The instruction `ret`.
pub open spec fn ret_view() -> InstrView {
    InstrView::Effect { op: "ret"@, args: Seq::empty(), labels: Seq::empty(), funcs: Seq::empty() }
}

/// The instruction `jmp` to a label.
pub open spec fn jmp_view(label: Seq<char>) -> InstrView {
    InstrView::Effect {
        op: "jmp"@,
        args: Seq::empty(),
        labels: seq![label],
        funcs: Seq::empty(),
    }
}

/// Whether a block ends with a terminator.
pub open spec fn closed(b: Seq<CodeView>) -> bool {
    b.len() > 0 && ends_block(b.last())
}

/// The block at a position once it is closed: a block without a terminator
/// at its end gets `ret` if it is the last one, and a `jmp` to the next
/// block otherwise.
pub open spec fn closed_block(named: Seq<(Seq<char>, Seq<CodeView>)>, i: int) -> Seq<CodeView> {
    let b = named[i].1;
    if closed(b) {
        b
    } else if i == named.len() - 1 {
        b.push(CodeView::Instruction(ret_view()))
    } else {
        b.push(CodeView::Instruction(jmp_view(named[i + 1].0)))
    }
}

/// The named blocks with every block closed.
pub open spec fn terminate(named: Seq<(Seq<char>, Seq<CodeView>)>) -> Seq<
    (Seq<char>, Seq<CodeView>),
> {
    Seq::new(named.len(), |i: int| (named[i].0, closed_block(named, i)))
}

/// Names the blocks: by their leading label, which is stripped, or by a
/// fresh name `b<k>`.
pub fn form_block_map(blocks: Vec<Block>) -> (block_map: IndexMap<String, Block>)
    ensures
        named_blocks(block_map) == name_blocks(block_views(blocks@)),
        distinct_keys(named_blocks(block_map)),
{
    let mut block_map = named_new();
    let mut taken: Vec<String> = Vec::new();
    let ghost all = block_views(blocks@);
    let mut i: usize = 0;
    assert(all.take(0) =~= Seq::empty());
    while i < blocks.len()
        invariant
            i <= blocks.len(),
            all == block_views(blocks@),
            named_blocks(block_map) == name_blocks(all.take(i as int)),
            distinct_keys(named_blocks(block_map)),
            name_set(taken@) =~= key_set(named_blocks(block_map)),
        decreases blocks.len() - i,
    {
        let block = &blocks[i];
        let ghost prev = named_blocks(block_map);
        proof {
            assert(all.take(i + 1).drop_last() =~= all.take(i as int));
            assert(all.take(i + 1).last() == block@);
        }
        let mut name: Option<String> = None;
        if block.instrs.len() > 0 {
            if let Code::Label { label } = &block.instrs[0] {
                name = Some(label.clone());
            }
        }
        let ghost old_taken = taken@;
        match name {
            Some(name) => {
                let mut rest: Vec<Code> = Vec::new();
                let mut j: usize = 1;
                while j < block.instrs.len()
                    invariant
                        1 <= j <= block.instrs.len(),
                        codes(rest@) == block@.subrange(1, j as int),
                    decreases block.instrs.len() - j,
                {
                    let ghost before = codes(rest@);
                    rest.push(block.instrs[j].clone());
                    assert(codes(rest@) =~= before.push(block@[j as int]));
                    assert(block@.subrange(1, j + 1) =~= block@.subrange(1, j as int).push(
                        block@[j as int],
                    ));
                    j += 1;
                }
                assert(block@.subrange(1, j as int) =~= block@.drop_first());
                taken.push(name.clone());
                named_insert(&mut block_map, name, Block { instrs: rest });
                proof {
                    lemma_upsert_distinct(prev, name@, block@.drop_first());
                    lemma_key_set_upsert(prev, name@, block@.drop_first());
                    assert(taken@.drop_last() =~= old_taken);
                    lemma_name_set_push(old_taken, taken@);
                }
            },
            None => {
                let name = fresh("b", &taken);
                taken.push(name.clone());
                named_insert(&mut block_map, name, block.clone());
                proof {
                    lemma_upsert_distinct(prev, name@, block@);
                    lemma_key_set_upsert(prev, name@, block@);
                    assert(taken@.drop_last() =~= old_taken);
                    lemma_name_set_push(old_taken, taken@);
                }
            },
        }
        i += 1;
    }
    assert(all.take(i as int) =~= all);
    block_map
}

/// The keys after an insertion are the keys before it and the new key.
pub proof fn lemma_key_set_upsert<V>(s: Seq<(Seq<char>, V)>, k: Seq<char>, v: V)
    ensures
        key_set(upsert(s, k, v)) =~= key_set(s).insert(k),
{
    let t = upsert(s, k, v);
    assert forall|x: Seq<char>| key_set(t).contains(x) <==> key_set(s).insert(k).contains(x) by {
        if has_key(s, k) {
            if has_key(t, x) {
                let i = choose|i: int| 0 <= i < t.len() && (#[trigger] t[i]).0 == x;
                assert(s[i].0 == x);
            }
            if has_key(s, x) {
                let i = choose|i: int| 0 <= i < s.len() && (#[trigger] s[i]).0 == x;
                assert(t[i].0 == x);
            }
        } else {
            if has_key(t, x) {
                let i = choose|i: int| 0 <= i < t.len() && (#[trigger] t[i]).0 == x;
                if i < s.len() {
                    assert(s[i].0 == x);
                }
            }
            if has_key(s, x) {
                let i = choose|i: int| 0 <= i < s.len() && (#[trigger] s[i]).0 == x;
                assert(t[i].0 == x);
            }
            if x == k {
                assert(t[s.len() as int].0 == k);
            }
        }
    }
}

/// The names of a list that grew by one are the names before and the new
/// one.
pub proof fn lemma_name_set_push(before: Seq<String>, after: Seq<String>)
    requires
        after.len() == before.len() + 1,
        after.drop_last() == before,
    ensures
        name_set(after) =~= name_set(before).insert(after.last()@),
{
    assert forall|x: Seq<char>| name_set(after).contains(x) <==> name_set(before).insert(
        after.last()@,
    ).contains(x) by {
        if name_set(after).contains(x) {
            let i = choose|i: int| 0 <= i < after.len() && #[trigger] after[i]@ == x;
            if i < before.len() {
                assert(before[i]@ == x);
            }
        }
        if name_set(before).contains(x) {
            let i = choose|i: int| 0 <= i < before.len() && #[trigger] before[i]@ == x;
            assert(after[i]@ == x);
        }
    }
}

/// Closes every block: one that does not end with a terminator gets `ret`
/// if it is the last, and a `jmp` to the block after it otherwise.
pub fn add_terminators(block_map: IndexMap<String, Block>) -> (closed_map: IndexMap<
    String,
    Block,
>)
    requires
        distinct_keys(named_blocks(block_map)),
    ensures
        named_blocks(closed_map) == terminate(named_blocks(block_map)),
        distinct_keys(named_blocks(closed_map)),
{
    let mut block_map = block_map;
    let ghost start = named_blocks(block_map);
    let n = named_len(&block_map);
    let mut i: usize = 0;
    while i < n
        invariant
            i <= n,
            n == start.len(),
            named_blocks(block_map).len() == n,
            distinct_keys(start),
            forall|k: int| 0 <= k < n ==> (#[trigger] named_blocks(block_map)[k]).0 == start[k].0,
            forall|k: int| 0 <= k < i ==> (#[trigger] named_blocks(block_map)[k]).1 == closed_block(start, k),
            forall|k: int| i <= k < n ==> (#[trigger] named_blocks(block_map)[k]).1 == start[k].1,
        decreases n - i,
    {
        let ghost cur = named_blocks(block_map);
        let (name, block) = named_get_index(&block_map, i);
        let mut instr: Option<Instruction> = None;
        let has_terminator = if block.instrs.len() > 0 {
            match &block.instrs[block.instrs.len() - 1] {
                Code::Instruction(last_instr) => last_instr.is_terminator(),
                Code::Label { .. } => false,
            }
        } else {
            false
        };
        assert(has_terminator == closed(start[i as int].1));
        if !has_terminator {
            if i == n - 1 {
                instr = Some(effect("ret", Vec::new()));
                assert(names(Seq::<String>::empty()) =~= Seq::<Seq<char>>::empty());
            } else {
                let (dest, _) = named_get_index(&block_map, i + 1);
                let mut labels: Vec<String> = Vec::new();
                labels.push(dest.clone());
                assert(names(labels@) =~= seq![start[i + 1].0]);
                instr = Some(effect("jmp", labels));
            }
        }
        if let Some(instr) = instr {
            let mut new_instrs = clone_codes(&block.instrs);
            let ghost before = codes(new_instrs@);
            new_instrs.push(Code::Instruction(instr));
            assert(codes(new_instrs@) =~= before.push(CodeView::Instruction(instr@)));
            let key = name.clone();
            named_insert(&mut block_map, key, Block { instrs: new_instrs });
            proof {
                let after = named_blocks(block_map);
                assert(cur[i as int].0 == key@);
                assert(has_key(cur, key@));
                assert forall|k: int| 0 <= k < n implies (#[trigger] after[k]).0 == start[k].0
                    && (k != i ==> after[k].1 == cur[k].1) && (k == i ==> after[k].1
                    == closed_block(start, k)) by {
                    if k != i {
                        assert(cur[k].0 != cur[i as int].0);
                    }
                }
            }
        }
        i += 1;
    }
    proof {
        let fin = named_blocks(block_map);
        assert(fin =~= terminate(start));
        assert forall|a: int, b: int|
            0 <= a < fin.len() && 0 <= b < fin.len() && a != b implies (#[trigger] fin[a]).0 != (
        #[trigger] fin[b]).0 by {
            assert(fin[a].0 == start[a].0);
            assert(fin[b].0 == start[b].0);
        }
    }
    block_map
}


/// A control-flow graph.
///
/// `block_map` holds the blocks under their numbers, the entry block first;
/// `name_map` pairs each number with the block's label; `succ` and `pred`
/// give the successors and predecessors of each block, an edge once for each
/// time the terminator names it.
pub struct Cfg {
    pub succ: HashMap<i32, Vec<i32>>,
    pub pred: HashMap<i32, Vec<i32>>,
    pub block_map: IndexMap<i32, Block>,
    pub name_map: BiMap<i32, String>,
}

/// The labels that the end of a block jumps to: those of a `jmp` or `br`
/// that stands last, in the order given.
pub open spec fn jump_labels(b: Seq<CodeView>) -> Seq<Seq<char>> {
    if b.len() == 0 {
        Seq::empty()
    } else {
        match b.last() {
            CodeView::Instruction(i) => if i.op() == "jmp"@ || i.op() == "br"@ {
                i.labels()
            } else {
                Seq::empty()
            },
            CodeView::Label { .. } => Seq::empty(),
        }
    }
}

/// Whether a number bears the label.
pub open spec fn bears(pairs: Map<i32, Seq<char>>, k: i32, label: Seq<char>) -> bool {
    pairs.contains_key(k) && pairs[k] == label
}

/// The number of the block that bears a label, if there is one.
pub open spec fn label_id(pairs: Map<i32, Seq<char>>, label: Seq<char>) -> Option<i32> {
    if exists|k: i32| bears(pairs, k, label) {
        Some(choose|k: i32| bears(pairs, k, label))
    } else {
        None
    }
}

/// The numbers of the blocks that the labels name, in order; a label that
/// no block bears names none.
pub open spec fn resolve(pairs: Map<i32, Seq<char>>, labels: Seq<Seq<char>>) -> Seq<i32>
    decreases labels.len(),
{
    if labels.len() == 0 {
        Seq::empty()
    } else {
        let r = resolve(pairs, labels.drop_last());
        match label_id(pairs, labels.last()) {
            Some(k) => r.push(k),
            None => r,
        }
    }
}

/// The source `u`, once for each time `v` stands among its targets.
pub open spec fn occurrences(u: i32, targets: Seq<i32>, v: i32) -> Seq<i32>
    decreases targets.len(),
{
    if targets.len() == 0 {
        Seq::empty()
    } else {
        let r = occurrences(u, targets.drop_last(), v);
        if targets.last() == v {
            r.push(u)
        } else {
            r
        }
    }
}

/// The sources of the edges into `v` among the first `k` blocks, by
/// ascending number, each once for every edge.
pub open spec fn incoming(lists: Seq<Seq<i32>>, k: nat, v: i32) -> Seq<i32>
    decreases k,
{
    if k == 0 {
        Seq::empty()
    } else {
        incoming(lists, (k - 1) as nat, v) + occurrences((k - 1) as i32, lists[k - 1], v)
    }
}

/// The labels of blocks numbered by their place in a list of names.
pub open spec fn label_map(names: Seq<Seq<char>>) -> Map<i32, Seq<char>> {
    Map::new(|k: i32| 0 <= k < names.len(), |k: i32| names[k as int])
}

/// The blocks numbered by their place in a list of named blocks.
pub open spec fn number_blocks(named: Seq<(Seq<char>, Seq<CodeView>)>) -> Seq<
    (i32, Seq<CodeView>),
> {
    Seq::new(named.len(), |i: int| (i as i32, named[i].1))
}

impl Cfg {
    /// The blocks with their numbers, in the order of the block map.
    pub open spec fn entries(&self) -> Seq<(i32, Seq<CodeView>)> {
        numbered_blocks(self.block_map)
    }

    /// The label of each block number.
    pub open spec fn labels(&self) -> Map<i32, Seq<char>> {
        label_pairs(self.name_map)
    }

    /// The number of blocks.
    pub open spec fn size(&self) -> nat {
        self.entries().len()
    }

    /// Whether the number is that of a block.
    pub open spec fn is_block(&self, b: i32) -> bool {
        0 <= b < self.size()
    }

    /// The successors of a block.
    pub open spec fn succs(&self, b: i32) -> Seq<i32> {
        self.succ@[b]@
    }

    /// The predecessors of a block.
    pub open spec fn preds(&self, b: i32) -> Seq<i32> {
        self.pred@[b]@
    }

    /// The successor lists by ascending block number.
    pub open spec fn succ_lists(&self) -> Seq<Seq<i32>> {
        Seq::new(self.size(), |i: int| self.succs(i as i32))
    }

    /// The number of the entry block.
    pub open spec fn entry(&self) -> i32 {
        self.entries()[0].0
    }

    /// The body of the block with the given number.
    pub open spec fn body(&self, b: i32) -> Seq<CodeView> {
        self.entries()[self.place(b)].1
    }

    /// The place in the block map of the block with the given number.
    pub open spec fn place(&self, b: i32) -> int {
        choose|p: int| 0 <= p < self.size() && (#[trigger] self.entries()[p]).0 == b
    }

    /// The invariant of a graph: the blocks are numbered densely from zero,
    /// each with its own label; the successors of a block are the blocks
    /// that its jump labels name; and the predecessors of a block are the
    /// sources of the edges into it.
    pub open spec fn wf(&self) -> bool {
        &&& self.size() <= i32::MAX
        &&& distinct_keys(self.entries())
        &&& forall|p: int| 0 <= p < self.size() ==> self.is_block((#[trigger] self.entries()[p]).0)
        &&& self.labels().dom() =~= Set::new(|k: i32| self.is_block(k))
        &&& one_to_one(self.labels())
        &&& self.succ@.dom() =~= Set::new(|k: i32| self.is_block(k))
        &&& self.pred@.dom() =~= Set::new(|k: i32| self.is_block(k))
        &&& forall|p: int|
            0 <= p < self.size() ==> self.succs((#[trigger] self.entries()[p]).0) == resolve(
                self.labels(),
                jump_labels(self.entries()[p].1),
            )
        &&& forall|v: i32|
            self.is_block(v) ==> #[trigger] self.preds(v) == incoming(
                self.succ_lists(),
                self.size(),
                v,
            )
    }

    /// Whether every block ends with a terminator.
    pub open spec fn all_closed(&self) -> bool {
        forall|p: int| 0 <= p < self.size() ==> closed((#[trigger] self.entries()[p]).1)
    }

    /// Whether no edge leads into the entry block.
    pub open spec fn clean_entry(&self) -> bool {
        self.size() > 0 ==> self.preds(self.entry()).len() == 0
    }

    /// Adds a block under the next number, with the given label.
    pub fn add_block(&mut self, name: String, block: Block)
        requires
            old(self).labels().dom().finite(),
            old(self).labels().dom().len() < i32::MAX,
        ensures
            final(self).labels() == pair_inserted(
                old(self).labels(),
                old(self).labels().dom().len() as i32,
                name@,
            ),
            final(self).entries() == upsert(
                old(self).entries(),
                old(self).labels().dom().len() as i32,
                block@,
            ),
            final(self).succ == old(self).succ,
            final(self).pred == old(self).pred,
    {
        let num = labels_len(&self.name_map) as i32;
        labels_insert(&mut self.name_map, num, name);
        numbered_insert(&mut self.block_map, num, block);
    }
}

impl Default for Cfg {
    fn default() -> (cfg: Self)
        ensures
            cfg.entries().len() == 0,
            cfg.labels() == Map::<i32, Seq<char>>::empty(),
            cfg.succ@ == Map::<i32, Vec<i32>>::empty(),
            cfg.pred@ == Map::<i32, Vec<i32>>::empty(),
    {
        Cfg {
            succ: HashMap::new(),
            pred: HashMap::new(),
            block_map: numbered_new(),
            name_map: labels_new(),
        }
    }
}

/// The first `n` block numbers are `n` in number.
pub proof fn lemma_label_map_dom(names: Seq<Seq<char>>)
    requires
        names.len() <= i32::MAX,
    ensures
        label_map(names).dom().finite(),
        label_map(names).dom().len() == names.len(),
    decreases names.len(),
{
    if names.len() == 0 {
        assert(label_map(names).dom() =~= Set::<i32>::empty());
    } else {
        let prev = names.drop_last();
        lemma_label_map_dom(prev);
        assert(label_map(names).dom() =~= label_map(prev).dom().insert((names.len() - 1) as i32));
    }
}

/// With labels that are one to one, the block that bears a label is the
/// only one.
pub proof fn lemma_label_id(pairs: Map<i32, Seq<char>>, k: i32, label: Seq<char>)
    requires
        one_to_one(pairs),
        bears(pairs, k, label),
    ensures
        label_id(pairs, label) == Some(k),
{
    let c = choose|c: i32| bears(pairs, c, label);
    if c != k {
        assert(pairs[c] != pairs[k]);
    }
}

/// The successors of a block: the numbers of the blocks that the labels of
/// its terminator name.
pub fn term_successors(block: &Block, name_map: &BiMap<i32, String>) -> (targets: Vec<i32>)
    requires
        one_to_one(label_pairs(*name_map)),
    ensures
        targets@ == resolve(label_pairs(*name_map), jump_labels(block@)),
{
    let mut targets: Vec<i32> = Vec::new();
    if block.instrs.len() == 0 {
        return targets;
    }
    match &block.instrs[block.instrs.len() - 1] {
        Code::Instruction(instr) => {
            let op = instr.get_op();
            if is_str(&op, "jmp") || is_str(&op, "br") {
                let labels = match instr {
                    Instruction::Value { labels, .. } => labels,
                    Instruction::Effect { labels, .. } => labels,
                    Instruction::Constant { .. } => {
                        proof {
                            reveal_strlit("jmp");
                            reveal_strlit("br");
                            reveal_strlit("const");
                        }
                        assert("const"@ != "jmp"@) by {
                            assert("const"@.len() != "jmp"@.len());
                        }
                        assert("const"@ != "br"@) by {
                            assert("const"@.len() != "br"@.len());
                        }
                        return targets;
                    },
                };
                let ghost wanted = names(labels@);
                assert(wanted == jump_labels(block@));
                let mut j: usize = 0;
                assert(wanted.take(0) =~= Seq::empty());
                while j < labels.len()
                    invariant
                        j <= labels.len(),
                        wanted == names(labels@),
                        one_to_one(label_pairs(*name_map)),
                        targets@ == resolve(label_pairs(*name_map), wanted.take(j as int)),
                    decreases labels.len() - j,
                {
                    proof {
                        assert(wanted.take(j + 1).drop_last() =~= wanted.take(j as int));
                        assert(wanted.take(j + 1).last() == labels[j as int]@);
                    }
                    match labels_get_by_right(name_map, &labels[j]) {
                        Some(id) => {
                            proof {
                                lemma_label_id(label_pairs(*name_map), id, labels[j as int]@);
                            }
                            targets.push(id);
                        },
                        None => {
                            assert(label_id(label_pairs(*name_map), labels[j as int]@) is None);
                        },
                    }
                    j += 1;
                }
                assert(wanted.take(j as int) =~= wanted);
            }
        },
        Code::Label { .. } => {},
    }
    targets
}


/// Copies a list of block numbers.
pub fn copy_ids(v: &Vec<i32>) -> (r: Vec<i32>)
    ensures
        r@ == v@,
{
    let mut out: Vec<i32> = Vec::new();
    let mut i: usize = 0;
    while i < v.len()
        invariant
            i <= v.len(),
            out@ == v@.take(i as int),
        decreases v.len() - i,
    {
        out.push(v[i]);
        assert(v@.take(i + 1) =~= v@.take(i as int).push(v[i as int]));
        i += 1;
    }
    assert(v@.take(i as int) =~= v@);
    out
}

/// The models of a list of lists of block numbers.
pub open spec fn id_lists(lists: Seq<Vec<i32>>) -> Seq<Seq<i32>> {
    lists.map_values(|l: Vec<i32>| l@)
}

/// Whether every target is the number of one of `n` blocks.
pub open spec fn targets_within(lists: Seq<Seq<i32>>, n: int) -> bool {
    forall|u: int, j: int|
        0 <= u < lists.len() && 0 <= j < lists[u].len() ==> 0 <= (#[trigger] lists[u][j]) < n
}

/// The numbers that labels resolve to are numbers that bear a label.
pub proof fn lemma_resolve_in_dom(pairs: Map<i32, Seq<char>>, labels: Seq<Seq<char>>)
    ensures
        forall|j: int|
            0 <= j < resolve(pairs, labels).len() ==> pairs.contains_key(
                #[trigger] resolve(pairs, labels)[j],
            ),
    decreases labels.len(),
{
    if labels.len() > 0 {
        lemma_resolve_in_dom(pairs, labels.drop_last());
        let prev = resolve(pairs, labels.drop_last());
        let all = resolve(pairs, labels);
        if exists|k: i32| bears(pairs, k, labels.last()) {
            let c = choose|c: i32| bears(pairs, c, labels.last());
            assert(bears(pairs, c, labels.last()));
            assert(all == prev.push(c));
        } else {
            assert(all == prev);
        }
        assert forall|j: int| 0 <= j < all.len() implies pairs.contains_key(#[trigger] all[j]) by {
            if j < prev.len() {
                assert(all[j] == prev[j]);
            }
        }
    }
}

/// The edges into a block count only the lists of the blocks looked at.
pub proof fn lemma_incoming_prefix(a: Seq<Seq<i32>>, b: Seq<Seq<i32>>, k: nat, v: i32)
    requires
        k <= a.len(),
        k <= b.len(),
        forall|i: int| 0 <= i < k ==> a[i] == b[i],
    ensures
        incoming(a, k, v) == incoming(b, k, v),
    decreases k,
{
    if k > 0 {
        lemma_incoming_prefix(a, b, (k - 1) as nat, v);
    }
}

/// A block is among the sources of the edges into `v` exactly when `v` is
/// among its targets.
pub proof fn lemma_occurrences(u: i32, targets: Seq<i32>, v: i32)
    ensures
        forall|j: int| 0 <= j < occurrences(u, targets, v).len() ==> occurrences(u, targets, v)[j] == u,
        occurrences(u, targets, v).len() > 0 <==> targets.contains(v),
    decreases targets.len(),
{
    if targets.len() > 0 {
        lemma_occurrences(u, targets.drop_last(), v);
        let prev = targets.drop_last();
        if targets.contains(v) {
            let j = choose|j: int| 0 <= j < targets.len() && targets[j] == v;
            if j < targets.len() - 1 {
                assert(prev[j] == v);
            }
        }
        if prev.contains(v) {
            let j = choose|j: int| 0 <= j < prev.len() && prev[j] == v;
            assert(targets[j] == v);
        }
        if targets.last() == v {
            assert(targets[targets.len() - 1] == v);
        }
    }
}

/// `u` is a source of an edge into `v` exactly when it is one of the first
/// `k` blocks and `v` is among its successors.
pub proof fn lemma_incoming_contains(lists: Seq<Seq<i32>>, k: nat, v: i32, u: i32)
    requires
        k <= lists.len(),
        k <= i32::MAX,
    ensures
        incoming(lists, k, v).contains(u) <==> (0 <= u < k && lists[u as int].contains(v)),
    decreases k,
{
    if k > 0 {
        let prev = incoming(lists, (k - 1) as nat, v);
        let last = occurrences((k - 1) as i32, lists[k - 1], v);
        lemma_incoming_contains(lists, (k - 1) as nat, v, u);
        lemma_occurrences((k - 1) as i32, lists[k - 1], v);
        if (prev + last).contains(u) {
            let j = choose|j: int| 0 <= j < (prev + last).len() && (prev + last)[j] == u;
            if j < prev.len() {
                assert(prev[j] == u);
            } else {
                assert(last[j - prev.len()] == u);
            }
        }
        if prev.contains(u) {
            let j = choose|j: int| 0 <= j < prev.len() && prev[j] == u;
            assert((prev + last)[j] == u);
        }
        if u == k - 1 && lists[u as int].contains(v) {
            assert(last.len() > 0);
            assert((prev + last)[prev.len() as int] == last[0]);
        }
    }
}

/// The predecessor lists of a graph given by its successor lists.
pub fn pred_lists(succ_lists: &Vec<Vec<i32>>) -> (preds: Vec<Vec<i32>>)
    requires
        succ_lists.len() <= i32::MAX,
        targets_within(id_lists(succ_lists@), succ_lists.len() as int),
    ensures
        preds.len() == succ_lists.len(),
        forall|v: int|
            0 <= v < preds.len() ==> (#[trigger] preds[v])@ == incoming(
                id_lists(succ_lists@),
                succ_lists.len() as nat,
                v as i32,
            ),
{
    let n = succ_lists.len();
    let ghost lists = id_lists(succ_lists@);
    let mut preds: Vec<Vec<i32>> = Vec::new();
    let mut k: usize = 0;
    while k < n
        invariant
            k <= n,
            preds.len() == k,
            forall|v: int| 0 <= v < k ==> (#[trigger] preds[v])@ == Seq::<i32>::empty(),
        decreases n - k,
    {
        preds.push(Vec::new());
        k += 1;
    }
    let mut u: usize = 0;
    while u < n
        invariant
            u <= n,
            n == succ_lists.len(),
            n <= i32::MAX,
            lists == id_lists(succ_lists@),
            targets_within(lists, n as int),
            preds.len() == n,
            forall|v: int| 0 <= v < n ==> (#[trigger] preds[v])@ == incoming(lists, u as nat, v as i32),
        decreases n - u,
    {
        let targets = &succ_lists[u];
        assert(lists[u as int] == targets@);
        let mut j: usize = 0;
        while j < targets.len()
            invariant
                j <= targets.len(),
                u < n,
                n <= i32::MAX,
                lists.len() == n,
                lists[u as int] == targets@,
                targets_within(lists, n as int),
                preds.len() == n,
                forall|v: int|
                    0 <= v < n ==> (#[trigger] preds[v])@ == incoming(lists, u as nat, v as i32)
                        + occurrences(u as i32, targets@.take(j as int), v as i32),
            decreases targets.len() - j,
        {
            let t = targets[j];
            assert(t == lists[u as int][j as int]);
            assert(0 <= t < n);
            let ghost before = preds@;
            let mut list = copy_ids(&preds[t as usize]);
            list.push(u as i32);
            preds.set(t as usize, list);
            proof {
                assert(targets@.take(j + 1).drop_last() =~= targets@.take(j as int));
                assert forall|v: int| 0 <= v < n implies (#[trigger] preds[v])@ == incoming(
                    lists,
                    u as nat,
                    v as i32,
                ) + occurrences(u as i32, targets@.take(j + 1), v as i32) by {
                    if v == t {
                        assert(preds[v]@ == before[v]@.push(u as i32));
                        assert(preds[v]@ =~= incoming(lists, u as nat, v as i32) + occurrences(
                            u as i32,
                            targets@.take(j as int),
                            v as i32,
                        ).push(u as i32));
                    } else {
                        assert(preds[v] == before[v]);
                    }
                }
            }
            j += 1;
        }
        assert(targets@.take(j as int) =~= targets@);
        u += 1;
    }
    preds
}

/// The map from each block number to its list.
pub fn to_map(lists: &Vec<Vec<i32>>) -> (m: HashMap<i32, Vec<i32>>)
    requires
        lists.len() <= i32::MAX,
    ensures
        m@.dom() =~= Set::new(|k: i32| 0 <= k < lists.len()),
        forall|k: i32| 0 <= k < lists.len() ==> (#[trigger] m@[k])@ == lists[k as int]@,
{
    let mut m: HashMap<i32, Vec<i32>> = HashMap::new();
    let mut i: usize = 0;
    while i < lists.len()
        invariant
            i <= lists.len() <= i32::MAX,
            m@.dom() =~= Set::new(|k: i32| 0 <= k < i),
            forall|k: i32| 0 <= k < i ==> (#[trigger] m@[k])@ == lists[k as int]@,
        decreases lists.len() - i,
    {
        m.insert(i as i32, copy_ids(&lists[i]));
        i += 1;
    }
    m
}

/// Numbers the blocks in order, records their labels, and adds the edges
/// that the terminators name.
pub fn add_edges(block_map: IndexMap<String, Block>) -> (cfg: Cfg)
    requires
        distinct_keys(named_blocks(block_map)),
        named_blocks(block_map).len() < i32::MAX,
    ensures
        cfg.wf(),
        cfg.entries() == number_blocks(named_blocks(block_map)),
        cfg.labels() == label_map(keys(named_blocks(block_map))),
{
    let ghost named = named_blocks(block_map);
    let ghost ks = keys(named);
    let items = named_into_vec(block_map);
    let n = items.len();
    let mut cfg = Cfg::default();
    let mut i: usize = 0;
    assert(cfg.entries() =~= number_blocks(named.take(0)));
    assert(cfg.labels() =~= label_map(ks.take(0)));
    while i < n
        invariant
            i <= n,
            n == named.len(),
            n < i32::MAX,
            ks == keys(named),
            distinct_keys(named),
            items.len() == n,
            forall|k: int|
                0 <= k < n ==> (#[trigger] items[k]).0@ == named[k].0 && items[k].1@ == named[k].1,
            cfg.entries() == number_blocks(named.take(i as int)),
            cfg.labels() == label_map(ks.take(i as int)),
            cfg.succ@ == Map::<i32, Vec<i32>>::empty(),
            cfg.pred@ == Map::<i32, Vec<i32>>::empty(),
        decreases n - i,
    {
        let ghost before_entries = cfg.entries();
        let ghost before_labels = cfg.labels();
        proof {
            lemma_label_map_dom(ks.take(i as int));
        }
        cfg.add_block(items[i].0.clone(), items[i].1.clone());
        proof {
            let name = named[i as int].0;
            assert(forall|k: i32|
                before_labels.contains_key(k) ==> #[trigger] before_labels[k] != name) by {
                assert forall|k: i32| before_labels.contains_key(k) implies #[trigger] before_labels[k]
                    != name by {
                    assert(named[k as int].0 != named[i as int].0);
                }
            }
            assert(cfg.labels() =~= label_map(ks.take(i + 1)));
            assert(!has_key(before_entries, i as i32));
            assert(cfg.entries() =~= number_blocks(named.take(i + 1)));
        }
        i += 1;
    }
    assert(named.take(n as int) =~= named);
    assert(ks.take(n as int) =~= ks);
    let mut succ_lists: Vec<Vec<i32>> = Vec::new();
    let mut p: usize = 0;
    proof {
        assert forall|a: i32, b: i32|
            cfg.labels().contains_key(a) && cfg.labels().contains_key(b) && a != b implies #[trigger] cfg.labels()[a]
            != #[trigger] cfg.labels()[b] by {
            assert(named[a as int].0 != named[b as int].0);
        }
    }
    while p < n
        invariant
            p <= n,
            n == named.len(),
            n < i32::MAX,
            cfg.entries() == number_blocks(named),
            cfg.labels() == label_map(ks),
            ks.len() == n,
            one_to_one(cfg.labels()),
            succ_lists.len() == p,
            forall|k: int|
                0 <= k < p ==> (#[trigger] succ_lists[k])@ == resolve(
                    cfg.labels(),
                    jump_labels(named[k].1),
                ),
        decreases n - p,
    {
        let (_, block) = numbered_get_index(&cfg.block_map, p);
        let targets = term_successors(block, &cfg.name_map);
        succ_lists.push(targets);
        p += 1;
    }
    proof {
        let lists = id_lists(succ_lists@);
        assert forall|u: int, j: int|
            0 <= u < lists.len() && 0 <= j < lists[u].len() implies 0 <= (#[trigger] lists[u][j])
            < n by {
            lemma_resolve_in_dom(cfg.labels(), jump_labels(named[u].1));
            assert(cfg.labels().contains_key(lists[u][j]));
        }
    }
    let preds = pred_lists(&succ_lists);
    cfg.succ = to_map(&succ_lists);
    cfg.pred = to_map(&preds);
    proof {
        assert(cfg.succ_lists() =~= id_lists(succ_lists@));
        assert forall|p: int| 0 <= p < cfg.size() implies cfg.succs((#[trigger] cfg.entries()[p]).0)
            == resolve(cfg.labels(), jump_labels(cfg.entries()[p].1)) by {
            assert(cfg.entries()[p].0 == p as i32);
        }
        assert forall|v: i32| cfg.is_block(v) implies #[trigger] cfg.preds(v) == incoming(
            cfg.succ_lists(),
            cfg.size(),
            v,
        ) by {
            assert(preds[v as int]@ == incoming(id_lists(succ_lists@), n as nat, v));
        }
    }
    cfg
}


/// The labels of the first `p` blocks of the block map, each followed by
/// the labels that its block jumps to.
pub open spec fn labels_in_use(
    entries: Seq<(i32, Seq<CodeView>)>,
    pairs: Map<i32, Seq<char>>,
    p: nat,
) -> Seq<Seq<char>>
    decreases p,
{
    if p == 0 {
        Seq::empty()
    } else {
        labels_in_use(entries, pairs, (p - 1) as nat).push(pairs[entries[p - 1].0]) + jump_labels(
            entries[p - 1].1,
        )
    }
}

/// The names of a list are the members of its model.
pub proof fn lemma_name_set_members(list: Seq<String>)
    ensures
        name_set(list) =~= names(list).to_set(),
{
    assert forall|x: Seq<char>| name_set(list).contains(x) <==> names(list).to_set().contains(
        x,
    ) by {
        if name_set(list).contains(x) {
            let i = choose|i: int| 0 <= i < list.len() && #[trigger] list[i]@ == x;
            assert(names(list)[i] == x);
        }
        if names(list).contains(x) {
            let i = choose|i: int| 0 <= i < names(list).len() && names(list)[i] == x;
            assert(list[i]@ == x);
        }
    }
}

/// A label that is new and borne by a new number changes nothing in what
/// other labels resolve to.
pub proof fn lemma_resolve_extend(
    pairs: Map<i32, Seq<char>>,
    n: i32,
    fresh_label: Seq<char>,
    labels: Seq<Seq<char>>,
)
    requires
        one_to_one(pairs),
        !pairs.contains_key(n),
        !labels.contains(fresh_label),
        forall|k: i32| pairs.contains_key(k) ==> #[trigger] pairs[k] != fresh_label,
    ensures
        resolve(pairs.insert(n, fresh_label), labels) == resolve(pairs, labels),
    decreases labels.len(),
{
    let more = pairs.insert(n, fresh_label);
    if labels.len() > 0 {
        let l = labels.last();
        assert forall|x: Seq<char>| labels.drop_last().contains(x) implies labels.contains(x) by {
            let j = choose|j: int| 0 <= j < labels.drop_last().len() && labels.drop_last()[j] == x;
            assert(labels[j] == x);
        }
        lemma_resolve_extend(pairs, n, fresh_label, labels.drop_last());
        assert(labels[labels.len() - 1] == l);
        assert(l != fresh_label);
        assert(one_to_one(more));
        if exists|k: i32| bears(pairs, k, l) {
            let k = choose|k: i32| bears(pairs, k, l);
            assert(bears(more, k, l));
            lemma_label_id(pairs, k, l);
            lemma_label_id(more, k, l);
        } else {
            assert forall|k: i32| !bears(more, k, l) by {
                if bears(more, k, l) {
                    assert(k != n);
                    assert(bears(pairs, k, l));
                }
            }
        }
    }
}

/// Gives the graph an entry block without incoming edges: where an edge
/// leads into the first block, a block that only jumps to it is put before
/// it, under the next number and a fresh label `entry<k>`.
pub fn add_entry(cfg: Cfg) -> (r: Cfg)
    requires
        cfg.wf(),
        cfg.size() < i32::MAX,
    ensures
        r.wf(),
        r.clean_entry(),
        cfg.all_closed() ==> r.all_closed(),
        cfg.size() > 0 && cfg.preds(cfg.entry()).len() > 0 ==> {
            &&& r.entries() == seq![
                (
                    cfg.size() as i32,
                    seq![CodeView::Instruction(jmp_view(cfg.labels()[cfg.entry()]))],
                ),
            ] + cfg.entries()
            &&& r.labels() == cfg.labels().insert(
                cfg.size() as i32,
                fresh_name(
                    "entry"@,
                    labels_in_use(cfg.entries(), cfg.labels(), cfg.size()).to_set(),
                ),
            )
        },
        !(cfg.size() > 0 && cfg.preds(cfg.entry()).len() > 0) ==> {
            &&& r.entries() == cfg.entries()
            &&& r.labels() == cfg.labels()
            &&& r.succ == cfg.succ
            &&& r.pred == cfg.pred
        },
{
    let n = numbered_len(&cfg.block_map);
    if n == 0 {
        return cfg;
    }
    let (first_num, _) = numbered_get_index(&cfg.block_map, 0);
    assert(cfg.is_block(cfg.entries()[0].0));
    let first_preds = match cfg.pred.get(&first_num) {
        Some(l) => copy_ids(l),
        None => Vec::new(),
    };
    if first_preds.len() == 0 {
        return cfg;
    }
    let first_label = match labels_get_by_left(&cfg.name_map, first_num) {
        Some(l) => l.clone(),
        None => String::from_str("entry"),
    };
    let ghost entries = cfg.entries();
    let ghost pairs = cfg.labels();
    let ghost old_lists = cfg.succ_lists();
    let mut taken: Vec<String> = Vec::new();
    let mut p: usize = 0;
    assert(names(taken@) =~= labels_in_use(entries, pairs, 0));
    while p < n
        invariant
            p <= n,
            n == entries.len(),
            entries == cfg.entries(),
            pairs == cfg.labels(),
            cfg.wf(),
            names(taken@) == labels_in_use(entries, pairs, p as nat),
        decreases n - p,
    {
        let (num, block) = numbered_get_index(&cfg.block_map, p);
        assert(cfg.is_block(entries[p as int].0));
        let ghost before = names(taken@);
        match labels_get_by_left(&cfg.name_map, num) {
            Some(l) => {
                taken.push(l.clone());
            },
            None => {},
        }
        assert(names(taken@) =~= before.push(pairs[num]));
        if block.instrs.len() > 0 {
            if let Code::Instruction(instr) = &block.instrs[block.instrs.len() - 1] {
                let op = instr.get_op();
                if is_str(&op, "jmp") || is_str(&op, "br") {
                    match instr {
                        Instruction::Value { labels, .. } | Instruction::Effect { labels, .. } => {
                            let ghost base = names(taken@);
                            let mut j: usize = 0;
                            while j < labels.len()
                                invariant
                                    j <= labels.len(),
                                    names(taken@) == base + names(labels@).take(j as int),
                                decreases labels.len() - j,
                            {
                                let ghost cur = names(taken@);
                                taken.push(labels[j].clone());
                                assert(names(taken@) =~= cur.push(labels[j as int]@));
                                assert(names(labels@).take(j + 1) =~= names(labels@).take(
                                    j as int,
                                ).push(labels[j as int]@));
                                j += 1;
                            }
                            assert(names(labels@).take(j as int) =~= names(labels@));
                        },
                        Instruction::Constant { .. } => {},
                    }
                }
            }
        }
        assert(names(taken@) =~= before.push(pairs[num]) + jump_labels(entries[p as int].1));
        p += 1;
    }
    let new_label = fresh("entry", &taken);
    let ghost in_use = labels_in_use(entries, pairs, n as nat);
    proof {
        lemma_name_set_members(taken@);
        assert forall|q: int| 0 <= q < n implies in_use.contains(pairs[(#[trigger] entries[q]).0])
            && (forall|j: int|
            0 <= j < jump_labels(entries[q].1).len() ==> in_use.contains(
                #[trigger] jump_labels(entries[q].1)[j],
            )) by {
            lemma_labels_in_use(entries, pairs, n as nat, q);
        }
    }
    let mut labels: Vec<String> = Vec::new();
    labels.push(first_label);
    assert(names(labels@) =~= seq![pairs[first_num]]);
    let jump = effect("jmp", labels);
    let mut entry_instrs: Vec<Code> = Vec::new();
    entry_instrs.push(Code::Instruction(jump));
    let entry_block = Block { instrs: entry_instrs };
    assert(entry_block@ =~= seq![CodeView::Instruction(jmp_view(pairs[first_num]))]);
    let Cfg { succ, pred, block_map, name_map } = cfg;
    let mut succ = succ;
    let mut pred = pred;
    let mut name_map = name_map;
    let old_items = numbered_into_vec(block_map);
    let mut new_map = numbered_new();
    numbered_insert(&mut new_map, n as i32, entry_block);
    let ghost head = seq![(n as i32, entry_block@)];
    assert(numbered_blocks(new_map) =~= head + entries.take(0));
    let mut q: usize = 0;
    while q < n
        invariant
            q <= n,
            n == entries.len(),
            n < i32::MAX,
            old_items.len() == n,
            head == seq![(n as i32, entry_block@)],
            distinct_keys(entries),
            forall|k: int| 0 <= k < n ==> 0 <= (#[trigger] entries[k]).0 < n,
            forall|k: int|
                0 <= k < n ==> (#[trigger] old_items[k]).0 == entries[k].0 && old_items[k].1@
                    == entries[k].1,
            numbered_blocks(new_map) == head + entries.take(q as int),
        decreases n - q,
    {
        let ghost cur = numbered_blocks(new_map);
        numbered_insert(&mut new_map, old_items[q].0, old_items[q].1.clone());
        proof {
            assert forall|k: int| 0 <= k < cur.len() implies (#[trigger] cur[k]).0 != entries[q as int].0 by {
                if k == 0 {
                } else {
                    assert(cur[k] == entries[k - 1]);
                    assert(entries[k - 1].0 != entries[q as int].0);
                }
            }
            assert(!has_key(cur, entries[q as int].0));
            assert(entries.take(q + 1) =~= entries.take(q as int).push(entries[q as int]));
            assert(numbered_blocks(new_map) =~= head + entries.take(q + 1));
        }
        q += 1;
    }
    assert(entries.take(n as int) =~= entries);
    labels_insert(&mut name_map, n as i32, new_label);
    let mut entry_targets: Vec<i32> = Vec::new();
    entry_targets.push(first_num);
    succ.insert(n as i32, entry_targets);
    pred.insert(n as i32, Vec::new());
    let mut first_preds = first_preds;
    first_preds.push(n as i32);
    pred.insert(first_num, first_preds);
    let r = Cfg { succ, pred, block_map: new_map, name_map };
    proof {
        let fresh_label = new_label@;
        let more = pairs.insert(n as i32, fresh_label);
        assert forall|k: i32| pairs.contains_key(k) implies #[trigger] pairs[k] != fresh_label by {
            lemma_succs_resolve(cfg, k);
            let q = cfg.place(k);
            assert(entries[q].0 == k);
            assert(in_use.contains(pairs[entries[q].0]));
        }
        assert(r.labels() =~= more);
        assert(one_to_one(more));
        assert(r.entries() == head + entries);
        assert(r.size() == n + 1);
        assert forall|a: int, b: int|
            0 <= a < r.size() && 0 <= b < r.size() && a != b implies (#[trigger] r.entries()[a]).0
            != (#[trigger] r.entries()[b]).0 by {
            if a > 0 {
                assert(r.entries()[a] == entries[a - 1]);
            }
            if b > 0 {
                assert(r.entries()[b] == entries[b - 1]);
            }
        }
        assert forall|k: int| 0 <= k < r.size() implies r.is_block((#[trigger] r.entries()[k]).0) by {
            if k > 0 {
                assert(r.entries()[k] == entries[k - 1]);
            }
        }
        assert forall|u: int| 0 <= u < n implies (#[trigger] r.succ_lists()[u]) == old_lists[u] by {
            assert(r.succs(u as i32) == cfg.succs(u as i32));
        }
        assert forall|k: int| 0 <= k < r.size() implies r.succs((#[trigger] r.entries()[k]).0)
            == resolve(r.labels(), jump_labels(r.entries()[k].1)) by {
            if k == 0 {
                reveal_strlit("jmp");
                reveal_strlit("br");
                let target = pairs[first_num];
                assert(jump_labels(r.entries()[0].1) == seq![target]);
                assert(bears(more, first_num, target));
                lemma_label_id(more, first_num, target);
                let single = seq![target];
                assert(single.last() == target);
                assert(single.drop_last() =~= Seq::<Seq<char>>::empty());
                assert(resolve(more, single.drop_last()) =~= Seq::<i32>::empty());
                assert(resolve(more, single) == resolve(more, single.drop_last()).push(first_num));
                assert(resolve(more, single) =~= seq![first_num]);
                assert(r.succs(n as i32) =~= seq![first_num]);
            } else {
                let e = entries[k - 1];
                assert(r.entries()[k] == e);
                assert(cfg.is_block(e.0));
                assert(r.succs(e.0) == cfg.succs(e.0));
                let jl = jump_labels(e.1);
                if jl.contains(fresh_label) {
                    let j = choose|j: int| 0 <= j < jl.len() && jl[j] == fresh_label;
                    assert(in_use.contains(jl[j]));
                }
                lemma_resolve_extend(pairs, n as i32, fresh_label, jl);
            }
        }
        lemma_targets_within(cfg);
        assert forall|v: i32| r.is_block(v) implies #[trigger] r.preds(v) == incoming(
            r.succ_lists(),
            r.size(),
            v,
        ) by {
            lemma_incoming_prefix(r.succ_lists(), old_lists, n as nat, v);
            let last = r.succ_lists()[n as int];
            assert(last =~= seq![first_num]);
            assert(last.drop_last() =~= Seq::<i32>::empty());
            assert(occurrences(n as i32, last.drop_last(), v) =~= Seq::<i32>::empty());
            if v == n {
                let inc = incoming(old_lists, n as nat, v);
                if inc.len() > 0 {
                    lemma_incoming_contains(old_lists, n as nat, v, inc[0]);
                    let u = inc[0];
                    assert(old_lists[u as int].contains(v));
                    let j = choose|j: int| 0 <= j < old_lists[u as int].len() && old_lists[u as int][j] == v;
                    assert(0 <= old_lists[u as int][j] < n);
                }
                assert(r.preds(v) =~= incoming(r.succ_lists(), r.size(), v));
            } else if v == first_num {
                assert(cfg.is_block(v));
                assert(cfg.preds(v) == incoming(old_lists, n as nat, v));
                assert(last.last() == v);
                assert(occurrences(n as i32, last, v) =~= seq![n as i32]);
                assert(r.preds(v) == cfg.preds(v).push(n as i32));
                assert(r.preds(v) =~= incoming(r.succ_lists(), r.size(), v));
            } else {
                assert(r.preds(v) == cfg.preds(v));
                assert(r.preds(v) =~= incoming(r.succ_lists(), r.size(), v));
            }
        }
        if cfg.all_closed() {
            assert forall|k: int| 0 <= k < r.size() implies closed((#[trigger] r.entries()[k]).1) by {
                if k > 0 {
                    assert(r.entries()[k] == entries[k - 1]);
                } else {
                    reveal_strlit("jmp");
                }
            }
        }
    }
    r
}

/// Every label in use among the first `p` blocks is in the list of them.
pub proof fn lemma_labels_in_use(
    entries: Seq<(i32, Seq<CodeView>)>,
    pairs: Map<i32, Seq<char>>,
    p: nat,
    q: int,
)
    requires
        0 <= q < p,
    ensures
        labels_in_use(entries, pairs, p).contains(pairs[entries[q].0]),
        forall|j: int|
            0 <= j < jump_labels(entries[q].1).len() ==> labels_in_use(entries, pairs, p).contains(
                #[trigger] jump_labels(entries[q].1)[j],
            ),
    decreases p,
{
    let prev = labels_in_use(entries, pairs, (p - 1) as nat);
    let all = labels_in_use(entries, pairs, p);
    let jl = jump_labels(entries[p - 1].1);
    if q == p - 1 {
        assert(all[prev.len() as int] == pairs[entries[q].0]);
        assert forall|j: int| 0 <= j < jl.len() implies all.contains(#[trigger] jl[j]) by {
            assert(all[prev.len() + 1 + j] == jl[j]);
        }
    } else {
        lemma_labels_in_use(entries, pairs, (p - 1) as nat, q);
        let i = choose|i: int| 0 <= i < prev.len() && prev[i] == pairs[entries[q].0];
        assert(all[i] == prev[i]);
        assert forall|j: int| 0 <= j < jump_labels(entries[q].1).len() implies all.contains(
            #[trigger] jump_labels(entries[q].1)[j],
        ) by {
            let x = jump_labels(entries[q].1)[j];
            assert(prev.contains(x));
            let i = choose|i: int| 0 <= i < prev.len() && prev[i] == x;
            assert(all[i] == prev[i]);
        }
    }
}

/// In a well-formed graph every successor is a block.
pub proof fn lemma_targets_within(cfg: Cfg)
    requires
        cfg.wf(),
    ensures
        targets_within(cfg.succ_lists(), cfg.size() as int),
{
    let lists = cfg.succ_lists();
    assert forall|u: int, j: int|
        0 <= u < lists.len() && 0 <= j < lists[u].len() implies 0 <= (#[trigger] lists[u][j])
        < cfg.size() by {
        lemma_succs_resolve(cfg, u as i32);
        lemma_resolve_in_dom(cfg.labels(), jump_labels(cfg.body(u as i32)));
        assert(cfg.labels().contains_key(lists[u][j]));
    }
}

/// Every block number has a place in the block map, and the successors of
/// the block are what its jump labels resolve to.
pub proof fn lemma_succs_resolve(cfg: Cfg, b: i32)
    requires
        cfg.wf(),
        cfg.is_block(b),
    ensures
        0 <= cfg.place(b) < cfg.size(),
        cfg.entries()[cfg.place(b)].0 == b,
        cfg.succs(b) == resolve(cfg.labels(), jump_labels(cfg.body(b))),
{
    lemma_place_exists(cfg.entries(), b);
}

/// Among `n` entries with distinct keys, all of them below `n` and not
/// negative, every such number is a key.
pub proof fn lemma_place_exists(entries: Seq<(i32, Seq<CodeView>)>, b: i32)
    requires
        distinct_keys(entries),
        forall|p: int| 0 <= p < entries.len() ==> 0 <= (#[trigger] entries[p]).0 < entries.len(),
        0 <= b < entries.len(),
    ensures
        exists|p: int| 0 <= p < entries.len() && (#[trigger] entries[p]).0 == b,
{
    let ks = Set::new(|k: int| exists|p: int| 0 <= p < entries.len() && (#[trigger] entries[p]).0 == k);
    let all = Set::new(|k: int| 0 <= k < entries.len());
    lemma_key_count(entries, entries.len());
    vstd::set_lib::lemma_int_range(0, entries.len() as int);
    assert(all =~= vstd::set_lib::set_int_range(0, entries.len() as int));
    assert(key_ints(entries, entries.len()).subset_of(all));
    vstd::set_lib::lemma_subset_equality(key_ints(entries, entries.len()), all);
    assert(all.contains(b as int));
    assert(key_ints(entries, entries.len()).contains(b as int));
}

/// The keys of the first `p` entries, as integers.
pub open spec fn key_ints(entries: Seq<(i32, Seq<CodeView>)>, p: nat) -> Set<int> {
    Set::new(|k: int| exists|q: int| 0 <= q < p && (#[trigger] entries[q]).0 == k)
}

/// The first `p` entries of a list with distinct keys have `p` keys.
pub proof fn lemma_key_count(entries: Seq<(i32, Seq<CodeView>)>, p: nat)
    requires
        distinct_keys(entries),
        p <= entries.len(),
    ensures
        key_ints(entries, p).finite(),
        key_ints(entries, p).len() == p,
    decreases p,
{
    if p == 0 {
        assert(key_ints(entries, p) =~= Set::<int>::empty());
    } else {
        lemma_key_count(entries, (p - 1) as nat);
        let prev = key_ints(entries, (p - 1) as nat);
        let k = entries[p - 1].0 as int;
        assert(!prev.contains(k)) by {
            if prev.contains(k) {
                let q = choose|q: int| 0 <= q < p - 1 && (#[trigger] entries[q]).0 == k;
                assert(entries[q].0 != entries[p - 1].0);
            }
        }
        assert(key_ints(entries, p) =~= prev.insert(k)) by {
            assert forall|x: int| key_ints(entries, p).contains(x) <==> prev.insert(k).contains(
                x,
            ) by {
                if key_ints(entries, p).contains(x) {
                    let q = choose|q: int| 0 <= q < p && (#[trigger] entries[q]).0 == x;
                    if q < p - 1 {
                        assert(prev.contains(x));
                    }
                }
                if prev.contains(x) {
                    let q = choose|q: int| 0 <= q < p - 1 && (#[trigger] entries[q]).0 == x;
                    assert(0 <= q < p && entries[q].0 == x);
                }
                if x == k {
                    assert(entries[p - 1].0 == x);
                }
            }
        }
    }
}

/// Whether the graph is the control-flow graph of the blocks: the blocks
/// are named, closed and numbered in order; the edges are those that the
/// terminators name; and where an edge leads into the first block, a block
/// that only jumps to it stands before it, under the next number and a
/// fresh label `entry<k>`.
pub open spec fn is_cfg_of(cfg: Cfg, blocks: Seq<Seq<CodeView>>) -> bool {
    let named = terminate(name_blocks(blocks));
    let numbered = number_blocks(named);
    let pairs = label_map(keys(named));
    let lists = Seq::new(named.len(), |i: int| resolve(pairs, jump_labels(named[i].1)));
    &&& cfg.wf()
    &&& cfg.clean_entry()
    &&& cfg.all_closed()
    &&& if named.len() > 0 && incoming(lists, named.len(), 0).len() > 0 {
        &&& cfg.entries() == seq![
            (named.len() as i32, seq![CodeView::Instruction(jmp_view(named[0].0))]),
        ] + numbered
        &&& cfg.labels() == pairs.insert(
            named.len() as i32,
            fresh_name("entry"@, labels_in_use(numbered, pairs, named.len()).to_set()),
        )
    } else {
        &&& cfg.entries() == numbered
        &&& cfg.labels() == pairs
    }
}

/// Builds the control-flow graph of a list of blocks: names the blocks,
/// closes them, adds the edges, and gives the graph a clean entry.
pub fn form_cfg(blocks: Vec<Block>) -> (cfg: Cfg)
    requires
        blocks.len() < i32::MAX - 1,
    ensures
        is_cfg_of(cfg, block_views(blocks@)),
{
    let ghost views = block_views(blocks@);
    let block_map = add_terminators(form_block_map(blocks));
    proof {
        lemma_name_blocks_len(views);
    }
    let cfg = add_edges(block_map);
    proof {
        let named = terminate(name_blocks(views));
        assert forall|p: int| 0 <= p < cfg.size() implies closed((#[trigger] cfg.entries()[p]).1) by {
            reveal_strlit("ret");
            reveal_strlit("jmp");
        }
        let lists = Seq::new(
            named.len(),
            |i: int| resolve(cfg.labels(), jump_labels(named[i].1)),
        );
        assert(cfg.succ_lists() =~= lists) by {
            assert forall|i: int| 0 <= i < named.len() implies cfg.succ_lists()[i] == lists[i] by {
                assert(cfg.entries()[i].0 == i as i32);
            }
        }
    }
    add_entry(cfg)
}

/// Naming does not make more blocks than there were.
pub proof fn lemma_name_blocks_len(blocks: Seq<Seq<CodeView>>)
    ensures
        name_blocks(blocks).len() <= blocks.len(),
    decreases blocks.len(),
{
    if blocks.len() > 0 {
        lemma_name_blocks_len(blocks.drop_last());
    }
}

/// The body that a list of numbered blocks stands for: each block's label,
/// then its items, in the order of the list.
pub open spec fn reassembled(entries: Seq<(i32, Seq<CodeView>)>, pairs: Map<i32, Seq<char>>) -> Seq<
    CodeView,
>
    decreases entries.len(),
{
    if entries.len() == 0 {
        Seq::empty()
    } else {
        reassembled(entries.drop_last(), pairs).push(
            CodeView::Label { label: pairs[entries.last().0] },
        ) + entries.last().1
    }
}

/// Lays the graph out as a body again: in the order of the block map, each
/// block's label and then its items.
pub fn reassemble(cfg: Cfg) -> (instrs: Vec<Code>)
    requires
        cfg.wf(),
    ensures
        codes(instrs@) == reassembled(cfg.entries(), cfg.labels()),
{
    let mut instrs: Vec<Code> = Vec::new();
    let n = numbered_len(&cfg.block_map);
    let ghost entries = cfg.entries();
    let ghost pairs = cfg.labels();
    let mut p: usize = 0;
    assert(codes(instrs@) =~= reassembled(entries.take(0), pairs));
    while p < n
        invariant
            p <= n,
            n == entries.len(),
            entries == cfg.entries(),
            pairs == cfg.labels(),
            cfg.wf(),
            codes(instrs@) == reassembled(entries.take(p as int), pairs),
        decreases n - p,
    {
        let (num, block) = numbered_get_index(&cfg.block_map, p);
        assert(cfg.is_block(entries[p as int].0));
        let ghost before = codes(instrs@);
        match labels_get_by_left(&cfg.name_map, num) {
            Some(label) => {
                instrs.push(Code::Label { label: label.clone() });
            },
            None => {},
        }
        let ghost labelled = before.push(CodeView::Label { label: pairs[num] });
        assert(codes(instrs@) =~= labelled);
        let mut j: usize = 0;
        while j < block.instrs.len()
            invariant
                j <= block.instrs.len(),
                codes(instrs@) == labelled + block@.take(j as int),
            decreases block.instrs.len() - j,
        {
            let ghost cur = codes(instrs@);
            instrs.push(block.instrs[j].clone());
            assert(codes(instrs@) =~= cur.push(block@[j as int]));
            assert(block@.take(j + 1) =~= block@.take(j as int).push(block@[j as int]));
            j += 1;
        }
        proof {
            assert(block@.take(j as int) =~= block@);
            assert(entries.take(p + 1).drop_last() =~= entries.take(p as int));
            assert(entries.take(p + 1).last() == entries[p as int]);
        }
        p += 1;
    }
    assert(entries.take(n as int) =~= entries);
    instrs
}


/// Whether a block holds no label.
pub open spec fn label_free(b: Seq<CodeView>) -> bool {
    forall|i: int| 0 <= i < b.len() ==> !is_label(#[trigger] b[i])
}

/// What holds of the values of all entries, and of a new value, holds of
/// the values of all entries after the insertion of the new value.
pub proof fn lemma_upsert_values<K, V>(s: Seq<(K, V)>, k: K, v: V, p: spec_fn(V) -> bool)
    requires
        p(v),
        forall|i: int| 0 <= i < s.len() ==> p((#[trigger] s[i]).1),
    ensures
        forall|i: int| 0 <= i < upsert(s, k, v).len() ==> p((#[trigger] upsert(s, k, v)[i]).1),
{
    let t = upsert(s, k, v);
    assert forall|i: int| 0 <= i < t.len() implies p((#[trigger] t[i]).1) by {
        if has_key(s, k) {
            assert(p(s[i].1));
        } else if i < s.len() {
            assert(t[i] == s[i]);
        }
    }
}

/// Blocks in which a label stands only at the start are named into blocks
/// without labels.
pub proof fn lemma_named_label_free(blocks: Seq<Seq<CodeView>>)
    requires
        forall|k: int| 0 <= k < blocks.len() ==> well_shaped(#[trigger] blocks[k]),
    ensures
        forall|i: int|
            0 <= i < name_blocks(blocks).len() ==> label_free((#[trigger] name_blocks(blocks)[i]).1),
    decreases blocks.len(),
{
    if blocks.len() > 0 {
        let front = blocks.drop_last();
        assert forall|k: int| 0 <= k < front.len() implies well_shaped(#[trigger] front[k]) by {
            assert(front[k] == blocks[k]);
        }
        lemma_named_label_free(front);
        let prev = name_blocks(front);
        let b = blocks.last();
        assert(well_shaped(blocks[blocks.len() - 1]));
        let p = |body: Seq<CodeView>| label_free(body);
        if b.len() > 0 && b[0] is Label {
            let rest = b.drop_first();
            assert(label_free(rest)) by {
                assert forall|i: int| 0 <= i < rest.len() implies !is_label(#[trigger] rest[i]) by {
                    assert(rest[i] == b[i + 1]);
                }
            }
            lemma_upsert_values(prev, b[0]->label, rest, p);
        } else {
            assert(label_free(b)) by {
                assert forall|i: int| 0 <= i < b.len() implies !is_label(#[trigger] b[i]) by {
                    if i == 0 {
                        assert(!(b[0] is Label));
                    }
                }
            }
            lemma_upsert_values(prev, fresh_name("b"@, key_set(prev)), b, p);
        }
    }
}

/// In the graph of blocks in which a label stands only at the start, no
/// block holds a label: the labels are the names of the blocks.
pub proof fn lemma_cfg_label_free(cfg: Cfg, blocks: Seq<Seq<CodeView>>)
    requires
        is_cfg_of(cfg, blocks),
        forall|k: int| 0 <= k < blocks.len() ==> well_shaped(#[trigger] blocks[k]),
    ensures
        forall|p: int| 0 <= p < cfg.size() ==> label_free((#[trigger] cfg.entries()[p]).1),
{
    lemma_named_label_free(blocks);
    let named = terminate(name_blocks(blocks));
    let numbered = number_blocks(named);
    assert forall|i: int| 0 <= i < numbered.len() implies label_free((#[trigger] numbered[i]).1) by {
        let before = name_blocks(blocks)[i].1;
        assert(label_free(before));
        let after = closed_block(name_blocks(blocks), i);
        assert(numbered[i].1 == after);
        assert forall|x: int| 0 <= x < after.len() implies !is_label(#[trigger] after[x]) by {
            if x < before.len() {
                assert(after[x] == before[x]);
            }
        }
    }
    assert forall|p: int| 0 <= p < cfg.size() implies label_free((#[trigger] cfg.entries()[p]).1) by {
        if cfg.entries() == numbered {
        } else {
            if p > 0 {
                assert(cfg.entries()[p] == numbered[p - 1]);
            }
        }
    }
}

} // verus!
