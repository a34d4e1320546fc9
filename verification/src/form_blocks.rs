//! Partition of a function body into basic blocks.
use crate::ir::{clone_codes, codes, Code, CodeView, Function};
use vstd::prelude::*;

verus! {

/// A basic block: a straight-line run of code items.
#[derive(Debug)]
pub struct Block {
    pub instrs: Vec<Code>,
}

impl View for Block {
    type V = Seq<CodeView>;

    open spec fn view(&self) -> Seq<CodeView> {
        codes(self.instrs@)
    }
}

impl Clone for Block {
    fn clone(&self) -> (r: Self)
        ensures
            r@ == self@,
    {
        Block { instrs: clone_codes(&self.instrs) }
    }
}

impl Default for Block {
    fn default() -> (r: Self)
        ensures
            r@ == Seq::<CodeView>::empty(),
    {
        let r = Block { instrs: Vec::new() };
        assert(r@ =~= Seq::<CodeView>::empty());
        r
    }
}

impl Block {
    /// Whether the block holds no item.
    pub fn is_empty(&self) -> (r: bool)
        ensures
            r == (self@.len() == 0),
    {
        self.instrs.len() == 0
    }
}

/// The models of a list of blocks.
pub open spec fn block_views(v: Seq<Block>) -> Seq<Seq<CodeView>> {
    v.map_values(|b: Block| b@)
}

/// Whether the item is an instruction that ends a block.
pub open spec fn ends_block(c: CodeView) -> bool {
    match c {
        CodeView::Instruction(i) => i.is_terminator(),
        CodeView::Label { .. } => false,
    }
}

/// Whether the item is a label.
pub open spec fn is_label(c: CodeView) -> bool {
    c is Label
}

/// The state of the scan after a prefix of the body: the blocks emitted so
/// far and the block still open. A label closes a non-empty open block and
/// opens one that starts with it; an instruction joins the open block, and
/// a terminator then closes it.
pub open spec fn scan(code: Seq<CodeView>) -> (Seq<Seq<CodeView>>, Seq<CodeView>)
    decreases code.len(),
{
    if code.len() == 0 {
        (Seq::empty(), Seq::empty())
    } else {
        let (done, cur) = scan(code.drop_last());
        let item = code.last();
        if is_label(item) {
            if cur.len() > 0 {
                (done.push(cur), seq![item])
            } else {
                (done, seq![item])
            }
        } else if ends_block(item) {
            (done.push(cur.push(item)), Seq::empty())
        } else {
            (done, cur.push(item))
        }
    }
}

/// The basic blocks of a body: what the scan emitted, and the open block if
/// it holds anything.
pub open spec fn blocks_of(code: Seq<CodeView>) -> Seq<Seq<CodeView>> {
    let (done, cur) = scan(code);
    if cur.len() > 0 {
        done.push(cur)
    } else {
        done
    }
}

/// The items of all blocks, in order.
pub open spec fn flat(blocks: Seq<Seq<CodeView>>) -> Seq<CodeView>
    decreases blocks.len(),
{
    if blocks.len() == 0 {
        Seq::empty()
    } else {
        flat(blocks.drop_last()) + blocks.last()
    }
}

/// Whether a block is well shaped: it is not empty, a label stands only at
/// its start, and a terminator only at its end.
pub open spec fn well_shaped(b: Seq<CodeView>) -> bool {
    &&& b.len() > 0
    &&& forall|i: int| 0 < i < b.len() ==> !is_label(#[trigger] b[i])
    &&& forall|i: int| 0 <= i < b.len() - 1 ==> !ends_block(#[trigger] b[i])
}

/// The open block of a scan is a label-free tail but for its first item, and
/// holds no terminator; the emitted blocks are well shaped; and together
/// they hold the scanned items in order.
pub proof fn lemma_scan(code: Seq<CodeView>)
    ensures
        flat(scan(code).0) + scan(code).1 == code,
        forall|k: int| 0 <= k < scan(code).0.len() ==> well_shaped(#[trigger] scan(code).0[k]),
        forall|i: int| 0 < i < scan(code).1.len() ==> !is_label(#[trigger] scan(code).1[i]),
        forall|i: int| 0 <= i < scan(code).1.len() ==> !ends_block(#[trigger] scan(code).1[i]),
    decreases code.len(),
{
    if code.len() == 0 {
        assert(flat(scan(code).0) + scan(code).1 =~= code);
    } else {
        let prev = code.drop_last();
        lemma_scan(prev);
        let (done, cur) = scan(prev);
        let item = code.last();
        assert(code =~= prev.push(item));
        if is_label(item) {
            if cur.len() > 0 {
                assert(done.push(cur).drop_last() =~= done);
                assert(flat(done.push(cur)) + seq![item] =~= code);
            } else {
                assert(flat(done) + seq![item] =~= code);
            }
        } else if ends_block(item) {
            let b = cur.push(item);
            assert(done.push(b).drop_last() =~= done);
            assert(flat(done.push(b)) + Seq::<CodeView>::empty() =~= code);
            assert(well_shaped(b));
        } else {
            assert(flat(done) + cur.push(item) =~= code);
        }
    }
}

/// Block formation loses nothing: the blocks, laid end to end, are the body
/// they were formed from, and every block is well shaped.
pub proof fn lemma_blocks_partition(code: Seq<CodeView>)
    ensures
        flat(blocks_of(code)) == code,
        forall|k: int| 0 <= k < blocks_of(code).len() ==> well_shaped(#[trigger] blocks_of(code)[k]),
{
    lemma_scan(code);
    let (done, cur) = scan(code);
    if cur.len() > 0 {
        assert(done.push(cur).drop_last() =~= done);
    } else {
        assert(flat(done) + cur =~= flat(done));
    }
}

/// There are no more blocks than items.
pub proof fn lemma_blocks_count(code: Seq<CodeView>)
    ensures
        blocks_of(code).len() <= code.len(),
        scan(code).0.len() + (if scan(code).1.len() > 0 {
            1int
        } else {
            0int
        }) <= code.len(),
    decreases code.len(),
{
    if code.len() > 0 {
        lemma_blocks_count(code.drop_last());
    }
}

/// Forms the basic blocks of a function's body.
pub fn form_blocks(func: &Function) -> (blocks: Vec<Block>)
    ensures
        block_views(blocks@) == blocks_of(codes(func.instrs@)),
{
    let mut blocks: Vec<Block> = Vec::new();
    let mut cur_block: Block = Block { instrs: Vec::new() };
    let ghost code = codes(func.instrs@);
    let mut i: usize = 0;
    assert(block_views(blocks@) =~= scan(code.take(0)).0);
    assert(cur_block@ =~= scan(code.take(0)).1);
    while i < func.instrs.len()
        invariant
            i <= func.instrs.len(),
            code == codes(func.instrs@),
            block_views(blocks@) == scan(code.take(i as int)).0,
            cur_block@ == scan(code.take(i as int)).1,
        decreases func.instrs.len() - i,
    {
        let item = func.instrs[i].clone();
        proof {
            assert(code.take(i + 1).drop_last() =~= code.take(i as int));
            assert(code.take(i + 1).last() == item@);
        }
        let ghost old_blocks = block_views(blocks@);
        let ghost old_cur = cur_block@;
        match &item {
            Code::Instruction(instr) => {
                let term = instr.is_terminator();
                cur_block.instrs.push(item);
                assert(cur_block@ =~= old_cur.push(code[i as int]));
                if term {
                    blocks.push(cur_block);
                    cur_block = Block { instrs: Vec::new() };
                    assert(block_views(blocks@) =~= old_blocks.push(old_cur.push(code[i as int])));
                    assert(cur_block@ =~= Seq::<CodeView>::empty());
                }
            },
            Code::Label { .. } => {
                if !cur_block.is_empty() {
                    blocks.push(cur_block);
                    cur_block = Block { instrs: Vec::new() };
                    assert(block_views(blocks@) =~= old_blocks.push(old_cur));
                }
                cur_block.instrs.push(item);
                assert(cur_block@ =~= seq![code[i as int]]);
            },
        }
        i += 1;
    }
    assert(code.take(i as int) =~= code);
    if !cur_block.is_empty() {
        let ghost old_blocks = block_views(blocks@);
        blocks.push(cur_block);
        assert(block_views(blocks@) =~= old_blocks.push(scan(code).1));
    }
    blocks
}

/// Lays the items of the blocks end to end.
pub fn flatten_blocks(blocks: Vec<Block>) -> (instrs: Vec<Code>)
    ensures
        codes(instrs@) == flat(block_views(blocks@)),
{
    let mut instrs: Vec<Code> = Vec::new();
    let ghost all = block_views(blocks@);
    let mut i: usize = 0;
    assert(codes(instrs@) =~= flat(all.take(0)));
    while i < blocks.len()
        invariant
            i <= blocks.len(),
            all == block_views(blocks@),
            codes(instrs@) == flat(all.take(i as int)),
        decreases blocks.len() - i,
    {
        let block = &blocks[i];
        let ghost before = codes(instrs@);
        let mut j: usize = 0;
        while j < block.instrs.len()
            invariant
                j <= block.instrs.len(),
                codes(instrs@) == before + block@.take(j as int),
            decreases block.instrs.len() - j,
        {
            let ghost prev = codes(instrs@);
            instrs.push(block.instrs[j].clone());
            assert(codes(instrs@) =~= prev.push(block@[j as int]));
            assert(block@.take(j + 1) =~= block@.take(j as int).push(block@[j as int]));
            j += 1;
        }
        proof {
            assert(block@.take(j as int) =~= block@);
            assert(all.take(i + 1).drop_last() =~= all.take(i as int));
            assert(all.take(i + 1).last() == block@);
        }
        i += 1;
    }
    assert(all.take(i as int) =~= all);
    instrs
}

} // verus!
