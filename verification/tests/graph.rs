use bril_utils::cfg::{form_cfg, reassemble};
use bril_utils::dominators::{
    find_dominators, find_dominators_num, find_immediate_doms, form_dom_tree,
    get_dominance_frontier, get_dominance_frontier_num, get_reverse_post_order, DomNode,
};
use bril_utils::form_blocks::form_blocks;
use bril_utils::ir::{Code, Function, Instruction, Literal, Type};

fn constant(dest: &str, value: i64) -> Code {
    Code::Instruction(Instruction::Constant {
        dest: dest.to_string(),
        const_type: Some(Type::Int),
        value: Literal::Int(value),
    })
}

fn effect(op: &str, args: &[&str], labels: &[&str]) -> Code {
    Code::Instruction(Instruction::Effect {
        op: op.to_string(),
        args: args.iter().map(|a| a.to_string()).collect(),
        labels: labels.iter().map(|a| a.to_string()).collect(),
        funcs: vec![],
    })
}

fn label(name: &str) -> Code {
    Code::Label { label: name.to_string() }
}

fn function(instrs: Vec<Code>) -> Function {
    Function { name: "main".to_string(), args: vec![], return_type: None, instrs }
}

fn diamond() -> Function {
    function(vec![
        label("top"),
        constant("c", 1),
        effect("br", &["c"], &["left", "right"]),
        label("left"),
        constant("x", 1),
        effect("jmp", &[], &["join"]),
        label("right"),
        constant("y", 2),
        label("join"),
        effect("print", &["c"], &[]),
    ])
}

fn sorted(set: &std::collections::HashSet<i32>) -> Vec<i32> {
    let mut v: Vec<i32> = set.iter().copied().collect();
    v.sort();
    v
}

#[test]
fn cfg_names_blocks_and_adds_terminators() {
    let cfg = form_cfg(form_blocks(&diamond()));
    assert_eq!(cfg.block_map.len(), 4);
    let names: Vec<String> =
        (0..4).map(|i| cfg.name_map.get_by_left(&i).unwrap().to_string()).collect();
    assert_eq!(names, vec!["top", "left", "right", "join"]);
    assert_eq!(cfg.succ[&0], vec![1, 2]);
    assert_eq!(cfg.succ[&1], vec![3]);
    assert_eq!(cfg.succ[&2], vec![3]);
    assert_eq!(cfg.succ[&3], Vec::<i32>::new());
    assert_eq!(cfg.pred[&3], vec![1, 2]);
    assert_eq!(cfg.pred[&0], Vec::<i32>::new());
    let right = cfg.block_map.get(&2).unwrap();
    assert_eq!(format!("{:?}", right.instrs.last().unwrap()), format!("{:?}", effect("jmp", &[], &["join"])));
    let join = cfg.block_map.get(&3).unwrap();
    assert_eq!(format!("{:?}", join.instrs.last().unwrap()), format!("{:?}", effect("ret", &[], &[])));
}

#[test]
fn cfg_gives_unlabelled_blocks_fresh_names() {
    let f = function(vec![
        constant("a", 1),
        effect("jmp", &[], &["b2"]),
        label("b2"),
        effect("ret", &[], &[]),
        effect("print", &["a"], &[]),
    ]);
    let cfg = form_cfg(form_blocks(&f));
    let names: Vec<String> =
        (0..3).map(|i| cfg.name_map.get_by_left(&i).unwrap().to_string()).collect();
    assert_eq!(names, vec!["b1", "b2", "b3"]);
}

#[test]
fn branch_with_the_same_label_twice_gives_the_edge_twice() {
    let f = function(vec![
        label("a"),
        constant("c", 1),
        effect("br", &["c"], &["b", "b"]),
        label("b"),
        effect("ret", &[], &[]),
    ]);
    let cfg = form_cfg(form_blocks(&f));
    assert_eq!(cfg.succ[&0], vec![1, 1]);
    assert_eq!(cfg.pred[&1], vec![0, 0]);
}

#[test]
fn jump_back_to_the_first_block_synthesizes_an_entry() {
    let f = function(vec![
        label("b1"),
        constant("a", 1),
        effect("jmp", &[], &["b2"]),
        label("b2"),
        effect("jmp", &[], &["b1"]),
    ]);
    let cfg = form_cfg(form_blocks(&f));
    assert_eq!(cfg.block_map.len(), 3);
    let (first_num, first_block) = cfg.block_map.get_index(0).unwrap();
    assert_eq!(*first_num, 2);
    assert_eq!(cfg.name_map.get_by_left(first_num).unwrap(), "entry1");
    assert_eq!(first_block.instrs.len(), 1);
    assert_eq!(format!("{:?}", first_block.instrs[0]), format!("{:?}", effect("jmp", &[], &["b1"])));
    assert_eq!(cfg.succ[&2], vec![0]);
    assert_eq!(cfg.pred[&2], Vec::<i32>::new());
    assert_eq!(cfg.pred[&0], vec![1, 2]);
    let body = reassemble(cfg);
    assert!(matches!(&body[0], Code::Label { label } if label == "entry1"));
    assert!(matches!(&body[2], Code::Label { label } if label == "b1"));
    assert_eq!(body.len(), 7);
}

#[test]
fn empty_body_gives_an_empty_graph() {
    let cfg = form_cfg(form_blocks(&function(vec![])));
    assert_eq!(cfg.block_map.len(), 0);
    assert!(reassemble(cfg).is_empty());
}

#[test]
fn reassembling_labels_every_block() {
    let body = reassemble(form_cfg(form_blocks(&diamond())));
    let expected = vec![
        label("top"),
        constant("c", 1),
        effect("br", &["c"], &["left", "right"]),
        label("left"),
        constant("x", 1),
        effect("jmp", &[], &["join"]),
        label("right"),
        constant("y", 2),
        effect("jmp", &[], &["join"]),
        label("join"),
        effect("print", &["c"], &[]),
        effect("ret", &[], &[]),
    ];
    assert_eq!(format!("{:?}", body), format!("{:?}", expected));
}

#[test]
fn dominators_of_a_diamond() {
    let cfg = form_cfg(form_blocks(&diamond()));
    let dom = find_dominators_num(&cfg);
    assert_eq!(sorted(&dom[&0]), vec![0]);
    assert_eq!(sorted(&dom[&1]), vec![0, 1]);
    assert_eq!(sorted(&dom[&2]), vec![0, 2]);
    assert_eq!(sorted(&dom[&3]), vec![0, 3]);
    let named = find_dominators(&cfg);
    assert_eq!(named[3].0, "join");
    assert_eq!(named[3].1, vec!["top", "join"]);
    assert_eq!(get_reverse_post_order(&cfg)[0], 0);
}

#[test]
fn reverse_post_order_of_a_diamond() {
    let cfg = form_cfg(form_blocks(&diamond()));
    assert_eq!(get_reverse_post_order(&cfg), vec![0, 2, 1, 3]);
    let chain = function(vec![
        label("a"),
        effect("jmp", &[], &["c"]),
        label("b"),
        effect("ret", &[], &[]),
        label("c"),
        effect("jmp", &[], &["b"]),
    ]);
    assert_eq!(get_reverse_post_order(&form_cfg(form_blocks(&chain))), vec![0, 2, 1]);
}

#[test]
fn unreachable_block_is_dominated_by_all() {
    let f = function(vec![
        label("a"),
        effect("ret", &[], &[]),
        label("dead"),
        effect("ret", &[], &[]),
    ]);
    let cfg = form_cfg(form_blocks(&f));
    let dom = find_dominators_num(&cfg);
    assert_eq!(sorted(&dom[&0]), vec![0]);
    assert_eq!(sorted(&dom[&1]), vec![0, 1]);
}

#[test]
fn immediate_dominators_and_tree_of_a_diamond() {
    let cfg = form_cfg(form_blocks(&diamond()));
    let idom = find_immediate_doms(&cfg);
    assert_eq!(idom[&0], None);
    assert_eq!(idom[&1], Some(0));
    assert_eq!(idom[&2], Some(0));
    assert_eq!(idom[&3], Some(0));
    let tree = form_dom_tree(&cfg);
    let root = tree.get_node(&0).unwrap();
    assert_eq!(root.label, "top");
    assert_eq!(root.parent, None);
    assert_eq!(root.children, vec![1, 2, 3]);
    assert_eq!(tree.get_node(&3).unwrap().parent, Some(0));
    assert!(tree.get_node(&7).is_none());
}

#[test]
fn frontier_of_a_diamond() {
    let cfg = form_cfg(form_blocks(&diamond()));
    let frontier = get_dominance_frontier_num(&cfg);
    assert_eq!(sorted(&frontier[&0]), Vec::<i32>::new());
    assert_eq!(sorted(&frontier[&1]), vec![3]);
    assert_eq!(sorted(&frontier[&2]), vec![3]);
    assert_eq!(sorted(&frontier[&3]), Vec::<i32>::new());
    let named = get_dominance_frontier(&cfg);
    assert_eq!(named[1].0, "left");
    assert_eq!(named[1].1, vec!["join"]);
}

#[test]
fn loop_head_is_in_its_own_frontier() {
    let f = function(vec![
        label("start"),
        effect("jmp", &[], &["head"]),
        label("head"),
        constant("c", 1),
        effect("br", &["c"], &["head", "out"]),
        label("out"),
        effect("ret", &[], &[]),
    ]);
    let cfg = form_cfg(form_blocks(&f));
    let frontier = get_dominance_frontier_num(&cfg);
    assert_eq!(sorted(&frontier[&1]), vec![1]);
}

#[test]
fn new_dom_node_has_no_parent_and_no_children() {
    let node = DomNode::new(3, "x".to_string());
    assert_eq!(node.idx, 3);
    assert_eq!(node.label, "x");
    assert_eq!(node.parent, None);
    assert!(node.children.is_empty());
}
