use bril_utils::cfg::{add_edges, add_entry, add_terminators, form_block_map, term_successors, Cfg};
use bril_utils::df::{get_def_vars, get_uses, same_names, union, Dataflow, DefinedVars, LiveVars};
use bril_utils::dominators::{
    dominator_table, frontier_table, get_strict_doms, immediate_dominators, DomTree,
};
use bril_utils::form_blocks::{form_blocks, Block};
use bril_utils::ir::{clone_type, Code, Function, Instruction, Literal, Type};
use bril_utils::lvn::{const_fold, const_instr, copy_instr, reform_instr, LvnTable, ValueExpr};
use std::collections::{HashMap, HashSet};

fn constant(dest: &str, value: i64) -> Code {
    Code::Instruction(Instruction::Constant {
        dest: dest.to_string(),
        const_type: Some(Type::Int),
        value: Literal::Int(value),
    })
}

fn value(op: &str, dest: &str, args: &[&str]) -> Instruction {
    Instruction::Value {
        op: op.to_string(),
        dest: dest.to_string(),
        op_type: Some(Type::Int),
        args: args.iter().map(|a| a.to_string()).collect(),
        labels: vec![],
        funcs: vec![],
    }
}

fn effect(op: &str, args: &[&str], labels: &[&str]) -> Code {
    Code::Instruction(Instruction::Effect {
        op: op.to_string(),
        args: args.iter().map(|a| a.to_string()).collect(),
        labels: labels.iter().map(|a| a.to_string()).collect(),
        funcs: vec![],
    })
}

fn label(name: &str) -> Code {
    Code::Label { label: name.to_string() }
}

fn function(instrs: Vec<Code>) -> Function {
    Function { name: "main".to_string(), args: vec![], return_type: None, instrs }
}

fn show<T: std::fmt::Debug>(v: &T) -> String {
    format!("{:?}", v)
}

#[test]
fn literals_compare_as_their_kinds_do() {
    let nan = Literal::Float(f64::NAN.to_bits());
    let zero = Literal::Float(0.0f64.to_bits());
    let minus_zero = Literal::Float((-0.0f64).to_bits());
    let one = Literal::Float(1.0f64.to_bits());
    assert!(nan != nan);
    assert!(zero == minus_zero);
    assert!(one == one);
    assert!(one != zero);
    assert!(Literal::Float(f64::INFINITY.to_bits()) == Literal::Float(f64::INFINITY.to_bits()));
    assert!(Literal::Int(1) == Literal::Int(1));
    assert!(Literal::Int(1) != Literal::Int(2));
    assert!(Literal::Bool(true) == Literal::Bool(true));
    assert!(Literal::Int(1) != Literal::Bool(true));
    assert!(Literal::Int(0) != zero);
}

#[test]
fn types_copy_in_depth() {
    let t = Type::Pointer(Box::new(Type::Pointer(Box::new(Type::Float))));
    assert_eq!(show(&t.clone()), show(&t));
    assert!(Type::Float.is_float());
    assert!(!t.is_float());
    assert_eq!(show(&clone_type(&Some(Type::Bool))), show(&Some(Type::Bool)));
}

#[test]
fn the_steps_of_graph_construction() {
    let f = function(vec![
        constant("a", 1),
        label("x"),
        constant("b", 1),
        label("x"),
        effect("br", &["a"], &["x", "gone"]),
        constant("c", 1),
    ]);
    let named = form_block_map(form_blocks(&f));
    let keys: Vec<&String> = named.keys().collect();
    assert_eq!(keys, vec!["b1", "x", "b2"]);
    assert_eq!(named["x"].instrs.len(), 1);
    let closed = add_terminators(named);
    assert_eq!(show(&closed["b1"].instrs), show(&vec![constant("a", 1), effect("jmp", &[], &["x"])]));
    assert_eq!(closed["x"].instrs.len(), 1);
    assert_eq!(show(closed["b2"].instrs.last().unwrap()), show(&effect("ret", &[], &[])));
    let cfg = add_edges(closed);
    assert_eq!(cfg.succ[&0], vec![1]);
    assert_eq!(cfg.succ[&1], vec![1]);
    assert_eq!(cfg.pred[&1], vec![0, 1]);
    assert_eq!(cfg.pred[&2], Vec::<i32>::new());
    assert_eq!(term_successors(cfg.block_map.get(&1).unwrap(), &cfg.name_map), vec![1]);
    let cfg = add_entry(cfg);
    assert_eq!(cfg.block_map.len(), 3);
}

#[test]
fn a_fresh_entry_avoids_labels_in_use() {
    let f = function(vec![
        label("entry1"),
        constant("a", 1),
        effect("br", &["a"], &["entry1", "entry2"]),
        label("entry3"),
    ]);
    let cfg = add_entry(add_edges(add_terminators(form_block_map(form_blocks(&f)))));
    assert_eq!(cfg.name_map.get_by_left(&2).unwrap(), "entry4");
    assert_eq!(*cfg.block_map.get_index(0).unwrap().0, 2);
}

#[test]
fn blocks_are_added_under_the_next_number() {
    let mut cfg = Cfg::default();
    cfg.add_block("a".to_string(), Block::default());
    cfg.add_block("b".to_string(), Block { instrs: vec![label("l")] });
    assert_eq!(cfg.name_map.get_by_right("b"), Some(&1));
    assert_eq!(cfg.block_map.get(&1).unwrap().instrs.len(), 1);
    assert!(cfg.block_map.get(&0).unwrap().is_empty());
}

#[test]
fn strict_dominators_leave_the_block_out() {
    let mut dom: HashMap<i32, HashSet<i32>> = HashMap::new();
    dom.insert(0, [0].into_iter().collect());
    dom.insert(1, [0, 1].into_iter().collect());
    dom.insert(2, [0, 1, 2].into_iter().collect());
    let sdom = get_strict_doms(&dom, 3);
    assert!(sdom[&0].is_empty());
    assert_eq!(sdom[&1], [0].into_iter().collect());
    assert_eq!(sdom[&2], [0, 1].into_iter().collect());
}

#[test]
fn tables_of_a_chain() {
    let f = function(vec![
        label("a"),
        effect("jmp", &[], &["b"]),
        label("b"),
        effect("jmp", &[], &["c"]),
        label("c"),
        effect("ret", &[], &[]),
    ]);
    let cfg = bril_utils::cfg::form_cfg(form_blocks(&f));
    assert_eq!(
        dominator_table(&cfg),
        vec![vec![true, false, false], vec![true, true, false], vec![true, true, true]]
    );
    assert_eq!(frontier_table(&cfg), vec![vec![false; 3]; 3]);
    assert_eq!(immediate_dominators(&cfg), vec![None, Some(0), Some(1)]);
}

#[test]
fn a_tree_built_by_hand() {
    let mut tree = DomTree::default();
    assert_eq!(tree.new_node("root".to_string(), 7), 0);
    assert_eq!(tree.new_node("kid".to_string(), 3), 1);
    assert_eq!(tree.new_node("other".to_string(), 5), 2);
    tree.add_child(&7, &3);
    tree.add_child(&7, &5);
    tree.add_child(&7, &99);
    tree.add_child(&99, &3);
    assert_eq!(tree.get_node(&7).unwrap().children, vec![1, 2]);
    assert_eq!(tree.get_node(&3).unwrap().parent, Some(0));
    assert_eq!(tree.get_node(&5).unwrap().label, "other");
    assert_eq!(tree.all_nodes().len(), 3);
    assert!(tree.get_node(&99).is_none());
}

#[test]
fn the_two_problems_and_their_parts() {
    let names = |v: &[&str]| v.iter().map(|s| s.to_string()).collect::<Vec<String>>();
    let block = Block {
        instrs: vec![
            Code::Instruction(value("add", "a", &["x", "a"])),
            Code::Instruction(value("id", "x", &["a"])),
            effect("print", &["x", "y"], &[]),
        ],
    };
    assert_eq!(get_def_vars(&block), names(&["a", "x"]));
    assert_eq!(get_uses(&block), names(&["x", "a", "y"]));
    assert_eq!(union(&vec![names(&["a", "b"]), names(&["b", "c"]), vec![]]), names(&["a", "b", "c"]));
    assert!(same_names(&names(&["a", "b"]), &names(&["b", "a", "a"])));
    assert!(!same_names(&names(&["a"]), &names(&["a", "b"])));
    assert!(!DefinedVars.is_reverse());
    assert!(LiveVars.is_reverse());
    assert!(DefinedVars.init().is_empty() && LiveVars.init().is_empty());
    assert_eq!(DefinedVars.transfer(&block, &names(&["q"])), names(&["q", "a", "x"]));
    assert_eq!(LiveVars.transfer(&block, &names(&["a", "q"])), names(&["x", "a", "y", "q"]));
    assert_eq!(LiveVars.merge(&vec![names(&["a"]), names(&["b"])]), names(&["a", "b"]));
}

#[test]
fn the_rewrites_of_value_numbering() {
    let mut table = LvnTable::default();
    table.add_value(None, &"p".to_string());
    table.add_value(None, &"q".to_string());
    let var2num = vec![("x".to_string(), 0), ("y".to_string(), 1), ("x".to_string(), 1)];
    let code = reform_instr(value("add", "z", &["x", "y", "w"]), Some("lvn.2".to_string()), &table, &var2num);
    assert_eq!(show(&code), show(&Code::Instruction(value("add", "lvn.2", &["q", "q", "w"]))));
    let code = copy_instr(value("add", "z", &["x", "y"]), &"p".to_string());
    assert_eq!(show(&code), show(&Code::Instruction(value("id", "z", &["p"]))));
    let code = const_instr(value("add", "z", &["x", "y"]), None, Literal::Int(4));
    assert_eq!(show(&code), show(&constant("z", 4)));
    let code = const_instr(value("add", "z", &["x", "y"]), Some("h".to_string()), Literal::Int(4));
    assert_eq!(show(&code), show(&constant("h", 4)));
    let mut known: HashMap<i32, Literal> = HashMap::new();
    known.insert(0, Literal::Int(6));
    known.insert(1, Literal::Int(7));
    let product = ValueExpr::new("mul".to_string(), vec![0, 1]);
    assert!(matches!(const_fold(&mut known, &product, 2, true), Some(Literal::Int(42))));
    assert!(matches!(known.get(&2), Some(Literal::Int(42))));
    assert!(const_fold(&mut known, &product, 3, false).is_none());
    let partial = ValueExpr::new("le".to_string(), vec![5, 5]);
    assert!(matches!(const_fold(&mut known, &partial, 4, true), Some(Literal::Bool(true))));
    assert!(known.get(&4).is_none());
    let by_zero = ValueExpr::new("div".to_string(), vec![0, 9]);
    known.insert(9, Literal::Int(0));
    assert!(const_fold(&mut known, &by_zero, 5, true).is_none());
}
