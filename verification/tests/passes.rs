use bril_utils::cfg::form_cfg;
use bril_utils::df::{declared_vars, live_vars};
use bril_utils::form_blocks::{form_blocks, Block};
use bril_utils::ir::{Code, Function, Instruction, Literal, Type};
use bril_utils::lvn::{
    apply_fold, block_inputs, get_dest, local_value_numbering, lvn_pass, new_var,
    overwritten_later, sort_numbers, value_numbers_fit, wrapping_quotient, LvnTable, ValueExpr,
};
use bril_utils::tdce::{locally_killed_instrs_pass, trivial_dce, trivial_global_dce_pass};

fn constant(dest: &str, value: i64) -> Code {
    Code::Instruction(Instruction::Constant {
        dest: dest.to_string(),
        const_type: Some(Type::Int),
        value: Literal::Int(value),
    })
}

fn boolean(dest: &str, value: bool) -> Code {
    Code::Instruction(Instruction::Constant {
        dest: dest.to_string(),
        const_type: Some(Type::Bool),
        value: Literal::Bool(value),
    })
}

fn value(op: &str, dest: &str, args: &[&str]) -> Code {
    Code::Instruction(Instruction::Value {
        op: op.to_string(),
        dest: dest.to_string(),
        op_type: Some(Type::Int),
        args: args.iter().map(|a| a.to_string()).collect(),
        labels: vec![],
        funcs: vec![],
    })
}

fn effect(op: &str, args: &[&str], labels: &[&str]) -> Code {
    Code::Instruction(Instruction::Effect {
        op: op.to_string(),
        args: args.iter().map(|a| a.to_string()).collect(),
        labels: labels.iter().map(|a| a.to_string()).collect(),
        funcs: vec![],
    })
}

fn label(name: &str) -> Code {
    Code::Label { label: name.to_string() }
}

fn function(instrs: Vec<Code>) -> Function {
    Function { name: "main".to_string(), args: vec![], return_type: None, instrs }
}

fn show(code: &[Code]) -> String {
    format!("{:?}", code)
}

fn sorted(mut v: Vec<String>) -> Vec<String> {
    v.sort();
    v
}

#[test]
fn live_variables_of_two_blocks() {
    let f = function(vec![
        label("b1"),
        constant("x", 1),
        effect("jmp", &[], &["b2"]),
        label("b2"),
        effect("print", &["x"], &[]),
        effect("ret", &[], &[]),
    ]);
    let cfg = form_cfg(form_blocks(&f));
    let facts = live_vars(&cfg);
    assert_eq!(facts.len(), 2);
    assert_eq!(facts[0].name, "b1");
    assert_eq!(facts[0].ins, Vec::<String>::new());
    assert_eq!(facts[0].outs, vec!["x"]);
    assert_eq!(facts[1].name, "b2");
    assert_eq!(facts[1].ins, vec!["x"]);
    assert_eq!(facts[1].outs, Vec::<String>::new());
}

#[test]
fn live_variables_respect_the_kill_order_in_a_block() {
    let f = function(vec![
        label("b1"),
        value("add", "y", &["x", "x"]),
        constant("x", 2),
        value("id", "z", &["x"]),
        effect("print", &["z", "w"], &[]),
    ]);
    let cfg = form_cfg(form_blocks(&f));
    let facts = live_vars(&cfg);
    assert_eq!(sorted(facts[0].ins.clone()), vec!["w", "x"]);
    assert!(facts[0].outs.is_empty());
}

#[test]
fn defined_variables_flow_forward_through_a_loop() {
    let f = function(vec![
        label("start"),
        constant("a", 1),
        label("head"),
        constant("b", 2),
        effect("br", &["a"], &["head", "out"]),
        label("out"),
        constant("c", 3),
    ]);
    let cfg = form_cfg(form_blocks(&f));
    let facts = declared_vars(&cfg);
    assert_eq!(facts[0].name, "start");
    assert!(facts[0].ins.is_empty());
    assert_eq!(sorted(facts[0].outs.clone()), vec!["a"]);
    assert_eq!(sorted(facts[1].ins.clone()), vec!["a", "b"]);
    assert_eq!(sorted(facts[1].outs.clone()), vec!["a", "b"]);
    assert_eq!(sorted(facts[2].ins.clone()), vec!["a", "b"]);
    assert_eq!(sorted(facts[2].outs.clone()), vec!["a", "b", "c"]);
}

fn sums() -> Vec<Code> {
    vec![
        constant("x", 1),
        constant("y", 1),
        value("add", "z", &["x", "y"]),
        value("add", "w", &["y", "x"]),
        effect("print", &["z"], &[]),
        effect("print", &["w"], &[]),
    ]
}

#[test]
fn value_numbering_with_commutativity_reuses_the_sum() {
    let out = lvn_pass(Block { instrs: sums() }, true, true, false);
    let expected = vec![
        constant("x", 1),
        constant("y", 1),
        value("add", "z", &["x", "y"]),
        value("id", "w", &["z"]),
        effect("print", &["z"], &[]),
        effect("print", &["z"], &[]),
    ];
    assert_eq!(show(&out.instrs), show(&expected));
}

#[test]
fn value_numbering_without_commutativity_keeps_both_sums() {
    let out = lvn_pass(Block { instrs: sums() }, true, false, false);
    assert_eq!(show(&out.instrs), show(&sums()));
}

#[test]
fn value_numbering_with_folding_makes_constants() {
    let out = lvn_pass(Block { instrs: sums() }, true, true, true);
    let expected = vec![
        constant("x", 1),
        constant("y", 1),
        constant("z", 2),
        constant("w", 2),
        effect("print", &["z"], &[]),
        effect("print", &["z"], &[]),
    ];
    assert_eq!(show(&out.instrs), show(&expected));
}

#[test]
fn value_numbering_renames_a_destination_that_is_overwritten_later() {
    let block = vec![
        value("add", "a", &["p", "q"]),
        value("mul", "a", &["a", "p"]),
        effect("print", &["a"], &[]),
    ];
    let out = lvn_pass(Block { instrs: block }, false, false, false);
    let expected = vec![
        value("add", "lvn.2", &["p", "q"]),
        value("mul", "a", &["lvn.2", "p"]),
        effect("print", &["a"], &[]),
    ];
    assert_eq!(show(&out.instrs), show(&expected));
}

#[test]
fn value_numbering_rewrites_only_the_arguments_of_calls_and_effects() {
    let block = vec![
        label("l"),
        constant("a", 1),
        value("id", "b", &["a"]),
        value("call", "c", &["b"]),
        effect("print", &["b", "c"], &[]),
    ];
    let out = lvn_pass(Block { instrs: block }, true, false, false);
    let expected = vec![
        label("l"),
        constant("a", 1),
        value("id", "b", &["a"]),
        value("call", "c", &["a"]),
        effect("print", &["a", "c"], &[]),
    ];
    assert_eq!(show(&out.instrs), show(&expected));
}

#[test]
fn folding_of_comparisons_and_partial_folds() {
    let block = vec![
        boolean("t", true),
        boolean("f", false),
        value("and", "a", &["f", "u"]),
        value("or", "b", &["u", "t"]),
        value("and", "c", &["t", "u"]),
        value("eq", "d", &["u", "u"]),
        value("not", "e", &["t"]),
    ];
    let out = lvn_pass(Block { instrs: block }, false, false, true);
    let kinds: Vec<String> = out
        .instrs
        .iter()
        .map(|c| match c {
            Code::Instruction(Instruction::Constant { dest, value, .. }) => {
                format!("{dest}={value:?}")
            }
            Code::Instruction(Instruction::Value { dest, op, .. }) => format!("{dest}:{op}"),
            _ => String::new(),
        })
        .collect();
    assert_eq!(
        kinds,
        vec!["t=Bool(true)", "f=Bool(false)", "a=Bool(false)", "b=Bool(true)", "c:and", "d=Bool(true)", "e=Bool(false)"]
    );
}

#[test]
fn fold_of_integer_operations_wraps() {
    let add = "add".to_string();
    let mul = "mul".to_string();
    let sub = "sub".to_string();
    let div = "div".to_string();
    let lt = "lt".to_string();
    let max = Literal::Int(i64::MAX);
    let min = Literal::Int(i64::MIN);
    let one = Literal::Int(1);
    let two = Literal::Int(2);
    let zero = Literal::Int(0);
    let minus_one = Literal::Int(-1);
    let seven = Literal::Int(7);
    let minus_seven = Literal::Int(-7);
    assert!(matches!(apply_fold(&add, &max, Some(&one)), Some(Literal::Int(i64::MIN))));
    assert!(matches!(apply_fold(&sub, &min, Some(&one)), Some(Literal::Int(i64::MAX))));
    assert!(matches!(apply_fold(&mul, &max, Some(&two)), Some(Literal::Int(-2))));
    assert!(matches!(apply_fold(&div, &seven, Some(&two)), Some(Literal::Int(3))));
    assert!(matches!(apply_fold(&div, &minus_seven, Some(&two)), Some(Literal::Int(-3))));
    assert!(matches!(apply_fold(&div, &min, Some(&minus_one)), Some(Literal::Int(i64::MIN))));
    assert!(apply_fold(&div, &seven, Some(&zero)).is_none());
    assert!(matches!(apply_fold(&lt, &one, Some(&two)), Some(Literal::Bool(true))));
    assert!(apply_fold(&add, &one, Some(&Literal::Bool(true))).is_none());
    assert!(apply_fold(&add, &one, None).is_none());
    assert_eq!(wrapping_quotient(i64::MIN, 1), i64::MIN);
    assert_eq!(wrapping_quotient(-9, -2), 4);
    assert_eq!(wrapping_quotient(9, -2), -4);
}

#[test]
fn table_of_value_numbers() {
    let mut table = LvnTable::default();
    let x = "x".to_string();
    let y = "y".to_string();
    assert_eq!(table.next_value(), 0);
    assert_eq!(table.add_value(None, &x), 0);
    let sum = ValueExpr::new("add".to_string(), vec![0, 0]);
    assert_eq!(table.add_value(Some(sum.copy()), &y), 1);
    assert_eq!(table.next_value(), 2);
    assert!(table.contains_expr(&sum, false));
    assert_eq!(table.lookup_expr(&sum, false), Some((1, "y".to_string())));
    let other = ValueExpr::new("add".to_string(), vec![0, 1]);
    assert!(!table.contains_expr(&other, false));
    assert!(!sum.same_as(&other));
    let copy = ValueExpr::new("id".to_string(), vec![0]);
    assert_eq!(table.lookup_expr(&copy, true), Some((0, "x".to_string())));
    assert_eq!(table.lookup_expr(&copy, false), None);
    assert_eq!(table.lookup_value(1).unwrap().1, "y");
    assert!(table.lookup_value(2).is_none());
    assert!(table.lookup_value(-1).is_none());
    assert_eq!(get_dest(&table, &x, true), "lvn.2");
    assert_eq!(get_dest(&table, &x, false), "x");
    assert_eq!(new_var(17), "lvn.17");
}

#[test]
fn marks_and_inputs_of_a_block() {
    let block = vec![
        value("add", "a", &["p", "q"]),
        value("mul", "a", &["a", "p"]),
        label("l"),
        value("id", "b", &["r"]),
        effect("print", &["a"], &[]),
    ];
    assert_eq!(overwritten_later(&block), vec![true, false, true, false, true]);
    assert_eq!(block_inputs(&block), vec!["p", "q", "r"]);
    assert_eq!(sort_numbers(&vec![3, 1, 2, 1]), vec![1, 1, 2, 3]);
}

#[test]
fn value_numbering_of_a_function_goes_block_by_block() {
    let mut f = function(vec![
        constant("x", 1),
        effect("jmp", &[], &["next"]),
        label("next"),
        value("id", "y", &["x"]),
        effect("print", &["y"], &[]),
    ]);
    assert!(value_numbers_fit(&f));
    local_value_numbering(&mut f, true, true, true);
    let expected = vec![
        constant("x", 1),
        effect("jmp", &[], &["next"]),
        label("next"),
        value("id", "y", &["x"]),
        effect("print", &["x"], &[]),
    ];
    assert_eq!(show(&f.instrs), show(&expected));
}

#[test]
fn global_sweep_deletes_unread_definitions() {
    let mut f = function(vec![
        constant("a", 1),
        constant("b", 2),
        value("add", "c", &["a", "a"]),
        effect("print", &["a"], &[]),
    ]);
    assert!(trivial_global_dce_pass(&mut f));
    assert_eq!(show(&f.instrs), show(&[constant("a", 1), effect("print", &["a"], &[])]));
    assert!(!trivial_global_dce_pass(&mut f));
}

#[test]
fn local_sweep_deletes_overwritten_definitions() {
    let mut f = function(vec![
        constant("a", 1),
        constant("a", 2),
        value("add", "a", &["a", "a"]),
        constant("b", 3),
        label("l"),
        constant("b", 4),
        effect("print", &["a", "b"], &[]),
    ]);
    assert!(locally_killed_instrs_pass(&mut f));
    let expected = vec![
        constant("a", 2),
        value("add", "a", &["a", "a"]),
        constant("b", 3),
        label("l"),
        constant("b", 4),
        effect("print", &["a", "b"], &[]),
    ];
    assert_eq!(show(&f.instrs), show(&expected));
    assert!(!locally_killed_instrs_pass(&mut f));
}

#[test]
fn elimination_runs_to_a_fixpoint() {
    let mut f = function(vec![
        constant("a", 1),
        value("id", "b", &["a"]),
        value("id", "c", &["b"]),
        constant("d", 4),
        effect("print", &["d"], &[]),
    ]);
    trivial_dce(&mut f);
    assert_eq!(show(&f.instrs), show(&[constant("d", 4), effect("print", &["d"], &[])]));
}
