use bril_utils::add_count::{count_adds, is_add, report};
use bril_utils::cfg::form_cfg;
use bril_utils::dominators::find_dominators_num;
use bril_utils::form_blocks::form_blocks;
use bril_utils::fresh::{decimal_string, fresh, signed_decimal_string};
use bril_utils::ir::{Code, Function, Instruction, Literal, Program, Type};
use bril_utils::jit::{
    add_abort, convert_trace_to_straight_line, cutoff_trace, insert_trace,
    insert_trace_end_label, strip_trace_line_num, TraceItem,
};
use bril_utils::validate::{dominates, get_paths_to_node, validate_dominators};

fn constant(dest: &str, value: i64) -> Instruction {
    Instruction::Constant {
        dest: dest.to_string(),
        const_type: Some(Type::Int),
        value: Literal::Int(value),
    }
}

fn value(op: &str, dest: &str, args: &[&str]) -> Instruction {
    Instruction::Value {
        op: op.to_string(),
        dest: dest.to_string(),
        op_type: Some(Type::Int),
        args: args.iter().map(|a| a.to_string()).collect(),
        labels: vec![],
        funcs: vec![],
    }
}

fn effect(op: &str, args: &[&str], labels: &[&str]) -> Instruction {
    Instruction::Effect {
        op: op.to_string(),
        args: args.iter().map(|a| a.to_string()).collect(),
        labels: labels.iter().map(|a| a.to_string()).collect(),
        funcs: vec![],
    }
}

fn label(name: &str) -> Code {
    Code::Label { label: name.to_string() }
}

fn function(name: &str, instrs: Vec<Code>) -> Function {
    Function { name: name.to_string(), args: vec![], return_type: None, instrs }
}

fn show<T: std::fmt::Debug>(v: &T) -> String {
    format!("{:?}", v)
}

#[test]
fn one_addition_is_reported_in_the_singular() {
    let program = Program {
        functions: vec![function(
            "main",
            vec![
                Code::Instruction(constant("a", 1)),
                Code::Instruction(value("add", "b", &["a", "a"])),
                Code::Instruction(effect("print", &["b"], &[])),
            ],
        )],
    };
    assert_eq!(count_adds(&program), 1);
    assert_eq!(report(1), "Program contains 1 add instruction");
    assert_eq!(report(0), "Program contains 0 add instructions");
    assert_eq!(report(12), "Program contains 12 add instructions");
    assert_eq!(is_add(&value("add", "b", &[])), 1);
    assert_eq!(is_add(&value("mul", "b", &[])), 0);
    assert_eq!(is_add(&effect("add", &[], &[])), 0);
}

#[test]
fn additions_are_counted_over_all_functions() {
    let body = || {
        vec![
            label("l"),
            Code::Instruction(value("add", "b", &["a", "a"])),
            Code::Instruction(value("add", "c", &["b", "a"])),
        ]
    };
    let program = Program { functions: vec![function("f", body()), function("g", body())] };
    assert_eq!(count_adds(&program), 4);
}

fn item(instr: Instruction, line_num: i64) -> TraceItem {
    TraceItem { instr, line_num }
}

#[test]
fn a_trace_is_cut_after_its_first_side_effect() {
    let trace = vec![
        item(constant("a", 1), 0),
        item(effect("br", &["a"], &["x", "y"]), 1),
        item(value("call", "b", &[]), 2),
        item(constant("c", 1), 3),
        item(effect("print", &["c"], &[]), 4),
    ];
    let cut = cutoff_trace(trace);
    assert_eq!(cut.len(), 3);
    assert_eq!(cut[2].line_num, 2);
    for op in ["print", "store", "free"] {
        let cut = cutoff_trace(vec![item(effect(op, &[], &[]), 0), item(constant("a", 1), 1)]);
        assert_eq!(cut.len(), 1);
    }
    let cut = cutoff_trace(vec![item(value("alloc", "p", &["n"]), 0), item(constant("a", 1), 1)]);
    assert_eq!(cut.len(), 1);
    let all = cutoff_trace(vec![item(constant("a", 1), 0), item(value("add", "b", &[]), 1)]);
    assert_eq!(all.len(), 2);
    assert!(cutoff_trace(vec![]).is_empty());
}

#[test]
fn a_trace_becomes_guarded_straight_line_code() {
    let code = convert_trace_to_straight_line(vec![
        constant("a", 1),
        effect("br", &["a"], &["x", "y"]),
        effect("jmp", &[], &["x"]),
        value("add", "b", &["a", "a"]),
    ]);
    let expected = vec![
        Code::Instruction(effect("speculate", &[], &[])),
        Code::Instruction(constant("a", 1)),
        Code::Instruction(effect("guard", &["a"], &["abort"])),
        Code::Instruction(value("add", "b", &["a", "a"])),
        Code::Instruction(effect("commit", &[], &[])),
        Code::Instruction(effect("jmp", &[], &["traceend"])),
        label("abort"),
    ];
    assert_eq!(show(&code), show(&expected));
}

#[test]
fn the_end_of_a_trace_is_marked_in_main() {
    let body = || vec![Code::Instruction(constant("a", 1)), Code::Instruction(constant("b", 2))];
    let mut program = Program {
        functions: vec![function("main", body()), function("f", body()), function("main", body())],
    };
    let mut trace = vec![item(constant("a", 1), 0), item(constant("b", 2), 1)];
    assert!(insert_trace_end_label(&mut program, &mut trace));
    assert_eq!(trace.len(), 1);
    assert_eq!(show(&program.functions[0].instrs), show(&body()));
    let expected =
        vec![Code::Instruction(constant("a", 1)), label("traceend"), Code::Instruction(constant("b", 2))];
    assert_eq!(show(&program.functions[2].instrs), show(&expected));
    let mut far = vec![item(constant("a", 1), 4)];
    assert!(!insert_trace_end_label(&mut program, &mut far));
    assert_eq!(far.len(), 1);
    let mut negative = vec![item(constant("a", 1), -1)];
    assert!(!insert_trace_end_label(&mut program, &mut negative));
    let mut none: Vec<TraceItem> = vec![];
    assert!(!insert_trace_end_label(&mut program, &mut none));
    let mut other = Program { functions: vec![function("f", body())] };
    let mut trace = vec![item(constant("a", 1), 0)];
    assert!(!insert_trace_end_label(&mut other, &mut trace));
}

#[test]
fn the_code_of_a_trace_goes_before_the_body() {
    let mut f = function("main", vec![Code::Instruction(constant("b", 2))]);
    insert_trace(&mut f, vec![label("t"), Code::Instruction(constant("a", 1))]);
    let expected =
        vec![label("t"), Code::Instruction(constant("a", 1)), Code::Instruction(constant("b", 2))];
    assert_eq!(show(&f.instrs), show(&expected));
    let instrs = strip_trace_line_num(vec![item(constant("a", 1), 7)]);
    assert_eq!(show(&instrs), show(&vec![constant("a", 1)]));
    let code = add_abort(vec![label("t")]);
    let expected = vec![
        label("t"),
        Code::Instruction(effect("jmp", &[], &["exit"])),
        label("abort"),
        Code::Instruction(constant("fourtytwo", 42)),
        Code::Instruction(effect("print", &["fourtytwo"], &[])),
        label("exit"),
    ];
    assert_eq!(show(&code), show(&expected));
}

fn looping() -> Function {
    function(
        "main",
        vec![
            label("start"),
            Code::Instruction(constant("c", 1)),
            label("head"),
            Code::Instruction(effect("br", &["c"], &["left", "right"])),
            label("left"),
            Code::Instruction(effect("jmp", &[], &["join"])),
            label("right"),
            Code::Instruction(effect("jmp", &[], &["join"])),
            label("join"),
            Code::Instruction(effect("br", &["c"], &["head", "out"])),
            label("out"),
            Code::Instruction(effect("ret", &[], &[])),
        ],
    )
}

#[test]
fn the_validator_confirms_the_dominators() {
    let cfg = form_cfg(form_blocks(&looping()));
    let dom = find_dominators_num(&cfg);
    assert!(validate_dominators(&cfg, &dom));
    let mut wrong = find_dominators_num(&cfg);
    wrong.get_mut(&4).unwrap().insert(2);
    assert!(!validate_dominators(&cfg, &wrong));
}

#[test]
fn simple_paths_are_enumerated() {
    let cfg = form_cfg(form_blocks(&looping()));
    let mut paths = get_paths_to_node(&cfg, 0, 4, &vec![]);
    paths.sort();
    assert_eq!(paths, vec![vec![0, 1, 2, 4], vec![0, 1, 3, 4]]);
    assert!(dominates(&cfg, 0, 1, 4));
    assert!(!dominates(&cfg, 0, 2, 4));
    assert!(dominates(&cfg, 0, 4, 5));
    assert!(get_paths_to_node(&cfg, 4, 0, &vec![]).is_empty());
}

#[test]
fn numerals_and_fresh_names() {
    assert_eq!(decimal_string(0), "0");
    assert_eq!(decimal_string(1090), "1090");
    assert_eq!(decimal_string(u128::MAX), u128::MAX.to_string());
    assert_eq!(signed_decimal_string(i64::MIN), i64::MIN.to_string());
    assert_eq!(signed_decimal_string(-45), "-45");
    let taken: Vec<String> = ["b1", "b2", "x", "b4"].iter().map(|s| s.to_string()).collect();
    assert_eq!(fresh("b", &taken), "b3");
    assert_eq!(fresh("entry", &taken), "entry1");
    assert_eq!(fresh("b", &vec![]), "b1");
}
