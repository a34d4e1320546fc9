use bril_utils::cfg::{form_cfg, reassemble};
use bril_utils::dominators::find_dominators;
use bril_utils::form_blocks::{flatten_blocks, form_blocks};
use bril_utils::interp::machine::{execute_main, Action, Input};
use bril_utils::interp::numify::numify;
use bril_utils::interp::value::Value;
use bril_utils::ir::{Argument, Code, Function, Instruction, Literal, Program, Type};
use bril_utils::lvn::local_value_numbering;
use bril_utils::ssa::{from_ssa, to_ssa, var_defined_multiple_times};
use bril_utils::tdce::trivial_dce;

fn constant(dest: &str, value: i64) -> Code {
    Code::Instruction(Instruction::Constant {
        dest: dest.to_string(),
        const_type: Some(Type::Int),
        value: Literal::Int(value),
    })
}

fn value(op: &str, dest: &str, args: &[&str]) -> Code {
    Code::Instruction(Instruction::Value {
        op: op.to_string(),
        dest: dest.to_string(),
        op_type: Some(Type::Int),
        args: args.iter().map(|a| a.to_string()).collect(),
        labels: vec![],
        funcs: vec![],
    })
}

fn effect(op: &str, args: &[&str], labels: &[&str]) -> Code {
    Code::Instruction(Instruction::Effect {
        op: op.to_string(),
        args: args.iter().map(|a| a.to_string()).collect(),
        labels: labels.iter().map(|a| a.to_string()).collect(),
        funcs: vec![],
    })
}

fn label(name: &str) -> Code {
    Code::Label { label: name.to_string() }
}

fn function(args: &[&str], instrs: Vec<Code>) -> Function {
    Function {
        name: "main".to_string(),
        args: args
            .iter()
            .map(|a| Argument { name: a.to_string(), arg_type: Type::Int })
            .collect(),
        return_type: None,
        instrs,
    }
}

fn copy(f: &Function) -> Function {
    Function {
        name: f.name.clone(),
        args: f
            .args
            .iter()
            .map(|a| Argument { name: a.name.clone(), arg_type: a.arg_type.clone() })
            .collect(),
        return_type: f.return_type.clone(),
        instrs: f.instrs.clone(),
    }
}

fn outputs_with(f: &Function, inputs: &[&str], collect: bool) -> Vec<String> {
    let prog = numify(&Program { functions: vec![copy(f)] }).unwrap();
    let inputs: Vec<Input> =
        inputs.iter().map(|t| Input { text: t.to_string(), float_bits: None }).collect();
    let mut machine = execute_main(&prog, &inputs).unwrap();
    if !collect {
        machine.heap.gc_limit = i64::MAX;
    }
    let mut lines = Vec::new();
    loop {
        match machine.execute(&prog).unwrap() {
            Action::Print(vals) => {
                let texts: Vec<String> = vals.iter().map(|v| v.render().unwrap()).collect();
                lines.push(texts.join(" "));
            }
            Action::Finished => break,
            Action::Continue => {}
            Action::Float { .. } | Action::Promote(_) => {
                machine.resume(Value::Float(0));
            }
        }
    }
    lines
}

fn outputs(f: &Function, inputs: &[&str]) -> Vec<String> {
    outputs_with(f, inputs, true)
}

/// Counts down from `n`, printing the sum of the numbers passed and, at the
/// end, whether the first number was great.
fn countdown() -> Function {
    function(
        &["n"],
        vec![
            constant("zero", 0),
            constant("one", 1),
            constant("sum", 0),
            constant("dead", 9),
            value("id", "i", &["n"]),
            label("head"),
            value("gt", "go", &["i", "zero"]),
            effect("br", &["go"], &["body", "out"]),
            label("body"),
            value("add", "sum", &["sum", "i"]),
            value("add", "twice", &["i", "sum"]),
            value("add", "again", &["sum", "i"]),
            value("sub", "i", &["i", "one"]),
            constant("dead", 3),
            effect("print", &["sum", "twice", "again"], &[]),
            effect("jmp", &[], &["head"]),
            label("out"),
            constant("limit", 3),
            value("gt", "big", &["n", "limit"]),
            effect("br", &["big"], &["yes", "done"]),
            label("yes"),
            constant("sum", 100),
            label("done"),
            effect("print", &["sum"], &[]),
        ],
    )
}

fn cases() -> Vec<Vec<&'static str>> {
    vec![vec!["0"], vec!["3"], vec!["5"]]
}

fn same_behaviour(transform: impl Fn(&mut Function)) {
    for inputs in cases() {
        let f = countdown();
        let expected = outputs(&f, &inputs);
        let mut g = countdown();
        transform(&mut g);
        assert_eq!(outputs(&g, &inputs), expected);
    }
    assert_eq!(outputs(&countdown(), &["5"]), vec!["5 10 10", "9 13 13", "12 15 15", "14 16 16", "15 16 16", "100"]);
}

#[test]
fn blocks_laid_end_to_end_are_the_body() {
    let f = countdown();
    assert_eq!(format!("{:?}", flatten_blocks(form_blocks(&f))), format!("{:?}", f.instrs));
}

#[test]
fn the_body_of_the_graph_behaves_as_the_function() {
    same_behaviour(|f| f.instrs = reassemble(form_cfg(form_blocks(f))));
}

#[test]
fn elimination_keeps_the_behaviour() {
    same_behaviour(|f| trivial_dce(f));
    let mut f = countdown();
    trivial_dce(&mut f);
    assert!(!format!("{:?}", f.instrs).contains("dead"));
}

#[test]
fn value_numbering_keeps_the_behaviour() {
    for (prop, comm, fold) in [(false, false, false), (true, false, false), (true, true, false), (true, true, true)] {
        same_behaviour(move |f| local_value_numbering(f, prop, comm, fold));
        same_behaviour(move |f| {
            local_value_numbering(f, prop, comm, fold);
            trivial_dce(f)
        });
    }
}

#[test]
fn value_numbering_twice_is_value_numbering_once_after_elimination() {
    let block = || {
        function(
            &["x", "y"],
            vec![
                value("add", "a", &["x", "y"]),
                value("add", "b", &["y", "x"]),
                value("mul", "c", &["a", "b"]),
                value("id", "d", &["c"]),
                effect("print", &["d", "b"], &[]),
            ],
        )
    };
    let mut once = block();
    local_value_numbering(&mut once, true, true, true);
    trivial_dce(&mut once);
    let mut twice = block();
    local_value_numbering(&mut twice, true, true, true);
    local_value_numbering(&mut twice, true, true, true);
    trivial_dce(&mut twice);
    assert_eq!(format!("{:?}", twice.instrs), format!("{:?}", once.instrs));
    assert_eq!(outputs(&once, &["2", "3"]), vec!["25 5"]);
}

#[test]
fn into_ssa_and_back_keeps_the_behaviour() {
    same_behaviour(|f| to_ssa(f));
    same_behaviour(|f| {
        to_ssa(f);
        from_ssa(f)
    });
}

#[test]
fn in_ssa_form_every_variable_has_one_definition() {
    let mut f = countdown();
    to_ssa(&mut f);
    let mut dests: Vec<String> = f
        .instrs
        .iter()
        .filter_map(|c| match c {
            Code::Instruction(Instruction::Constant { dest, .. })
            | Code::Instruction(Instruction::Value { dest, .. }) => Some(dest.clone()),
            _ => None,
        })
        .collect();
    let all = dests.len();
    dests.sort();
    dests.dedup();
    assert_eq!(dests.len(), all);
    assert!(f.instrs.iter().any(
        |c| matches!(c, Code::Instruction(Instruction::Value { op, args, .. }) if op == "phi" && args.len() == 2)
    ));
}

/// The label of the block of every item of a body in which every block
/// starts with its label.
fn homes(code: &[Code]) -> Vec<String> {
    let mut now = String::new();
    let mut out = Vec::new();
    for c in code {
        if let Code::Label { label } = c {
            now = label.clone();
        }
        out.push(now.clone());
    }
    out
}

#[test]
fn in_ssa_form_every_use_follows_its_definition() {
    let mut f = countdown();
    to_ssa(&mut f);
    assert!(matches!(&f.instrs[0], Code::Label { .. }));
    let home = homes(&f.instrs);
    let dom = find_dominators(&form_cfg(form_blocks(&f)));
    let dominators = |block: &String| -> Vec<String> {
        dom.iter().find(|(name, _)| name == block).map(|(_, d)| d.clone()).unwrap()
    };
    let defined = |name: &String| -> Option<usize> {
        f.instrs.iter().position(|c| match c {
            Code::Instruction(Instruction::Constant { dest, .. })
            | Code::Instruction(Instruction::Value { dest, .. }) => dest == name,
            _ => false,
        })
    };
    let mut uses: usize = 0;
    for (at, c) in f.instrs.iter().enumerate() {
        match c {
            Code::Instruction(Instruction::Value { op, args, labels, .. }) if op == "phi" => {
                assert_eq!(args.len(), labels.len());
                for (a, l) in args.iter().zip(labels.iter()) {
                    if let Some(d) = defined(a) {
                        assert!(dominators(l).contains(&home[d]));
                        uses += 1;
                    }
                }
            }
            Code::Instruction(Instruction::Value { args, .. })
            | Code::Instruction(Instruction::Effect { args, .. }) => {
                for a in args {
                    if let Some(d) = defined(a) {
                        if home[d] == home[at] {
                            let phi = matches!(&f.instrs[d], Code::Instruction(Instruction::Value { op, .. }) if op == "phi");
                            assert!(phi || d < at);
                        } else {
                            assert!(dominators(&home[at]).contains(&home[d]));
                        }
                        uses += 1;
                    }
                }
            }
            _ => {}
        }
    }
    assert!(uses > 3);
}

#[test]
fn repeated_definitions_are_reported() {
    let vars: Vec<String> = ["x", "y", "x", "z", "y", "x"].iter().map(|s| s.to_string()).collect();
    assert_eq!(
        var_defined_multiple_times(vars),
        vec![("x".to_string(), true), ("y".to_string(), true), ("z".to_string(), false)]
    );
    assert_eq!(var_defined_multiple_times(vec![]), vec![]);
    let mut f = countdown();
    to_ssa(&mut f);
    let dests: Vec<String> = f
        .instrs
        .iter()
        .filter_map(|c| match c {
            Code::Instruction(Instruction::Constant { dest, .. })
            | Code::Instruction(Instruction::Value { dest, .. }) => Some(dest.clone()),
            _ => None,
        })
        .collect();
    assert!(!dests.is_empty());
    assert!(var_defined_multiple_times(dests).iter().all(|(_, twice)| !twice));
}

/// Builds a list of `n` cells, each holding a number and the cell before
/// it, and prints the numbers from the last cell back.
fn list() -> Function {
    function(
        &["n"],
        vec![
            constant("zero", 0),
            constant("one", 1),
            constant("two", 2),
            constant("i", 0),
            value("alloc", "head", &["two"]),
            effect("store", &["head", "zero"], &[]),
            value("ptradd", "slot", &["head", "one"]),
            effect("store", &["slot", "head"], &[]),
            label("build"),
            value("lt", "go", &["i", "n"]),
            effect("br", &["go"], &["more", "walk"]),
            label("more"),
            value("alloc", "node", &["two"]),
            value("alloc", "waste", &["two"]),
            effect("store", &["node", "i"], &[]),
            value("ptradd", "slot", &["node", "one"]),
            effect("store", &["slot", "head"], &[]),
            value("id", "head", &["node"]),
            value("add", "i", &["i", "one"]),
            effect("jmp", &[], &["build"]),
            label("walk"),
            value("ge", "go", &["i", "zero"]),
            effect("br", &["go"], &["step", "end"]),
            label("step"),
            value("load", "v", &["head"]),
            effect("print", &["v"], &[]),
            value("ptradd", "slot", &["head", "one"]),
            value("load", "head", &["slot"]),
            value("sub", "i", &["i", "one"]),
            effect("jmp", &[], &["walk"]),
            label("end"),
            effect("ret", &[], &[]),
        ],
    )
}

#[test]
fn collection_keeps_the_behaviour() {
    for n in ["0", "3", "40"] {
        let with = outputs_with(&list(), &[n], true);
        let without = outputs_with(&list(), &[n], false);
        assert_eq!(with, without);
        assert_eq!(with.len(), n.parse::<usize>().unwrap() + 1);
    }
    assert_eq!(outputs(&list(), &["3"]), vec!["2", "1", "0", "0"]);
}
