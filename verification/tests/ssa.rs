use bril_utils::cfg::form_cfg;
use bril_utils::form_blocks::form_blocks;
use bril_utils::ir::{Argument, Code, Function, Instruction, Literal, Type};
use bril_utils::ssa::{
    fresh_name, from_ssa, get_def_blocks, get_phi_nodes, iterated_frontier, to_ssa, Phi,
};

fn constant(dest: &str, value: i64) -> Code {
    Code::Instruction(Instruction::Constant {
        dest: dest.to_string(),
        const_type: Some(Type::Int),
        value: Literal::Int(value),
    })
}

fn value(op: &str, dest: &str, args: &[&str], labels: &[&str]) -> Code {
    Code::Instruction(Instruction::Value {
        op: op.to_string(),
        dest: dest.to_string(),
        op_type: Some(Type::Int),
        args: args.iter().map(|a| a.to_string()).collect(),
        labels: labels.iter().map(|a| a.to_string()).collect(),
        funcs: vec![],
    })
}

fn effect(op: &str, args: &[&str], labels: &[&str]) -> Code {
    Code::Instruction(Instruction::Effect {
        op: op.to_string(),
        args: args.iter().map(|a| a.to_string()).collect(),
        labels: labels.iter().map(|a| a.to_string()).collect(),
        funcs: vec![],
    })
}

fn label(name: &str) -> Code {
    Code::Label { label: name.to_string() }
}

fn function(args: &[&str], instrs: Vec<Code>) -> Function {
    Function {
        name: "main".to_string(),
        args: args
            .iter()
            .map(|a| Argument { name: a.to_string(), arg_type: Type::Int })
            .collect(),
        return_type: None,
        instrs,
    }
}

fn show(code: &[Code]) -> String {
    format!("{:?}", code)
}

fn diamond() -> Function {
    function(
        &[],
        vec![
            label("top"),
            constant("x", 1),
            constant("c", 1),
            effect("br", &["c"], &["left", "right"]),
            label("left"),
            constant("x", 2),
            effect("jmp", &[], &["join"]),
            label("right"),
            effect("jmp", &[], &["join"]),
            label("join"),
            effect("print", &["x"], &[]),
        ],
    )
}

#[test]
fn diamond_gets_a_phi_with_two_inputs_at_the_merge() {
    let mut f = diamond();
    to_ssa(&mut f);
    let expected = vec![
        label("top"),
        constant("x.0", 1),
        constant("c.0", 1),
        effect("br", &["c.0"], &["left", "right"]),
        label("left"),
        constant("x.1", 2),
        effect("jmp", &[], &["join"]),
        label("right"),
        effect("jmp", &[], &["join"]),
        label("join"),
        value("phi", "x.2", &["x.1", "x.0"], &["left", "right"]),
        effect("print", &["x.2"], &[]),
        effect("ret", &[], &[]),
    ];
    assert_eq!(show(&f.instrs), show(&expected));
}

#[test]
fn phi_nodes_are_placed_on_the_frontier_of_the_definitions() {
    let f = diamond();
    let cfg = form_cfg(form_blocks(&f));
    let phis = get_phi_nodes(&cfg, &vec![]);
    assert_eq!(phis.len(), 4);
    assert!(phis[0].is_empty() && phis[1].is_empty() && phis[2].is_empty());
    assert_eq!(phis[3].len(), 1);
    assert_eq!(phis[3][0].dest, "x");
    assert_eq!(phis[3][0].orig_dest, "x");
    assert!(phis[3][0].vars.is_empty());
    let defs = get_def_blocks(&cfg);
    assert_eq!(defs.len(), 2);
    assert_eq!(defs[0].name, "x");
    assert_eq!(defs[0].blocks, vec![true, true, false, false]);
    assert_eq!(defs[1].name, "c");
    assert_eq!(defs[1].blocks, vec![true, false, false, false]);
}

#[test]
fn a_parameter_counts_as_a_definition_in_the_entry_block() {
    let f = function(
        &["x", "c"],
        vec![
            label("top"),
            effect("br", &["c"], &["left", "join"]),
            label("left"),
            constant("x", 2),
            label("join"),
            effect("print", &["x"], &[]),
        ],
    );
    let mut g = function(&["x", "c"], f.instrs.clone());
    to_ssa(&mut g);
    let expected = vec![
        label("top"),
        effect("br", &["c"], &["left", "join"]),
        label("left"),
        constant("x.0", 2),
        effect("jmp", &[], &["join"]),
        label("join"),
        value("phi", "x.1", &["x", "x.0"], &["top", "left"]),
        effect("print", &["x.1"], &[]),
        effect("ret", &[], &[]),
    ];
    assert_eq!(show(&g.instrs), show(&expected));
}

#[test]
fn a_variable_without_a_definition_on_a_path_is_undefined_in_the_phi() {
    let mut f = function(
        &["c"],
        vec![
            label("top"),
            effect("br", &["c"], &["left", "join"]),
            label("left"),
            constant("x", 2),
            label("join"),
            effect("print", &["x"], &[]),
        ],
    );
    to_ssa(&mut f);
    assert_eq!(
        show(&f.instrs[6..7]),
        show(&[value("phi", "x.1", &["__undefined", "x.0"], &["top", "left"])])
    );
}

#[test]
fn a_loop_gets_a_phi_at_its_head() {
    let mut f = function(
        &[],
        vec![
            label("start"),
            constant("i", 0),
            label("head"),
            value("add", "i", &["i", "i"], &[]),
            effect("br", &["i"], &["head", "out"]),
            label("out"),
            effect("print", &["i"], &[]),
        ],
    );
    to_ssa(&mut f);
    let expected = vec![
        label("start"),
        constant("i.0", 0),
        effect("jmp", &[], &["head"]),
        label("head"),
        value("phi", "i.1", &["i.0", "i.2"], &["start", "head"]),
        value("add", "i.2", &["i.1", "i.1"], &[]),
        effect("br", &["i.2"], &["head", "out"]),
        label("out"),
        effect("print", &["i.2"], &[]),
        effect("ret", &[], &[]),
    ];
    assert_eq!(show(&f.instrs), show(&expected));
}

#[test]
fn out_of_ssa_turns_phi_arguments_into_copies() {
    let mut f = diamond();
    to_ssa(&mut f);
    from_ssa(&mut f);
    let expected = vec![
        label("top"),
        constant("x.0", 1),
        constant("c.0", 1),
        effect("br", &["c.0"], &["left", "right"]),
        label("left"),
        constant("x.1", 2),
        value("id", "x.2", &["x.1"], &[]),
        effect("jmp", &[], &["join"]),
        label("right"),
        value("id", "x.2", &["x.0"], &[]),
        effect("jmp", &[], &["join"]),
        label("join"),
        effect("print", &["x.2"], &[]),
        effect("ret", &[], &[]),
    ];
    assert_eq!(show(&f.instrs), show(&expected));
}

#[test]
fn fresh_names_count_per_variable() {
    let mut counters: Vec<(String, u64)> = Vec::new();
    let x = "x".to_string();
    let y = "y".to_string();
    assert_eq!(fresh_name(&x, &mut counters), "x.0");
    assert_eq!(fresh_name(&x, &mut counters), "x.1");
    assert_eq!(fresh_name(&y, &mut counters), "y.0");
    assert_eq!(fresh_name(&x, &mut counters), "x.2");
}

#[test]
fn phi_equality_looks_at_destination_arguments_and_sources() {
    let a = Phi::new("x".to_string(), Some(Type::Int));
    let mut b = Phi::new("x".to_string(), Some(Type::Bool));
    assert!(a.same_as(&b));
    b.vars.push("y".to_string());
    assert!(!a.same_as(&b));
    let c = Phi::new("z".to_string(), Some(Type::Int));
    assert!(!a.same_as(&c));
    assert!(a.copy().same_as(&a));
}

#[test]
fn iterated_frontier_follows_chains() {
    let rows = vec![
        vec![false, true, false],
        vec![false, false, true],
        vec![false, false, false],
    ];
    assert_eq!(iterated_frontier(&rows, &vec![true, false, false]), vec![false, true, true]);
    assert_eq!(iterated_frontier(&rows, &vec![false, false, true]), vec![false, false, false]);
}
