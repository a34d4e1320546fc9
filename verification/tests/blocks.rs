use bril_utils::form_blocks::{flatten_blocks, form_blocks};
use bril_utils::ir::{Code, Function, Instruction, Literal, Type};

fn constant(dest: &str, value: i64) -> Code {
    Code::Instruction(Instruction::Constant {
        dest: dest.to_string(),
        const_type: Some(Type::Int),
        value: Literal::Int(value),
    })
}

fn effect(op: &str, args: &[&str], labels: &[&str]) -> Code {
    Code::Instruction(Instruction::Effect {
        op: op.to_string(),
        args: args.iter().map(|a| a.to_string()).collect(),
        labels: labels.iter().map(|a| a.to_string()).collect(),
        funcs: vec![],
    })
}

fn label(name: &str) -> Code {
    Code::Label { label: name.to_string() }
}

fn function(instrs: Vec<Code>) -> Function {
    Function { name: "main".to_string(), args: vec![], return_type: None, instrs }
}

#[test]
fn blocks_split_after_terminators_and_before_labels() {
    let f = function(vec![
        constant("a", 1),
        effect("jmp", &[], &["l"]),
        constant("b", 2),
        label("l"),
        effect("print", &["a"], &[]),
    ]);
    let blocks = form_blocks(&f);
    assert_eq!(blocks.len(), 3);
    assert_eq!(blocks[0].instrs.len(), 2);
    assert_eq!(blocks[1].instrs.len(), 1);
    assert_eq!(blocks[2].instrs.len(), 2);
    assert!(matches!(&blocks[2].instrs[0], Code::Label { label } if label == "l"));
}

#[test]
fn flattening_the_blocks_gives_the_body_back() {
    let f = function(vec![
        label("start"),
        constant("a", 1),
        effect("br", &["a"], &["start", "end"]),
        label("end"),
        effect("ret", &[], &[]),
    ]);
    let flat = flatten_blocks(form_blocks(&f));
    assert_eq!(format!("{:?}", flat), format!("{:?}", f.instrs));
}
