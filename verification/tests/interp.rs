use bril_utils::interp::heap::{Heap, HeapError, HALF, HEAP_SIZE, INITIAL_GC_LIMIT};
use bril_utils::interp::machine::{execute_main, parse_args, parse_bool, parse_int, Action, Input};
use bril_utils::interp::ops::{compute, make_func_args};
use bril_utils::interp::program::{
    BBFunction, BBProgram, BasicBlock, EffectOp, Instr, InterpError, Position,
    PositionalInterpError, ValueOp,
};
use bril_utils::interp::value::{Environment, Pointer, Scope, Value};
use bril_utils::interp::numify::{numify, variables, NumifyError};
use bril_utils::ir::{Argument, Code, Function, Instruction, Literal, Program, Type};

fn constant(dest: u32, value: i64) -> Instr {
    Instr::Constant { dest, const_type: Type::Int, value: Literal::Int(value), pos: None }
}

fn value(op: ValueOp, dest: u32, args: &[u32]) -> Instr {
    Instr::Value { op, dest, args: args.to_vec(), labels: vec![], funcs: vec![], pos: None }
}

fn effect(op: EffectOp, args: &[u32]) -> Instr {
    Instr::Effect { op, args: args.to_vec(), funcs: vec![], pos: None }
}

fn block(label: &str, instrs: Vec<Instr>, exit: &[usize]) -> BasicBlock {
    BasicBlock { label: Some(label.to_string()), instrs, exit: exit.to_vec() }
}

fn function(name: &str, num_of_vars: u32, blocks: Vec<BasicBlock>) -> BBFunction {
    BBFunction {
        name: name.to_string(),
        args: vec![],
        args_as_nums: vec![],
        return_type: None,
        num_of_vars,
        blocks,
        pos: None,
    }
}

fn text(v: &Value) -> String {
    match v {
        Value::Float(bits) => format!("{}", f64::from_bits(*bits)),
        other => other.render().unwrap(),
    }
}

struct Run {
    lines: Vec<String>,
    gc_limit: i64,
    count: u32,
}

fn run_with(prog: &BBProgram, inputs: Vec<Input>) -> Result<Run, PositionalInterpError> {
    let mut machine = execute_main(prog, &inputs)?;
    let mut lines = Vec::new();
    loop {
        match machine.execute(prog)? {
            Action::Continue => {}
            Action::Print(vals) => {
                lines.push(vals.iter().map(text).collect::<Vec<_>>().join(" "));
            }
            Action::Float { op, lhs, rhs } => {
                let (a, b) = (f64::from_bits(lhs), f64::from_bits(rhs));
                let result = match op {
                    ValueOp::Fadd => Value::Float((a + b).to_bits()),
                    ValueOp::Fmul => Value::Float((a * b).to_bits()),
                    ValueOp::Fsub => Value::Float((a - b).to_bits()),
                    ValueOp::Fdiv => Value::Float((a / b).to_bits()),
                    ValueOp::Feq => Value::Bool(a == b),
                    ValueOp::Flt => Value::Bool(a < b),
                    ValueOp::Fgt => Value::Bool(a > b),
                    ValueOp::Fle => Value::Bool(a <= b),
                    ValueOp::Fge => Value::Bool(a >= b),
                    _ => unreachable!(),
                };
                assert!(machine.resume(result));
            }
            Action::Promote(i) => {
                assert!(machine.resume(Value::Float((i as f64).to_bits())));
            }
            Action::Finished => break,
        }
    }
    Ok(Run { lines, gc_limit: machine.heap.gc_limit, count: machine.instruction_count })
}

fn run(prog: &BBProgram) -> Result<Run, PositionalInterpError> {
    run_with(prog, vec![])
}

fn kind(r: Result<Run, PositionalInterpError>) -> String {
    format!("{:?}", r.err().unwrap().e)
}

#[test]
fn adding_a_constant_to_itself_prints_two() {
    let prog = BBProgram {
        functions: vec![function(
            "main",
            2,
            vec![block(
                "b1",
                vec![
                    constant(0, 1),
                    value(ValueOp::Add, 1, &[0, 0]),
                    effect(EffectOp::Print, &[1]),
                ],
                &[],
            )],
        )],
    };
    let out = run(&prog).unwrap();
    assert_eq!(out.lines, vec!["2"]);
    assert_eq!(out.count, 3);
}

fn list_program(nodes: i64) -> BBProgram {
    // 0:i 1:n 2:one 3:two 4:head 5:node 6:slot 7:cond 8:val 9:zero 10:j 11:total 12:cur
    BBProgram {
        functions: vec![function(
            "main",
            13,
            vec![
                block(
                    "start",
                    vec![
                        constant(9, 0),
                        constant(2, 1),
                        constant(3, 2),
                        constant(1, nodes),
                        constant(0, 0),
                        value(ValueOp::Alloc, 4, &[3]),
                        effect(EffectOp::Store, &[4, 9]),
                        value(ValueOp::PtrAdd, 6, &[4, 2]),
                        effect(EffectOp::Store, &[6, 4]),
                        effect(EffectOp::Jump, &[]),
                    ],
                    &[1],
                ),
                block(
                    "loop",
                    vec![value(ValueOp::Lt, 7, &[0, 1]), effect(EffectOp::Branch, &[7])],
                    &[2, 3],
                ),
                block(
                    "body",
                    vec![
                        value(ValueOp::Alloc, 5, &[3]),
                        effect(EffectOp::Store, &[5, 0]),
                        value(ValueOp::PtrAdd, 6, &[5, 2]),
                        effect(EffectOp::Store, &[6, 4]),
                        value(ValueOp::Id, 4, &[5]),
                        value(ValueOp::Add, 0, &[0, 2]),
                        effect(EffectOp::Jump, &[]),
                    ],
                    &[1],
                ),
                block(
                    "done",
                    vec![
                        constant(10, 0),
                        value(ValueOp::Id, 12, &[4]),
                        value(ValueOp::Add, 11, &[1, 2]),
                        effect(EffectOp::Jump, &[]),
                    ],
                    &[4],
                ),
                block(
                    "walk",
                    vec![value(ValueOp::Lt, 7, &[10, 11]), effect(EffectOp::Branch, &[7])],
                    &[5, 6],
                ),
                block(
                    "step",
                    vec![
                        value(ValueOp::Load, 8, &[12]),
                        effect(EffectOp::Print, &[8]),
                        value(ValueOp::PtrAdd, 6, &[12, 2]),
                        value(ValueOp::Load, 12, &[6]),
                        value(ValueOp::Add, 10, &[10, 2]),
                        effect(EffectOp::Jump, &[]),
                    ],
                    &[4],
                ),
                block("end", vec![effect(EffectOp::Return, &[])], &[]),
            ],
        )],
    }
}

#[test]
fn a_linked_list_survives_collections() {
    let out = run(&list_program(20)).unwrap();
    let mut expected: Vec<String> = (0..20).rev().map(|i| i.to_string()).collect();
    expected.push("0".to_string());
    assert_eq!(out.lines, expected);
    assert!(out.gc_limit > INITIAL_GC_LIMIT);
}

#[test]
fn a_short_list_needs_no_collection() {
    let out = run(&list_program(3)).unwrap();
    assert_eq!(out.lines, vec!["2", "1", "0", "0"]);
    assert_eq!(out.gc_limit, INITIAL_GC_LIMIT);
}

#[test]
fn a_collection_moves_objects_and_redirects_every_pointer_to_them() {
    let mut heap = Heap::default();
    let mut env = Environment::new(Scope::new(3));
    let p = heap.allocate(2).unwrap();
    let garbage = heap.allocate(5).unwrap();
    let q = heap.allocate(1).unwrap();
    assert_eq!((p.base, garbage.base, q.base), (0, 2, 7));
    heap.write(&p, Value::Int(7)).unwrap();
    heap.write(&p.add(1), Value::Pointer(q)).unwrap();
    heap.write(&q, Value::Int(9)).unwrap();
    env.get_current_scope_mut().set(0, Value::Pointer(p.add(1)));
    env.get_current_scope_mut().set(1, Value::Int(3));
    env.get_current_scope_mut().set(2, Value::Pointer(p));
    heap.gc(&mut env);
    assert!(!heap.is_top);
    assert_eq!(heap.allocated_size(), 3);
    let scope = env.get_current_scope();
    assert_eq!(*scope.get(&0), Value::Pointer(Pointer { base: HALF, offset: 1 }));
    assert_eq!(*scope.get(&1), Value::Int(3));
    assert_eq!(*scope.get(&2), Value::Pointer(Pointer { base: HALF, offset: 0 }));
    let moved = Pointer { base: HALF, offset: 0 };
    assert_eq!(heap.read(&moved), Ok(Value::Int(7)));
    assert_eq!(heap.read(&moved.add(1)), Ok(Value::Pointer(Pointer { base: HALF + 2, offset: 0 })));
    assert_eq!(heap.read(&Pointer { base: HALF + 2, offset: 0 }), Ok(Value::Int(9)));
    assert_eq!(heap.read(&p), Err(HeapError::UsingUninitializedMemory));
    heap.gc(&mut env);
    assert!(heap.is_top);
    assert_eq!(*env.get_current_scope().get(&2), Value::Pointer(Pointer { base: 0, offset: 0 }));
    assert_eq!(heap.read(&Pointer { base: 0, offset: 0 }), Ok(Value::Int(7)));
}

#[test]
fn allocation_and_access_are_checked() {
    let mut heap = Heap::default();
    assert_eq!(heap.allocate(-1), Err(HeapError::CannotAllocSize(-1)));
    assert_eq!(
        heap.allocate(HALF as i64 + 1),
        Err(HeapError::CannotAllocSize(HALF as i64 + 1))
    );
    let p = heap.allocate(HALF as i64).unwrap();
    assert_eq!(heap.allocate(1), Err(HeapError::CannotAllocSize(1)));
    assert_eq!(heap.allocate(0), Ok(Pointer { base: HALF, offset: 0 }));
    assert_eq!(heap.read(&p), Err(HeapError::UsingUninitializedMemory));
    assert_eq!(heap.write(&p.add(-1), Value::Int(1)), Err(HeapError::InvalidMemoryAccess(0, -1)));
    assert_eq!(
        heap.read(&p.add(HEAP_SIZE as i64)),
        Err(HeapError::InvalidMemoryAccess(0, HEAP_SIZE as i64))
    );
    assert!(heap.write(&p.add(HEAP_SIZE as i64 - 1), Value::Bool(true)).is_ok());
    assert_eq!(heap.read(&p.add(HEAP_SIZE as i64 - 1)), Ok(Value::Bool(true)));
}

#[test]
fn the_limit_doubles_when_a_collection_is_due() {
    let mut heap = Heap::default();
    assert!(!heap.should_run_gc(15));
    assert_eq!(heap.gc_limit, 16);
    assert!(heap.should_run_gc(16));
    assert_eq!(heap.gc_limit, 32);
    heap.allocate(10).unwrap();
    assert!(!heap.should_run_gc(21));
    assert!(heap.should_run_gc(22));
    assert_eq!(heap.gc_limit, 64);
    heap.flip();
    assert_eq!(heap.base_ptr, HALF);
    assert_eq!(heap.allocated_size(), 0);
}

#[test]
fn integer_operations_wrap_and_division_by_zero_fails() {
    let int = |i| Some(Value::Int(i));
    assert_eq!(compute(ValueOp::Add, int(i64::MAX), int(1)).unwrap(), Value::Int(i64::MIN));
    assert_eq!(compute(ValueOp::Sub, int(i64::MIN), int(1)).unwrap(), Value::Int(i64::MAX));
    assert_eq!(compute(ValueOp::Mul, int(i64::MAX), int(2)).unwrap(), Value::Int(-2));
    assert_eq!(compute(ValueOp::Div, int(-7), int(2)).unwrap(), Value::Int(-3));
    assert_eq!(compute(ValueOp::Div, int(i64::MIN), int(-1)).unwrap(), Value::Int(i64::MIN));
    assert!(matches!(compute(ValueOp::Div, int(1), int(0)), Err(InterpError::DivisionByZero)));
    assert_eq!(compute(ValueOp::Le, int(2), int(2)).unwrap(), Value::Bool(true));
    assert_eq!(compute(ValueOp::Gt, int(2), int(2)).unwrap(), Value::Bool(false));
    assert_eq!(
        compute(ValueOp::And, Some(Value::Bool(true)), Some(Value::Bool(false))).unwrap(),
        Value::Bool(false)
    );
    assert_eq!(compute(ValueOp::Not, Some(Value::Bool(true)), None).unwrap(), Value::Bool(false));
    assert!(matches!(
        compute(ValueOp::Add, int(1), Some(Value::Bool(true))),
        Err(InterpError::IllFormed)
    ));
    assert!(matches!(compute(ValueOp::Id, None, None), Err(InterpError::IllFormed)));
    let p = Pointer { base: 4, offset: 1 };
    assert_eq!(
        compute(ValueOp::PtrAdd, Some(Value::Pointer(p)), int(-3)).unwrap(),
        Value::Pointer(Pointer { base: 4, offset: -2 })
    );
    assert_eq!(p.add(i64::MAX).offset, i64::MIN);
}

fn two_functions(callee_type: Option<Type>, call_with_dest: bool) -> BBProgram {
    let call = if call_with_dest {
        Instr::Value {
            op: ValueOp::Call,
            dest: 1,
            args: vec![0],
            labels: vec![],
            funcs: vec!["double".to_string()],
            pos: Some(Position { row: 3, col: 1 }),
        }
    } else {
        Instr::Effect {
            op: EffectOp::Call,
            args: vec![0],
            funcs: vec!["double".to_string()],
            pos: None,
        }
    };
    let mut callee = function(
        "double",
        2,
        vec![block(
            "b",
            vec![
                value(ValueOp::Add, 1, &[0, 0]),
                effect(EffectOp::Print, &[1]),
                effect(EffectOp::Return, &[1]),
            ],
            &[],
        )],
    );
    callee.args = vec![Argument { name: "x".to_string(), arg_type: Type::Int }];
    callee.args_as_nums = vec![0];
    callee.return_type = callee_type;
    BBProgram {
        functions: vec![
            function(
                "main",
                2,
                vec![block("b", vec![constant(0, 21), call, effect(EffectOp::Print, &[0])], &[])],
            ),
            callee,
        ],
    }
}

#[test]
fn a_call_binds_arguments_and_hands_the_result_back() {
    let mut prog = two_functions(Some(Type::Int), true);
    prog.functions[0].blocks[0].instrs.push(effect(EffectOp::Print, &[1]));
    let out = run(&prog).unwrap();
    assert_eq!(out.lines, vec!["42", "21", "42"]);
    let out = run(&two_functions(None, false)).unwrap();
    assert_eq!(out.lines, vec!["42", "21"]);
}

#[test]
fn a_call_that_wants_a_value_from_a_function_without_one_is_ill_formed() {
    assert_eq!(kind(run(&two_functions(None, true))), "IllFormed");
}

#[test]
fn calling_a_missing_function_fails_with_its_position() {
    let mut prog = two_functions(Some(Type::Int), true);
    prog.functions.pop();
    let err = run(&prog).err().unwrap();
    assert!(matches!(&err.e, InterpError::FuncNotFound(name) if name == "double"));
    assert_eq!(err.pos, Some(Position { row: 3, col: 1 }));
}

#[test]
fn phi_takes_the_argument_of_the_block_before() {
    let phi = |labels: &[&str]| Instr::Value {
        op: ValueOp::Phi,
        dest: 2,
        args: vec![0, 1],
        labels: labels.iter().map(|l| l.to_string()).collect(),
        funcs: vec![],
        pos: None,
    };
    let prog = |labels: &[&str], first: Vec<Instr>| BBProgram {
        functions: vec![function(
            "main",
            3,
            vec![
                block("a", first, &[1]),
                block("b", vec![phi(labels), effect(EffectOp::Print, &[2])], &[]),
            ],
        )],
    };
    let first = || vec![constant(0, 5), constant(1, 6)];
    assert_eq!(run(&prog(&["z", "a"], first())).unwrap().lines, vec!["6"]);
    assert_eq!(run(&prog(&["a", "z"], first())).unwrap().lines, vec!["5"]);
    let err = run(&prog(&["y", "z"], first())).err().unwrap();
    assert!(matches!(&err.e, InterpError::PhiMissingLabel(l) if l == "a"));
    let mut first_phi = prog(&["a"], vec![]);
    first_phi.functions[0].blocks[0].instrs.push(phi(&["a"]));
    assert_eq!(kind(run(&first_phi)), "NoLastLabel");
}

#[test]
fn errors_of_the_start_of_a_run() {
    let none = BBProgram { functions: vec![function("other", 0, vec![])] };
    assert_eq!(kind(run(&none)), "NoMainFunction");
    let mut typed = function("main", 0, vec![block("b", vec![], &[])]);
    typed.return_type = Some(Type::Int);
    typed.pos = Some(Position { row: 1, col: 2 });
    let err = run(&BBProgram { functions: vec![typed] }).err().unwrap();
    assert!(matches!(&err.e, InterpError::NonEmptyRetForFunc(n) if n == "main"));
    assert_eq!(err.pos, Some(Position { row: 1, col: 2 }));
    let empty = BBProgram { functions: vec![function("main", 0, vec![])] };
    assert_eq!(kind(run(&empty)), "IllFormed");
}

fn input(text: &str) -> Input {
    Input { text: text.to_string(), float_bits: text.parse::<f64>().ok().map(|f| f.to_bits()) }
}

fn with_params(types: Vec<Type>) -> BBProgram {
    let n = types.len() as u32;
    let mut main = function(
        "main",
        n,
        vec![block("b", vec![effect(EffectOp::Print, &(0..n).collect::<Vec<_>>())], &[])],
    );
    main.args =
        types.into_iter().map(|t| Argument { name: "p".to_string(), arg_type: t }).collect();
    main.args_as_nums = (0..n).collect();
    BBProgram { functions: vec![main] }
}

#[test]
fn inputs_are_parsed_by_the_types_of_the_parameters() {
    let prog = with_params(vec![Type::Int, Type::Bool, Type::Float]);
    let out = run_with(&prog, vec![input("-12"), input("true"), input("1.5")]).unwrap();
    assert_eq!(out.lines, vec!["-12 true 1.5"]);
    let err = run_with(&prog, vec![input("1")]).err().unwrap();
    assert!(matches!(err.e, InterpError::BadNumFuncArgs(3, 1)));
    let err = run_with(&prog, vec![input("x"), input("true"), input("1.5")]).err().unwrap();
    assert!(matches!(&err.e, InterpError::BadFuncArgType(Type::Int, t) if t == "x"));
    let err = run_with(&prog, vec![input("1"), input("yes"), input("1.5")]).err().unwrap();
    assert!(matches!(&err.e, InterpError::BadFuncArgType(Type::Bool, t) if t == "yes"));
    let err = run_with(&prog, vec![input("1"), input("false"), input("abc")]).err().unwrap();
    assert!(matches!(&err.e, InterpError::BadFuncArgType(Type::Float, t) if t == "abc"));
    let ptr = with_params(vec![Type::Pointer(Box::new(Type::Int))]);
    let err = run_with(&ptr, vec![input("1")]).err().unwrap();
    assert!(matches!(&err.e, InterpError::BadFuncArgType(Type::Pointer(_), _)));
    let env = Environment::new(Scope::new(1));
    let same = parse_args(env, &vec![], &vec![], &vec![]).unwrap();
    assert_eq!(same.env.len(), 1);
}

#[test]
fn integers_and_booleans_are_read_as_the_language_writes_them() {
    let int = |s: &str| parse_int(&s.to_string());
    for s in ["0", "7", "-7", "+7", "007", "9223372036854775807", "-9223372036854775808"] {
        assert_eq!(int(s), s.parse::<i64>().ok(), "{s}");
    }
    for s in ["", "+", "-", "1 ", " 1", "1.5", "9223372036854775808", "-9223372036854775809", "--1", "1e3"] {
        assert_eq!(int(s), None, "{s}");
    }
    assert_eq!(parse_bool(&"true".to_string()), Some(true));
    assert_eq!(parse_bool(&"false".to_string()), Some(false));
    assert_eq!(parse_bool(&"True".to_string()), None);
}

#[test]
fn floating_point_operations_and_promotion_go_outside() {
    let prog = BBProgram {
        functions: vec![function(
            "main",
            4,
            vec![block(
                "b",
                vec![
                    Instr::Constant {
                        dest: 0,
                        const_type: Type::Float,
                        value: Literal::Int(2),
                        pos: None,
                    },
                    Instr::Constant {
                        dest: 1,
                        const_type: Type::Float,
                        value: Literal::Float(0.5f64.to_bits()),
                        pos: None,
                    },
                    value(ValueOp::Fadd, 2, &[0, 1]),
                    value(ValueOp::Flt, 3, &[0, 1]),
                    effect(EffectOp::Print, &[2, 3]),
                ],
                &[],
            )],
        )],
    };
    assert_eq!(run(&prog).unwrap().lines, vec!["2.5 false"]);
    let mut machine = execute_main(&prog, &vec![]).unwrap();
    assert!(!machine.resume(Value::Int(1)));
    assert!(matches!(machine.execute(&prog), Ok(Action::Promote(2))));
    assert!(matches!(machine.execute(&prog).err().unwrap().e, InterpError::IllFormed));
    assert!(machine.resume(Value::Float(2f64.to_bits())));
    assert!(matches!(machine.execute(&prog), Ok(Action::Continue)));
}

#[test]
fn memory_errors_and_unsupported_operations_end_the_run() {
    let one = |instrs: Vec<Instr>| BBProgram {
        functions: vec![function("main", 3, vec![block("b", instrs, &[])])],
    };
    let alloc = |n| vec![constant(0, n), value(ValueOp::Alloc, 1, &[0])];
    assert_eq!(kind(run(&one(alloc(-1)))), "CannotAllocSize(-1)");
    let mut load = alloc(1);
    load.push(value(ValueOp::Load, 2, &[1]));
    assert_eq!(kind(run(&one(load))), "UsingUninitializedMemory");
    let mut far = alloc(1);
    far.push(constant(0, -1));
    far.push(value(ValueOp::PtrAdd, 1, &[1, 0]));
    far.push(effect(EffectOp::Store, &[1, 0]));
    assert_eq!(kind(run(&one(far))), "InvalidMemoryAccess(0, -1)");
    let mut free = alloc(1);
    free.push(effect(EffectOp::Free, &[1]));
    assert_eq!(kind(run(&one(free))), "Unsupported");
    assert_eq!(kind(run(&one(vec![effect(EffectOp::Guard, &[])]))), "Unsupported");
    assert_eq!(kind(run(&one(vec![effect(EffectOp::Print, &[0])]))), "IllFormed");
    assert_eq!(kind(run(&one(vec![constant(0, 1), constant(1, 0), value(ValueOp::Div, 2, &[0, 1])]))), "DivisionByZero");
}

#[test]
fn values_render_as_they_print() {
    assert_eq!(Value::Int(-5).render().unwrap(), "-5");
    assert_eq!(Value::Bool(true).render().unwrap(), "true");
    assert_eq!(
        Value::Pointer(Pointer { base: 3, offset: -1 }).render().unwrap(),
        format!("{:?}", Pointer { base: 3, offset: -1 })
    );
    assert!(Value::Float(0).render().is_none());
    assert!(Value::Uninitialized.render().is_none());
    assert_eq!(Value::default(), Value::Uninitialized);
}

#[test]
fn scopes_and_environments() {
    let mut env = Environment::new(Scope::new(2));
    assert_eq!(*env.get_current_scope().get(&1), Value::Uninitialized);
    env.get_current_scope_mut().set(1, Value::Int(4));
    let mut callee = function("f", 3, vec![]);
    callee.args_as_nums = vec![2];
    assert!(make_func_args(&callee, &vec![1], &mut env));
    assert_eq!(env.env.len(), 2);
    assert_eq!(*env.get_current_scope().get(&2), Value::Int(4));
    assert!(!make_func_args(&callee, &vec![9], &mut env));
    env.pop();
    assert_eq!(env.env.len(), 1);
    env.append(Scope::new(0));
    assert_eq!(env.get_current_scope().vars.len(), 0);
}

#[test]
fn a_program_by_name_runs_after_its_variables_are_numbered() {
    let i = |op: &str, dest: Option<&str>, args: &[&str], labels: &[&str], funcs: &[&str]| {
        let args = args.iter().map(|a| a.to_string()).collect();
        let labels = labels.iter().map(|a| a.to_string()).collect();
        let funcs = funcs.iter().map(|a| a.to_string()).collect();
        Code::Instruction(match dest {
            Some(d) => Instruction::Value {
                op: op.to_string(),
                dest: d.to_string(),
                op_type: Some(Type::Int),
                args,
                labels,
                funcs,
            },
            None => Instruction::Effect { op: op.to_string(), args, labels, funcs },
        })
    };
    let c = |dest: &str, v: i64| {
        Code::Instruction(Instruction::Constant {
            dest: dest.to_string(),
            const_type: Some(Type::Int),
            value: Literal::Int(v),
        })
    };
    let l = |name: &str| Code::Label { label: name.to_string() };
    let main = Function {
        name: "main".to_string(),
        args: vec![Argument { name: "n".to_string(), arg_type: Type::Int }],
        return_type: None,
        instrs: vec![
            c("i", 0),
            c("one", 1),
            c("sum", 0),
            l("head"),
            i("lt", Some("go"), &["i", "n"], &[], &[]),
            i("br", None, &["go"], &["body", "done"], &[]),
            l("body"),
            i("add", Some("i"), &["i", "one"], &[], &[]),
            i("call", Some("sum"), &["sum", "i"], &[], &["plus"]),
            i("jmp", None, &[], &["head"], &[]),
            l("done"),
            i("print", None, &["sum"], &[], &[]),
        ],
    };
    let plus = Function {
        name: "plus".to_string(),
        args: vec![
            Argument { name: "a".to_string(), arg_type: Type::Int },
            Argument { name: "b".to_string(), arg_type: Type::Int },
        ],
        return_type: Some(Type::Int),
        instrs: vec![i("add", Some("r"), &["a", "b"], &[], &[]), i("ret", None, &["r"], &[], &[])],
    };
    assert_eq!(variables(&main), vec!["n", "i", "one", "sum", "go"]);
    let program = Program { functions: vec![main, plus] };
    let prog = numify(&program).unwrap();
    assert_eq!(prog.functions[0].num_of_vars, 5);
    assert_eq!(prog.functions[0].args_as_nums, vec![0]);
    let exits: Vec<Vec<usize>> = prog.functions[0].blocks.iter().map(|b| b.exit.clone()).collect();
    assert_eq!(exits, vec![vec![1], vec![2, 3], vec![1], vec![]]);
    assert_eq!(prog.functions[0].blocks[1].label.as_deref(), Some("head"));
    assert_eq!(prog.functions[0].blocks[0].label, None);
    let out = run_with(&prog, vec![input("4")]).unwrap();
    assert_eq!(out.lines, vec!["10"]);

    let bad = |code: Code| {
        numify(&Program {
            functions: vec![Function {
                name: "main".to_string(),
                args: vec![],
                return_type: None,
                instrs: vec![code],
            }],
        })
        .err()
        .unwrap()
    };
    assert!(matches!(bad(i("frob", Some("x"), &[], &[], &[])), NumifyError::UnknownOp(op) if op == "frob"));
    assert!(matches!(bad(i("frob", None, &[], &[], &[])), NumifyError::UnknownOp(_)));
    assert!(matches!(bad(i("jmp", None, &[], &["nowhere"], &[])), NumifyError::UnknownLabel(l) if l == "nowhere"));
    let untyped = Code::Instruction(Instruction::Constant {
        dest: "x".to_string(),
        const_type: None,
        value: Literal::Int(1),
    });
    assert!(matches!(bad(untyped), NumifyError::MissingType(d) if d == "x"));
}
