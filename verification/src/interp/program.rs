//! Programs as the interpreter runs them: functions in basic blocks, with
//! variables as dense numbers and the successors of every block by index.
use crate::ir::{Argument, Literal, Type};
use vstd::prelude::*;

verus! {

/// A place in the source text.
#[derive(Debug, Clone, Copy, PartialEq, Eq)]
pub struct Position {
    pub row: u64,
    pub col: u64,
}

/// An operation that gives a value to a destination.
#[derive(Debug, Clone, Copy, PartialEq, Eq)]
pub enum ValueOp {
    Add,
    Mul,
    Sub,
    Div,
    Eq,
    Lt,
    Gt,
    Le,
    Ge,
    Not,
    And,
    Or,
    Id,
    Fadd,
    Fmul,
    Fsub,
    Fdiv,
    Feq,
    Flt,
    Fgt,
    Fle,
    Fge,
    Call,
    Phi,
    Alloc,
    Load,
    PtrAdd,
}

/// An operation without a destination.
#[derive(Debug, Clone, Copy, PartialEq, Eq)]
pub enum EffectOp {
    Jump,
    Branch,
    Return,
    Print,
    Nop,
    Call,
    Store,
    Free,
    Speculate,
    Commit,
    Guard,
}

/// An instruction whose variables are numbers.
#[derive(Debug)]
#[allow(inconsistent_fields)]
pub enum Instr {
    Constant { dest: u32, const_type: Type, value: Literal, pos: Option<Position> },
    Value {
        op: ValueOp,
        dest: u32,
        args: Vec<u32>,
        labels: Vec<String>,
        funcs: Vec<String>,
        pos: Option<Position>,
    },
    Effect { op: EffectOp, args: Vec<u32>, funcs: Vec<String>, pos: Option<Position> },
}

impl Instr {
    /// The place of the instruction in the source text.
    pub fn pos(&self) -> (p: Option<Position>)
        ensures
            p == self.spec_pos(),
    {
        match self {
            Instr::Constant { pos, .. } => *pos,
            Instr::Value { pos, .. } => *pos,
            Instr::Effect { pos, .. } => *pos,
        }
    }

    /// The place of the instruction in the source text.
    pub open spec fn spec_pos(&self) -> Option<Position> {
        match *self {
            Instr::Constant { pos, .. } => pos,
            Instr::Value { pos, .. } => pos,
            Instr::Effect { pos, .. } => pos,
        }
    }
}

/// A basic block: its label, its instructions, and the indices of the
/// blocks that its terminator leads to.
#[derive(Debug)]
pub struct BasicBlock {
    pub label: Option<String>,
    pub instrs: Vec<Instr>,
    pub exit: Vec<usize>,
}

/// A function in basic blocks.
#[derive(Debug)]
pub struct BBFunction {
    pub name: String,
    pub args: Vec<Argument>,
    pub args_as_nums: Vec<u32>,
    pub return_type: Option<Type>,
    pub num_of_vars: u32,
    pub blocks: Vec<BasicBlock>,
    pub pos: Option<Position>,
}

/// A program in basic blocks.
#[derive(Debug)]
pub struct BBProgram {
    pub functions: Vec<BBFunction>,
}

/// The index of the first function with the given name among the first `k`
/// functions, if there is one.
pub open spec fn function_index(functions: Seq<BBFunction>, name: Seq<char>, k: nat) -> Option<
    usize,
>
    decreases k,
{
    if k == 0 {
        None
    } else {
        match function_index(functions, name, (k - 1) as nat) {
            Some(i) => Some(i),
            None => if functions[k - 1].name@ == name {
                Some((k - 1) as usize)
            } else {
                None
            },
        }
    }
}

impl BBProgram {
    /// The index of the function with the given name.
    pub open spec fn index_of(&self, name: Seq<char>) -> Option<usize> {
        function_index(self.functions@, name, self.functions.len() as nat)
    }

    /// The index of the function with the given name, if there is one.
    pub fn get(&self, name: &String) -> (r: Option<usize>)
        ensures
            r == self.index_of(name@),
            r is Some ==> r->0 < self.functions.len(),
    {
        let mut i: usize = 0;
        while i < self.functions.len()
            invariant
                i <= self.functions.len(),
                function_index(self.functions@, name@, i as nat) is None,
            decreases self.functions.len() - i,
        {
            if self.functions[i].name == *name {
                proof {
                    lemma_found(self.functions@, name@, i as nat, self.functions.len() as nat);
                }
                return Some(i);
            }
            i += 1;
        }
        None
    }
}

/// A function found among the first functions is the one found among more.
pub proof fn lemma_found(functions: Seq<BBFunction>, name: Seq<char>, i: nat, k: nat)
    requires
        i < k <= functions.len(),
        function_index(functions, name, i) is None,
        functions[i as int].name@ == name,
    ensures
        function_index(functions, name, k) == Some(i as usize),
    decreases k,
{
    if k > i + 1 {
        lemma_found(functions, name, i, (k - 1) as nat);
    }
}

/// What can go wrong in a run.
#[derive(Debug)]
pub enum InterpError {
    NoMainFunction,
    NonEmptyRetForFunc(String),
    BadNumFuncArgs(usize, usize),
    BadFuncArgType(Type, String),
    FuncNotFound(String),
    NoLastLabel,
    PhiMissingLabel(String),
    CannotAllocSize(i64),
    InvalidMemoryAccess(usize, i64),
    UsingUninitializedMemory,
    /// An integer was divided by zero.
    DivisionByZero,
    /// An operand is missing or of the wrong kind, or a variable, block or
    /// function is named that the program does not have.
    IllFormed,
    /// The operation is one that this interpreter does not run: `free`,
    /// `speculate`, `commit` or `guard`.
    Unsupported,
}

/// An error with the place of the instruction that it came from.
#[derive(Debug)]
pub struct PositionalInterpError {
    pub e: InterpError,
    pub pos: Option<Position>,
}

impl InterpError {
    /// The error with a place in the source text.
    pub fn add_pos(self, pos: Option<Position>) -> (r: PositionalInterpError)
        ensures
            r.e == self,
            r.pos == pos,
    {
        PositionalInterpError { e: self, pos }
    }
}

impl PositionalInterpError {
    /// The error without a place.
    pub fn new(e: InterpError) -> (r: Self)
        ensures
            r.e == e,
            r.pos is None,
    {
        PositionalInterpError { e, pos: None }
    }
}

} // verus!
