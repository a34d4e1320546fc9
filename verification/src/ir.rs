//! The intermediate representation: literals, types, instructions and code
//! items, together with the mathematical model that contracts speak of.
use vstd::prelude::*;
use vstd::std_specs::cmp::PartialEqSpecImpl;
use vstd::string::*;

verus! {

/// Mask of the exponent bits of an IEEE-754 double.
pub const EXPONENT_MASK: u64 = 0x7ff0_0000_0000_0000u64;

/// Mask of the fraction bits of an IEEE-754 double.
pub const FRACTION_MASK: u64 = 0x000f_ffff_ffff_ffffu64;

/// Mask of everything but the sign bit of an IEEE-754 double.
pub const MAGNITUDE_MASK: u64 = 0x7fff_ffff_ffff_ffffu64;

/// Whether the bit pattern is a NaN of the IEEE-754 double format.
pub open spec fn bits_are_nan(bits: u64) -> bool {
    (bits & EXPONENT_MASK) == EXPONENT_MASK && (bits & FRACTION_MASK) != 0
}

/// IEEE-754 equality of two doubles given by their bit patterns: a NaN is
/// equal to nothing, the two zeros are equal, and otherwise the patterns
/// must coincide.
pub open spec fn ieee_bits_eq(a: u64, b: u64) -> bool {
    !bits_are_nan(a) && !bits_are_nan(b) && (a == b || ((a & MAGNITUDE_MASK) == 0 && (b
        & MAGNITUDE_MASK) == 0))
}

/// A literal value. A floating-point literal is held by the bit pattern of
/// its IEEE-754 double.
#[derive(Clone, Copy, Debug)]
pub enum Literal {
    Int(i64),
    Bool(bool),
    Float(u64),
}

impl Literal {
    /// Equality of literals: total on integers and booleans, IEEE on floats,
    /// and never across kinds.
    pub open spec fn same(self, other: Literal) -> bool {
        match (self, other) {
            (Literal::Int(x), Literal::Int(y)) => x == y,
            (Literal::Bool(x), Literal::Bool(y)) => x == y,
            (Literal::Float(x), Literal::Float(y)) => ieee_bits_eq(x, y),
            _ => false,
        }
    }
}

impl PartialEq for Literal {
    fn eq(&self, other: &Self) -> (r: bool) {
        match (*self, *other) {
            (Literal::Int(x), Literal::Int(y)) => x == y,
            (Literal::Bool(x), Literal::Bool(y)) => x == y,
            (Literal::Float(x), Literal::Float(y)) => {
                let x_nan = (x & EXPONENT_MASK) == EXPONENT_MASK && (x & FRACTION_MASK) != 0;
                let y_nan = (y & EXPONENT_MASK) == EXPONENT_MASK && (y & FRACTION_MASK) != 0;
                !x_nan && !y_nan && (x == y || ((x & MAGNITUDE_MASK) == 0 && (y & MAGNITUDE_MASK)
                    == 0))
            },
            _ => false,
        }
    }
}

impl PartialEqSpecImpl for Literal {
    open spec fn obeys_eq_spec() -> bool {
        true
    }

    open spec fn eq_spec(&self, other: &Self) -> bool {
        self.same(*other)
    }
}

/// A type of the representation: a primitive, or a pointer to a type.
#[derive(Debug)]
pub enum Type {
    Int,
    Bool,
    Float,
    Pointer(Box<Type>),
}

impl Clone for Type {
    fn clone(&self) -> (r: Self)
        ensures
            r == *self,
        decreases *self,
    {
        match self {
            Type::Int => Type::Int,
            Type::Bool => Type::Bool,
            Type::Float => Type::Float,
            Type::Pointer(t) => Type::Pointer(Box::new((**t).clone())),
        }
    }
}

impl Type {
    /// Whether this is the floating-point primitive.
    pub fn is_float(&self) -> (r: bool)
        ensures
            r == (*self == Type::Float),
    {
        match self {
            Type::Float => true,
            _ => false,
        }
    }
}

/// Copies an optional type.
pub fn clone_type(t: &Option<Type>) -> (r: Option<Type>)
    ensures
        r == *t,
{
    match t {
        Some(t) => Some(t.clone()),
        None => None,
    }
}

/// The model of a list of names.
pub open spec fn names(v: Seq<String>) -> Seq<Seq<char>> {
    v.map_values(|s: String| s@)
}

/// An instruction: a constant, an operation with a destination, or an
/// operation without one.
#[derive(Debug)]
pub enum Instruction {
    Constant { dest: String, const_type: Option<Type>, value: Literal },
    Value {
        op: String,
        dest: String,
        op_type: Option<Type>,
        args: Vec<String>,
        labels: Vec<String>,
        funcs: Vec<String>,
    },
    Effect { op: String, args: Vec<String>, labels: Vec<String>, funcs: Vec<String> },
}

/// The model of an [`Instruction`].
pub enum InstrView {
    Constant { dest: Seq<char>, const_type: Option<Type>, value: Literal },
    Value {
        op: Seq<char>,
        dest: Seq<char>,
        op_type: Option<Type>,
        args: Seq<Seq<char>>,
        labels: Seq<Seq<char>>,
        funcs: Seq<Seq<char>>,
    },
    Effect { op: Seq<char>, args: Seq<Seq<char>>, labels: Seq<Seq<char>>, funcs: Seq<Seq<char>> },
}

impl View for Instruction {
    type V = InstrView;

    open spec fn view(&self) -> InstrView {
        match *self {
            Instruction::Constant { dest, const_type, value } => InstrView::Constant {
                dest: dest@,
                const_type,
                value,
            },
            Instruction::Value { op, dest, op_type, args, labels, funcs } => InstrView::Value {
                op: op@,
                dest: dest@,
                op_type,
                args: names(args@),
                labels: names(labels@),
                funcs: names(funcs@),
            },
            Instruction::Effect { op, args, labels, funcs } => InstrView::Effect {
                op: op@,
                args: names(args@),
                labels: names(labels@),
                funcs: names(funcs@),
            },
        }
    }
}

impl InstrView {
    /// The operation's name; a constant's is `const`.
    pub open spec fn op(self) -> Seq<char> {
        match self {
            InstrView::Constant { .. } => "const"@,
            InstrView::Value { op, .. } => op,
            InstrView::Effect { op, .. } => op,
        }
    }

    /// The destination, where the instruction has one.
    pub open spec fn dest(self) -> Option<Seq<char>> {
        match self {
            InstrView::Constant { dest, .. } => Some(dest),
            InstrView::Value { dest, .. } => Some(dest),
            InstrView::Effect { .. } => None,
        }
    }

    /// The arguments; a constant has none.
    pub open spec fn args(self) -> Seq<Seq<char>> {
        match self {
            InstrView::Constant { .. } => Seq::empty(),
            InstrView::Value { args, .. } => args,
            InstrView::Effect { args, .. } => args,
        }
    }

    /// The labels that the instruction names; a constant names none.
    pub open spec fn labels(self) -> Seq<Seq<char>> {
        match self {
            InstrView::Constant { .. } => Seq::empty(),
            InstrView::Value { labels, .. } => labels,
            InstrView::Effect { labels, .. } => labels,
        }
    }

    /// Whether the instruction ends a basic block: its operation is `br`,
    /// `jmp` or `ret`.
    pub open spec fn is_terminator(self) -> bool {
        self.op() == "br"@ || self.op() == "jmp"@ || self.op() == "ret"@
    }
}

/// An item of a function's body: a label or an instruction.
#[derive(Debug)]
pub enum Code {
    Label { label: String },
    Instruction(Instruction),
}

/// The model of a [`Code`] item.
pub enum CodeView {
    Label { label: Seq<char> },
    Instruction(InstrView),
}

impl View for Code {
    type V = CodeView;

    open spec fn view(&self) -> CodeView {
        match *self {
            Code::Label { label } => CodeView::Label { label: label@ },
            Code::Instruction(instr) => CodeView::Instruction(instr@),
        }
    }
}

/// A formal parameter of a function.
#[derive(Debug)]
pub struct Argument {
    pub name: String,
    pub arg_type: Type,
}

/// A function: its name, parameters, optional return type and body.
#[derive(Debug)]
pub struct Function {
    pub name: String,
    pub args: Vec<Argument>,
    pub return_type: Option<Type>,
    pub instrs: Vec<Code>,
}

/// A program: its functions, in order.
#[derive(Debug)]
pub struct Program {
    pub functions: Vec<Function>,
}

/// The model of a list of code items.
pub open spec fn codes(v: Seq<Code>) -> Seq<CodeView> {
    v.map_values(|c: Code| c@)
}

/// Whether the string holds exactly the given text.
pub fn is_str(s: &String, text: &str) -> (r: bool)
    ensures
        r == (s@ == text@),
{
    let t = String::from_str(text);
    *s == t
}

/// Copies a list of names.
pub fn clone_names(v: &Vec<String>) -> (r: Vec<String>)
    ensures
        names(r@) == names(v@),
{
    let mut out: Vec<String> = Vec::new();
    let mut i: usize = 0;
    while i < v.len()
        invariant
            i <= v.len(),
            out.len() == i,
            forall|j: int| 0 <= j < i ==> out[j]@ == v[j]@,
        decreases v.len() - i,
    {
        out.push(v[i].clone());
        i += 1;
    }
    assert(names(out@) =~= names(v@));
    out
}

impl Clone for Instruction {
    fn clone(&self) -> (r: Self)
        ensures
            r@ == self@,
    {
        match self {
            Instruction::Constant { dest, const_type, value } => Instruction::Constant {
                dest: dest.clone(),
                const_type: clone_type(const_type),
                value: *value,
            },
            Instruction::Value { op, dest, op_type, args, labels, funcs } => Instruction::Value {
                op: op.clone(),
                dest: dest.clone(),
                op_type: clone_type(op_type),
                args: clone_names(args),
                labels: clone_names(labels),
                funcs: clone_names(funcs),
            },
            Instruction::Effect { op, args, labels, funcs } => Instruction::Effect {
                op: op.clone(),
                args: clone_names(args),
                labels: clone_names(labels),
                funcs: clone_names(funcs),
            },
        }
    }
}

impl Clone for Code {
    fn clone(&self) -> (r: Self)
        ensures
            r@ == self@,
    {
        match self {
            Code::Label { label } => Code::Label { label: label.clone() },
            Code::Instruction(instr) => Code::Instruction(instr.clone()),
        }
    }
}

/// Copies a list of code items.
pub fn clone_codes(v: &Vec<Code>) -> (r: Vec<Code>)
    ensures
        codes(r@) == codes(v@),
{
    let mut out: Vec<Code> = Vec::new();
    let mut i: usize = 0;
    while i < v.len()
        invariant
            i <= v.len(),
            out.len() == i,
            forall|j: int| 0 <= j < i ==> out[j]@ == v[j]@,
        decreases v.len() - i,
    {
        out.push(v[i].clone());
        i += 1;
    }
    assert(codes(out@) =~= codes(v@));
    out
}

/// An effect instruction without arguments that names the given labels.
pub fn effect(op: &str, labels: Vec<String>) -> (r: Instruction)
    ensures
        r@ == (InstrView::Effect {
            op: op@,
            args: Seq::empty(),
            labels: names(labels@),
            funcs: Seq::empty(),
        }),
{
    let r = Instruction::Effect {
        op: String::from_str(op),
        args: Vec::new(),
        labels,
        funcs: Vec::new(),
    };
    assert(names(Seq::<String>::empty()) =~= Seq::<Seq<char>>::empty());
    r
}

impl Instruction {
    /// The operation's name; a constant's is `const`.
    pub fn get_op(&self) -> (r: String)
        ensures
            r@ == self@.op(),
    {
        match self {
            Instruction::Constant { .. } => String::from_str("const"),
            Instruction::Value { op, .. } => op.clone(),
            Instruction::Effect { op, .. } => op.clone(),
        }
    }

    /// Whether the instruction ends a basic block.
    pub fn is_terminator(&self) -> (r: bool)
        ensures
            r == self@.is_terminator(),
    {
        let op = self.get_op();
        is_str(&op, "br") || is_str(&op, "jmp") || is_str(&op, "ret")
    }
}

} // verus!
