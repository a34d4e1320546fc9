//! Values of the interpreter, scopes of variables, and the stack of scopes.
use crate::fresh::{decimal, decimal_string, signed_decimal, signed_decimal_string};
use vstd::prelude::*;
use vstd::string::*;

verus! {

/// A pointer into the heap: the base of an object and a displacement from
/// it.
#[derive(Debug, Clone, Copy, PartialEq, Eq)]
pub struct Pointer {
    pub base: usize,
    pub offset: i64,
}

impl Pointer {
    /// The pointer moved by a number of cells. The displacement wraps
    /// around in 64 bits.
    pub fn add(&self, offset: i64) -> (p: Self)
        ensures
            p.base == self.base,
            p.offset == self.offset.wrapping_add(offset),
    {
        Self { base: self.base, offset: self.offset.wrapping_add(offset) }
    }
}

/// A value: an integer, a boolean, a floating-point number held by the bit
/// pattern of its IEEE-754 double, a pointer, or the mark of a cell that
/// was never written.
#[derive(Debug, Clone, Copy, PartialEq, Eq)]
pub enum Value {
    Int(i64),
    Bool(bool),
    Float(u64),
    Pointer(Pointer),
    Uninitialized,
}

impl Default for Value {
    fn default() -> (v: Self)
        ensures
            v == Value::Uninitialized,
    {
        Self::Uninitialized
    }
}

/// A row of `n` cells that were never written.
pub fn blank(n: usize) -> (cells: Vec<Value>)
    ensures
        cells.len() == n,
        forall|i: int| 0 <= i < n ==> cells[i] == Value::Uninitialized,
{
    let mut cells: Vec<Value> = Vec::new();
    let mut i: usize = 0;
    while i < n
        invariant
            i <= n,
            cells.len() == i,
            forall|j: int| 0 <= j < i ==> cells[j] == Value::Uninitialized,
        decreases n - i,
    {
        cells.push(Value::Uninitialized);
        i += 1;
    }
    cells
}

/// The variables of one activation of a function, by variable number.
#[derive(Debug)]
pub struct Scope {
    pub vars: Vec<Value>,
}

impl Scope {
    /// A scope of `size` variables, none of them written.
    pub fn new(size: u32) -> (scope: Self)
        ensures
            scope.vars.len() == size,
            forall|i: int| 0 <= i < size ==> scope.vars[i] == Value::Uninitialized,
    {
        Self { vars: blank(size as usize) }
    }

    /// The value of a variable.
    pub fn get(&self, ident: &u32) -> (val: &Value)
        requires
            *ident < self.vars.len(),
        ensures
            *val == self.vars[*ident as int],
    {
        &self.vars[*ident as usize]
    }

    /// Writes a variable.
    pub fn set(&mut self, ident: u32, val: Value)
        requires
            ident < old(self).vars.len(),
        ensures
            final(self).vars@ == old(self).vars@.update(ident as int, val),
    {
        self.vars.set(ident as usize, val);
    }
}

/// The scopes of the activations that are running, the current one last.
#[derive(Debug)]
pub struct Environment {
    pub env: Vec<Scope>,
}

impl Environment {
    /// The environment of one scope.
    pub fn new(initial_scope: Scope) -> (e: Self)
        ensures
            e.env@ == seq![initial_scope],
    {
        let mut env: Vec<Scope> = Vec::new();
        env.push(initial_scope);
        assert(env@ =~= seq![initial_scope]);
        Self { env }
    }

    /// The current scope, to write to.
    pub fn get_current_scope_mut(&mut self) -> (scope: &mut Scope)
        requires
            old(self).env.len() > 0,
        ensures
            *scope == old(self).env@.last(),
            final(self).env@ == old(self).env@.update(old(self).env.len() - 1, *final(scope)),
    {
        let last = self.env.len() - 1;
        &mut self.env[last]
    }

    /// The current scope.
    pub fn get_current_scope(&self) -> (scope: &Scope)
        requires
            self.env.len() > 0,
        ensures
            *scope == self.env@.last(),
    {
        &self.env[self.env.len() - 1]
    }

    /// Enters a scope.
    pub fn append(&mut self, scope: Scope)
        ensures
            final(self).env@ == old(self).env@.push(scope),
    {
        self.env.push(scope);
    }

    /// Leaves the current scope, if there is one.
    pub fn pop(&mut self)
        ensures
            old(self).env.len() > 0 ==> final(self).env@ == old(self).env@.drop_last(),
            old(self).env.len() == 0 ==> final(self).env@ == old(self).env@,
    {
        self.env.pop();
    }
}


/// The text of a value as it is printed: an integer in decimal, a boolean
/// as `true` or `false`, a pointer with its base and its offset. A
/// floating-point number has no text here, nor has a cell that was never
/// written.
pub open spec fn rendered(v: Value) -> Option<Seq<char>> {
    match v {
        Value::Int(i) => Some(signed_decimal(i as int)),
        Value::Bool(b) => Some(
            if b {
                "true"@
            } else {
                "false"@
            },
        ),
        Value::Pointer(p) => Some(
            "Pointer { base: "@ + decimal(p.base as nat) + ", offset: "@ + signed_decimal(
                p.offset as int,
            ) + " }"@,
        ),
        Value::Float(_) => None,
        Value::Uninitialized => None,
    }
}

impl Value {
    /// The text of the value as it is printed, where it has one.
    pub fn render(&self) -> (text: Option<String>)
        ensures
            match text {
                Some(t) => rendered(*self) == Some(t@),
                None => rendered(*self) is None,
            },
    {
        match self {
            Value::Int(i) => Some(signed_decimal_string(*i)),
            Value::Bool(b) => Some(
                if *b {
                    String::from_str("true")
                } else {
                    String::from_str("false")
                },
            ),
            Value::Pointer(p) => {
                let mut t = String::from_str("Pointer { base: ");
                let base = decimal_string(p.base as u128);
                t.append(base.as_str());
                t.append(", offset: ");
                let offset = signed_decimal_string(p.offset);
                t.append(offset.as_str());
                t.append(" }");
                Some(t)
            },
            Value::Float(_) => None,
            Value::Uninitialized => None,
        }
    }
}

} // verus!
