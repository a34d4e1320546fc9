//! A toolkit over a small three-address intermediate representation: basic
//! blocks and control-flow graphs, dataflow analyses, dominators, local value
//! numbering, dead-code elimination, conversion into and out of static single
//! assignment form, an interpreter with a copying collector, and the
//! rewriting of a recorded trace; with the laws that hold of them.
pub mod add_count;
pub mod bits;
pub mod cfg;
pub mod df;
pub mod dominators;
pub mod form_blocks;
pub mod fresh;
pub mod interp;
pub mod ir;
pub mod jit;
pub mod lvn;
pub mod ordered;
pub mod roundtrip;
pub mod ssa;
pub mod ssa_laws;
pub mod ssa_uses;
pub mod tdce;
pub mod tdce_laws;
pub mod validate;
