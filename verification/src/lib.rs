use vstd::prelude::*;

pub mod text;
pub mod ids;
pub mod attributes;
pub mod encodings;
pub mod riscv;
pub mod compress;
pub mod abi;
pub mod call_lowering;
pub mod call_steps;
pub mod ddg;
pub mod effects;
pub mod objects;
pub mod scopes;
pub mod isel;
pub mod rules;
pub mod lexer;
pub mod target;
pub mod target_boilerplate;
pub mod sim;
pub mod slab;
pub mod slots;
pub mod chain;
pub mod seed;
pub mod clone;
pub mod targets;
pub mod diagnostics;
pub mod sem_expr;
pub mod lower;
pub mod gated_ssa;
pub mod gated_ssa_build;
pub mod cover;
pub mod value_graph;
pub mod exits;
pub mod fp_environment;
pub mod context;
pub mod builder;

verus! {

} // verus!
