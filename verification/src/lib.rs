//! Passes over Bril programs: trace speculation, control-flow graphs,
//! dominators, natural loops, loop-invariant code motion and the first
//! steps of SSA conversion.

pub mod bril;
pub mod cfg;
pub mod loops;
pub mod dominance;
pub mod names;
pub mod licm;
pub mod reaching;
pub mod trace;
pub mod ssa;
pub mod skeleton;
