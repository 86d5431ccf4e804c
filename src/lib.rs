//! An interpreter for a 16-bit word-oriented bytecode machine, together with
//! the searches that use cheap copies of the interpreter to solve puzzles.

pub mod synacor_vm;
pub mod text;
pub mod interdimensional_physics;
pub mod orb_vault;
pub mod strange_monument;
pub mod twisty_passages;
