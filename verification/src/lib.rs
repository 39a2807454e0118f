//! zρ: a small assembly language for video game hacking, with a verified
//! assembler and a cycle-accurate simulator of the machines that run it.

pub mod defaults;
pub mod interface;
pub mod simulation;
pub mod ui;
pub mod zrho_program;
