//! A node of a grid of small processors in the style of TIS-100: an
//! assembler that turns program text into an executable with resolved
//! labels, the slots through which neighbouring nodes pass values, and an
//! engine that runs one instruction per two-phase tick.

pub mod instruction;
pub mod parse;
pub mod port;
pub mod cpu;
