//! Turns an RGBA pixel buffer into a shuffled, linked list of packed
//! terminal-colour paint records, rendered as assembler `.quad` lines.

pub mod quantize;
pub mod scanner;
pub mod link;
pub mod listing;
pub mod convert;
