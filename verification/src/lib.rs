//! Compiles a textual boolean-algebra expression into a logic-gate tree and
//! derives the geometric layout metrics needed to draw that tree as a
//! circuit diagram.

pub mod expression_parser;
pub mod spritesheet;
