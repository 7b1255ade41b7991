pub mod jupyter;
pub mod kernel;
pub mod lexer;
pub mod linux;
pub mod memory;
pub mod nfa;
pub mod proc;
pub mod radix;
pub mod regex;
pub mod rpn;
pub mod runtime;
pub mod sha1;
