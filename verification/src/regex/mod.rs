pub mod pages;
pub mod heap;
pub mod array;
pub mod error;
pub mod bits;
pub mod spans;
pub mod list;
pub mod words;
pub mod graph;
pub mod layout;
pub mod lexer;
pub mod nfa;
pub mod rpn;
pub mod matrix;
