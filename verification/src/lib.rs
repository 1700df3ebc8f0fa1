//! Execution core of a stack-based interpreter: a tagged value model with
//! copy-on-write tuples, an interned atom table, a mutable-cell arena, a
//! persistent key-ordered map, and a continuation trampoline that lets
//! built-in words loop without growing the native call stack.

pub mod base;
pub mod cont;
pub mod error;
pub mod map;
pub mod stack;
pub mod value;
