//! An interpreter for a small concatenative rewrite language.
//!
//! Programs are text.  A program is parsed into a term that lives in a
//! garbage-collected [`Heap`], rewritten by the reducer under a step quota, and
//! rendered back to text.  A [`Pod`] keeps a heap together with a dictionary
//! of named terms, so that later inputs can refer to earlier ones.
//!
//! Every function is stated over a mathematical model: a heap is viewed as a
//! [`HeapView`], a reference into it denotes a [`Term`], and the reducer is
//! described by the abstract machine of the `machine` module.
pub mod error;
pub mod term;
pub mod heap;
pub mod heap_laws;
pub mod text;
pub mod text_laws;
pub mod syntax;
pub mod syntax_laws;
pub mod machine;
pub mod library;
pub mod reduce;
pub mod reduce_laws;
pub mod command;
pub mod feed;
pub mod pod;
pub mod eval;

pub use crate::error::Error;
pub use crate::error::check;

pub use crate::heap::Heap;
pub use crate::heap::HeapView;
pub use crate::heap::Object;
pub use crate::heap::Ptr;
pub use crate::term::Opcode;
pub use crate::term::Term;
pub use crate::text::Numeral;
pub use crate::text::tokens;
pub use crate::library::Library;
pub use crate::reduce::Thread;
pub use crate::reduce::reduce;
pub use crate::pod::Pod;
pub use crate::eval::eval;
