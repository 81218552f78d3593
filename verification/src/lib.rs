//! The middle and back end of a compiler for a small language of tagged numbers and
//! booleans: a well-formedness check, renaming, lambda lifting, sequentialization, and
//! the generation of x86-64 code, each pass with its specification, and the laws that
//! hold between the passes. Against a model of the processor, the code of a program
//! without functions and printing is proved to run as the program means, and the
//! code of a function body with local functions and tail calls to return what the
//! body means.

pub mod calls;
pub mod check;
pub mod classify;
pub mod classify_laws;
pub mod codegen;
pub mod compile;
pub mod control;
pub mod frame;
pub mod jumps;
pub mod labels;
pub mod lift;
pub mod lift_laws;
pub mod lift_proofs;
pub mod limits;
pub mod lists;
pub mod machine;
pub mod meaning;
pub mod names;
pub mod runs;
pub mod scope;
pub mod sequential;
pub mod sequential_proofs;
pub mod syntax;
pub mod tag;
pub mod tail;
pub mod tag_laws;
pub mod text;
pub mod uniquify;
pub mod uniquify_laws;
pub mod uniquify_proofs;
pub mod value;
pub mod whole;
pub mod x86;
