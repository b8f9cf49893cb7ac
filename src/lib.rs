//! A parsing kernel for Verilog/SystemVerilog source text.
//!
//! Every syntactic category implements [`AST`]: it is handed the unconsumed
//! input and answers with a [`ParseOutcome`], which is either a node together
//! with the suffix it left, a request for more input, or a typed failure.
pub mod laws;
pub mod lexical;
pub mod outcome;
pub mod source_text;

pub use lexical::{EscapedIdentifier, SimpleIdentifier, WhiteSpace};
pub use outcome::{ParseOutcome, ParserErr, Scan, AST};
pub use source_text::{Lexeme, Located, SourceLocation, SourceText};
