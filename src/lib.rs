//! A preprocessor for VCL: a lexer, a nesting tracker and a cascade of
//! token rewriting passes, each stated against a mathematical model.
pub mod text;
pub mod tok;
pub mod lexer;
pub mod flow;
pub mod bktchk;
pub mod declobj;
pub mod reqauth;
pub mod hdrarray;
pub mod vmodalias;
pub mod vclpp;

pub use bktchk::{check_brackets, BracketCheck};
pub use declobj::{desugar, DeclarativeObject};
pub use flow::Flow;
pub use hdrarray::{flatten_arrays, HeaderArray};
pub use lexer::{tokenize, Tokenizer};
pub use reqauth::{rewrite_authority, RequestAuthority};
pub use tok::{Cursor, Lexeme, Source, Token};
pub use vclpp::{preprocess, sink};
pub use vmodalias::{resolve_aliases, VmodAlias};
