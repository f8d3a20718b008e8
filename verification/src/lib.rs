//! Detection of prompt strings in source code: comment annotations,
//! scope tracking, string-literal span computation and syntax-tree
//! traversal, each stated and proved with Verus.

pub mod annotation;
pub mod benchmarks;
pub mod comments;
pub mod concat;
pub mod parser_core;
pub mod detect;
pub mod expr;
pub mod csharp;
pub mod go;
pub mod identsets;
pub mod java;
pub mod php;
pub mod python;
pub mod ruby;
pub mod syntax;
pub mod text;
pub mod treesitter;
pub mod tshandle;
pub mod types;
