//! chip8-lang: a small functional language compiled to CHIP-8 ROMs.
//!
//! Pipeline: source text -> Lexer -> Parser -> Analyzer -> CodeGen -> ROM bytes.

/// Semantic analysis (type checking and scope resolution).
pub mod analyzer;
/// CHIP-8 machine domain types (registers, addresses, instruction set).
pub mod chip8;
/// What CHIP-8 instruction words do to the machine.
pub mod machine;
/// Code generation from the AST to CHIP-8 bytecode.
pub mod codegen;
/// ROM image validation.
pub mod emitter;
/// Lexical analysis from source text to tokens.
pub mod lexer;
/// Syntactic analysis from tokens to the AST.
pub mod parser;
/// Name-keyed tables kept as vectors.
pub mod table;
/// Building and comparing strings.
pub mod text;
