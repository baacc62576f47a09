//! Verified core of the Mathematical Arabic Language (MAL) toolchain:
//! foundation types, the node arena, the lexer and parser, and the
//! mathematical libraries built on them.
#![allow(unused_imports)]

pub mod types;
pub mod arena;
pub mod lexer;
pub mod parser;
pub mod abjad;
pub mod linear;
pub mod sets;
pub mod zf;
pub mod model;
pub mod macros;
pub mod session;
pub mod dependent;
pub mod monadic;
pub mod text;
pub mod adt;
pub mod traits;
pub mod category;
pub mod hott;
pub mod stdlib;
pub mod search;
pub mod fixed;
pub mod index;
pub mod geometry;
pub mod ownership;
pub mod nir;
pub mod native;
pub mod pattern;
pub mod typecheck;
pub mod kb;
