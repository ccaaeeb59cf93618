//! A compiler front and middle end for a tiny call-by-value lambda calculus
//! with integers and the four arithmetic operators.
//!
//! A parsed expression tree is lowered through four ordered stages:
//! scope resolution ([`alpha`]), Hindley-Milner style type inference with
//! destructive unification ([`typeinfer`]), administrative-normal-form
//! linearization and closure conversion with function hoisting ([`anf`]),
//! ending in a flat first-order program that any backend can consume;
//! [`wasm_compile`] renders one such backend's textual output.

pub mod alpha;
pub mod anf;
pub mod typeinfer;
pub mod ast;
pub mod wasm_compile;
