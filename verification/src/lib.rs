//! Pulls values out of JSON, in the spirit of `jq`.
//!
//! [`parser::parse`] turns the text of a query into steps, [`exec::execute`] runs them on values,
//! and [`document::respond`] gives the value to print for them and a JSON text.
//!
//! The steps that a query stands for are defined in [`grammar`], and what they give for a value in
//! [`semantics`]. The functions of the other modules are proved to do just that, and [`laws`] holds
//! what follows for every query.

pub mod document;
pub mod exec;
pub mod grammar;
pub mod laws;
mod lemmas;
pub mod op;
pub mod output;
pub mod parser;
pub mod semantics;
pub mod text;
pub mod value;
