//! A small parser-combinator library over character input, a JSON grammar
//! written with it, and a few plain helpers.

pub mod foo;
pub mod strings;
pub mod parser;
pub mod combinators;
pub mod chars;
pub mod repeat;
pub mod refine;
pub mod json;
pub mod laws;
pub mod demo;
