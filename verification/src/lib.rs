use vstd::prelude::*;

pub mod cli;
pub mod error;
pub mod function_preprocessor;
pub mod importer;
pub mod mini_vm;
pub mod name_map;
pub mod namezator;
pub mod parentheses_preprocessor;
pub mod preprocessors;
pub mod text;
pub mod to_bytecode;
pub mod tokens;
pub mod vm;

verus! {

} // verus!
