//! The preprocessing passes that run between the tokenizer and the renamer.
pub mod parentheses_preprocessor;
pub mod range_expander;
pub mod else_preprocessor;
pub mod function_preprocessor;

pub use parentheses_preprocessor::parentheses_process;
pub use range_expander::expand_ranges;
pub use else_preprocessor::else_processing;
pub use function_preprocessor::expand;
