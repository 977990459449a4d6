//! Compiler for a small language of fixed-width bit patterns.
//!
//! A pattern such as `"xx11[name:00]"` is turned into a canonical string over
//! `0`, `1` and `x`, a table of named bit fields, the list of concrete values
//! that the pattern stands for, and the shift, mask and integer width that
//! recover each field from a matched value.

pub mod alternative;
pub mod arm;
pub mod compile;
pub mod grammar;
pub mod marker;
pub mod mask;
pub mod parse;
pub mod replacer;
pub mod text;

pub use alternative::parse_binary;
pub use arm::{
    compile_arm, rewrite_match, write_variables, ArmPattern, CompiledArm, CompiledPosition,
    ExtractionBinding, Position, Subject,
};
pub use compile::process_pattern_string;
pub use grammar::PatternError;
pub use marker::{find_marker, is_marker};
pub use mask::{gen_mask, variable_size, IntWidth};
pub use parse::{
    parse_pattern_string, parse_variable, try_parse_pattern_string, CapturedVariables,
};
pub use replacer::{make_replacer, replace_x_with_replacer, Replacer};
