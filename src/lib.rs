//! A verified parser for the DIMACS CNF text format.
pub mod decimal;
pub mod dimacs;
pub mod laws;
pub mod text;

pub use decimal::DecimalToken;
pub use dimacs::{
    convert_string, handle_clause, handle_line_parts, handle_problem, parse_lines,
    parse_read_lines, CNFError, CNFLine, CNF,
};
