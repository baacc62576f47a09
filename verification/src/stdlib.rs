//! Standard library of MAL programs: integer mathematics, abjad
//! numerals of single characters and strings, and string utilities.
pub mod math;
pub mod abjad;
pub mod string;
