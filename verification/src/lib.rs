//! Symbolic expressions with alias maps, and matrices with exact coefficients.
pub mod atom;
pub mod alias_table;
pub mod alias;
pub mod fuse;
pub mod normal;
pub mod expansion;
pub mod rational;
pub mod matrix;
pub mod reduce;
