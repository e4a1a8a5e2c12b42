//! Polynomials in one variable with `i32` coefficients: reading them from
//! text, keeping them in canonical form, adding, multiplying and dividing
//! them, and finding their exact integer roots.
//!
//! Every operation is stated over a model of an expression as a sequence of
//! (coefficient, exponent) pairs, read as the sum of its terms.

mod laws;
mod model;
mod mono;
mod poly;
mod roots;
mod text;

pub use laws::{
    law_add_negation, law_add_zero, law_division_by_unit, law_normalize_idempotent,
    law_parse_display, law_product_degree,
};
pub use mono::{Monomial, ParseError, TermError};
pub use poly::{EquationType, Polynomial};
pub use roots::find_divs;
