//! Arithmetic in finite fields of prime order, with every operation proved
//! to return the canonical residue that the field's definition asks for.
use vstd::prelude::*;

pub mod field_element;
pub mod prime;

pub use field_element::{FieldElement, MismatchedFieldError};

verus! {

} // verus!
