//! The validated named numeric record and the library's error type.
//!
//! A record is created once through the validating constructor and is
//! immutable thereafter.  Construction rejects an empty name, and also a
//! non-finite value: value finiteness is enforced as a construction-time
//! invariant, so every well-formed record renders and round-trips.

use vstd::prelude::*;

use crate::arith::TWO_BITS;
use crate::arith::mul_bits;
use crate::arith::mul_of;
use crate::bits::is_finite;
use crate::bits::is_finite_bits;

verus! {

/// The two error kinds, both discovered at construction time.
#[derive(Debug)]
pub enum CoreError {
    /// Reserved for processing failures; no current operation returns it.
    ProcessingError(String),
    /// A rejected construction: an empty name, or a non-finite value.
    ValidationError(String),
}

impl CoreError {
    /// The rendered message, in the shape `kind: detail`.
    pub fn message(&self) -> (r: String)
        ensures
            self matches CoreError::ProcessingError(d) ==> r@ == "processing error: "@ + d@,
            self matches CoreError::ValidationError(d) ==> r@ == "validation error: "@ + d@,
    {
        match self {
            CoreError::ProcessingError(d) => {
                let mut s = "processing error: ".to_owned();
                s.append(d.as_str());
                s
            },
            CoreError::ValidationError(d) => {
                let mut s = "validation error: ".to_owned();
                s.append(d.as_str());
                s
            },
        }
    }
}

/// A named numeric record: an identifier, a non-empty name, and a finite
/// value carried as its binary64 bit pattern.
#[derive(Debug, Clone)]
pub struct DataModel {
    pub id: u64,
    pub name: String,
    /// The IEEE-754 binary64 bit pattern of the value.
    pub value: u64,
}

impl DataModel {
    /// Well-formedness, established by the constructor: the name is
    /// non-empty and the value is finite.
    pub open spec fn wf(self) -> bool {
        self.name@.len() > 0 && is_finite_bits(self.value)
    }

    /// Validating constructor.  Succeeds exactly on a non-empty name and
    /// a finite value; each rejection names its reason.
    pub fn new(id: u64, name: String, value: u64) -> (r: Result<DataModel, CoreError>)
        ensures
            r is Ok <==> name@.len() > 0 && is_finite_bits(value),
            r matches Ok(m) ==> m == (DataModel { id, name, value }) && m.wf(),
            name@.len() == 0 ==> (r matches Err(CoreError::ValidationError(d)) && d@
                == "Name cannot be empty"@),
            name@.len() > 0 && !is_finite_bits(value) ==> (r matches Err(
                CoreError::ValidationError(d),
            ) && d@ == "Value must be a finite number"@),
    {
        if name.as_str().is_empty() {
            return Err(CoreError::ValidationError("Name cannot be empty".to_owned()));
        }
        if !is_finite(value) {
            return Err(CoreError::ValidationError("Value must be a finite number".to_owned()));
        }
        Ok(DataModel { id, name, value })
    }

    /// The record's value doubled: the rounding product with `2.0`.
    pub fn process(&self) -> (r: u64)
        ensures
            r == mul_of(self.value, TWO_BITS),
    {
        mul_bits(self.value, TWO_BITS)
    }

    /// The record's value squared: the rounding product with itself.
    pub fn squared(&self) -> (r: u64)
        ensures
            r == mul_of(self.value, self.value),
    {
        mul_bits(self.value, self.value)
    }
}

} // verus!
