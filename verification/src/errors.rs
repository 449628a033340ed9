//! The failure surface of the library: record decoding errors and
//! selection errors.  An unresolvable residue is not an error; it is
//! reported as the stuck set beside the finalized blocks.

use vstd::prelude::*;

verus! {

/// A record failed to decode.
#[derive(Debug)]
pub enum ParseError {
    /// The record does not have three or four comma-separated fields.
    WrongFieldCount,
    /// The id field is empty.
    EmptyId,
    /// The fee field is not a decimal number that fits the fee type.
    BadFee,
    /// The weight field is not a decimal number that fits the weight type.
    BadWeight,
    /// The weight field is zero; a weight must be strictly positive.
    ZeroWeight,
}

/// Selection over a pool failed as a whole.
#[derive(Debug)]
pub enum SelectError {
    /// Two ingested records share this id.
    DuplicateId { txid: String },
    /// The parent relation over pool-resident ids contains a cycle;
    /// the named id lies on the unorderable residue.
    Cycle { txid: String },
    /// An ingested record has weight zero, which the data model forbids.
    InvalidWeight { txid: String },
    /// The pool's total fee or total weight exceeds what the engine's
    /// 64-bit package arithmetic can carry.
    Overflow,
}

impl ParseError {
    /// A short description of the error.
    pub fn describe(&self) -> (r: &'static str)
        ensures
            r@ == self.describe_spec(),
    {
        match self {
            ParseError::WrongFieldCount => "record does not have 3 or 4 fields",
            ParseError::EmptyId => "record has an empty id",
            ParseError::BadFee => "fee is not a valid number",
            ParseError::BadWeight => "weight is not a valid number",
            ParseError::ZeroWeight => "weight must be positive",
        }
    }

    pub open spec fn describe_spec(&self) -> Seq<char> {
        match self {
            ParseError::WrongFieldCount => "record does not have 3 or 4 fields"@,
            ParseError::EmptyId => "record has an empty id"@,
            ParseError::BadFee => "fee is not a valid number"@,
            ParseError::BadWeight => "weight is not a valid number"@,
            ParseError::ZeroWeight => "weight must be positive"@,
        }
    }
}

} // verus!
