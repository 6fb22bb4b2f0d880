//! The closed discriminant enumeration: four variants, each bound to a
//! fixed small integer code that is its only wire representation.

use vstd::prelude::*;
use crate::scalar::{
    FromXmlStr, ScalarError, unsigned_accepts, unsigned_error, unsigned_val, parse_unsigned,
};

verus! {

/// A closed enumeration whose wire representation is its integer code:
/// `Zero` is 0, `One` is 1, `Two` is 2, `Three` is 3.
#[derive(Debug, PartialEq, Eq, Structural, Clone, Copy)]
pub enum ByteEnum {
    Zero,
    One,
    Two,
    Three,
}

/// Exactly which error parsing a `ByteEnum` from text reports: the integer
/// grammar's own errors pass through, and an in-range integer above 3 is a
/// bad discriminant carrying the offending code.
pub open spec fn byte_enum_error(s: Seq<char>, e: ScalarError) -> bool {
    match e {
        ScalarError::BadDiscriminant(c) => unsigned_accepts(s, 255) && c == unsigned_val(s)
            && c > 3,
        _ => unsigned_error(s, 255, e),
    }
}

impl ByteEnum {
    /// The variant's discriminant code.
    pub open spec fn code_spec(self) -> u8 {
        match self {
            ByteEnum::Zero => 0,
            ByteEnum::One => 1,
            ByteEnum::Two => 2,
            ByteEnum::Three => 3,
        }
    }

    /// The variant a discriminant code denotes, if it is in range.
    pub open spec fn from_code_spec(b: u8) -> Option<ByteEnum> {
        if b == 0 {
            Some(ByteEnum::Zero)
        } else if b == 1 {
            Some(ByteEnum::One)
        } else if b == 2 {
            Some(ByteEnum::Two)
        } else if b == 3 {
            Some(ByteEnum::Three)
        } else {
            None
        }
    }

    /// The variant's discriminant code, the value serialization emits.
    pub fn code(self) -> (r: u8)
        ensures
            r == self.code_spec(),
    {
        match self {
            ByteEnum::Zero => 0,
            ByteEnum::One => 1,
            ByteEnum::Two => 2,
            ByteEnum::Three => 3,
        }
    }

    /// Map a discriminant code back to its variant; codes above 3 are
    /// rejected with the offending code named in the error.
    pub fn from_code(b: u8) -> (r: Result<ByteEnum, ScalarError>)
        ensures
            match r {
                Ok(v) => Self::from_code_spec(b) == Some(v),
                Err(e) => b > 3 && (e matches ScalarError::BadDiscriminant(c) && c == b),
            },
    {
        match b {
            0 => Ok(ByteEnum::Zero),
            1 => Ok(ByteEnum::One),
            2 => Ok(ByteEnum::Two),
            3 => Ok(ByteEnum::Three),
            _ => Err(ScalarError::BadDiscriminant(b)),
        }
    }

    /// Two-stage parse: text to unsigned byte (the integer grammar's errors
    /// pass through), then byte to variant (range errors are raised here).
    pub fn from_str(s: &str) -> (r: Result<ByteEnum, ScalarError>)
        ensures
            match r {
                Ok(v) => unsigned_accepts(s@, 255) && Self::from_code_spec(
                    unsigned_val(s@) as u8,
                ) == Some(v),
                Err(e) => byte_enum_error(s@, e),
            },
    {
        let byte: u8 = match parse_unsigned(s, 255) {
            Ok(v) => v as u8,
            Err(e) => {
                return Err(e);
            },
        };
        Self::from_code(byte)
    }
}

impl FromXmlStr for ByteEnum {
    /// The enumeration's attribute-text grammar: the decimal form of a code
    /// in range.
    open spec fn from_xml_str_spec(s: Seq<char>) -> Option<ByteEnum> {
        if unsigned_accepts(s, 255) {
            ByteEnum::from_code_spec(unsigned_val(s) as u8)
        } else {
            None
        }
    }

    fn from_str(s: &str) -> (r: Result<ByteEnum, ScalarError>)
        ensures
            r matches Err(e) ==> byte_enum_error(s@, e),
    {
        ByteEnum::from_str(s)
    }
}

/// Round trip through the wire representation: every variant's code maps
/// back to the variant itself.
pub proof fn lemma_code_round_trip(v: ByteEnum)
    ensures
        ByteEnum::from_code_spec(v.code_spec()) == Some(v),
{
}

} // verus!
