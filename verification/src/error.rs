//! Error values reported by the engine.
//!
//! All fallible operations return `Result<T, SoAKitError>`. Each variant
//! carries enough context to diagnose the failure; the spec-level mirror
//! `ErrModel` lets contracts speak about errors precisely, with string
//! payloads as character sequences.

use vstd::prelude::*;
use vstd::string::StringExecFns;

verus! {

/// Spec-level mirror of [`SoAKitError`].
pub enum ErrModel {
    /// A general contract violation (zero row count, empty value sequence,
    /// arithmetic overflow, a non-vector where a vector was required, an
    /// inconsistent derived-field registration, or an exhausted dependency
    /// depth bound).
    InvalidArgument(Seq<char>),
    /// An unregistered field, or a registered field that has never been set.
    FieldNotFound(Seq<char>),
    /// A value rejected by the field's validator.
    ValidationFailed(Seq<char>),
    /// An index at or beyond the valid range `0..max`.
    IndexOutOfBounds { index: usize, max: usize },
    /// A sequence whose length differs from the required one.
    LengthMismatch { expected: usize, actual: usize },
    /// A derived field registered without dependencies.
    DerivedFieldNoDeps(Seq<char>),
    /// A field name registered twice.
    FieldAlreadyExists(Seq<char>),
}

/// Main error type for all engine operations.
#[derive(Debug, Clone, PartialEq)]
pub enum SoAKitError {
    /// Invalid function argument.
    InvalidArgument(String),
    /// Field not found in the registry, or never set.
    FieldNotFound(String),
    /// Field validation failed.
    ValidationFailed(String),
    /// Index out of bounds: valid range is `0..max`.
    IndexOutOfBounds {
        /// The index that was accessed.
        index: usize,
        /// The maximum valid index (exclusive).
        max: usize,
    },
    /// Sequence length does not match the required length.
    LengthMismatch {
        /// The required length.
        expected: usize,
        /// The length actually supplied.
        actual: usize,
    },
    /// Derived field registered without dependencies.
    DerivedFieldNoDeps(String),
    /// Field already registered.
    FieldAlreadyExists(String),
}

impl View for SoAKitError {
    type V = ErrModel;

    open spec fn view(&self) -> ErrModel {
        match self {
            SoAKitError::InvalidArgument(m) => ErrModel::InvalidArgument(m@),
            SoAKitError::FieldNotFound(m) => ErrModel::FieldNotFound(m@),
            SoAKitError::ValidationFailed(m) => ErrModel::ValidationFailed(m@),
            SoAKitError::IndexOutOfBounds { index, max } => ErrModel::IndexOutOfBounds {
                index: *index,
                max: *max,
            },
            SoAKitError::LengthMismatch { expected, actual } => ErrModel::LengthMismatch {
                expected: *expected,
                actual: *actual,
            },
            SoAKitError::DerivedFieldNoDeps(m) => ErrModel::DerivedFieldNoDeps(m@),
            SoAKitError::FieldAlreadyExists(m) => ErrModel::FieldAlreadyExists(m@),
        }
    }
}

/// The character for a single decimal digit.
pub open spec fn digit_char(d: nat) -> char {
    if d == 0 {
        '0'
    } else if d == 1 {
        '1'
    } else if d == 2 {
        '2'
    } else if d == 3 {
        '3'
    } else if d == 4 {
        '4'
    } else if d == 5 {
        '5'
    } else if d == 6 {
        '6'
    } else if d == 7 {
        '7'
    } else if d == 8 {
        '8'
    } else {
        '9'
    }
}

/// The decimal representation of a natural number, most significant digit
/// first.
pub open spec fn dec_str(n: nat) -> Seq<char>
    decreases n,
{
    if n < 10 {
        seq![digit_char(n)]
    } else {
        dec_str(n / 10).push(digit_char(n % 10))
    }
}

/// The message text for each error value.
pub open spec fn message_spec(e: ErrModel) -> Seq<char> {
    match e {
        ErrModel::InvalidArgument(m) => "Invalid argument: "@ + m,
        ErrModel::FieldNotFound(m) => "Field not found: "@ + m,
        ErrModel::ValidationFailed(m) => "Validation failed: "@ + m,
        ErrModel::IndexOutOfBounds { index, max } => "Index "@ + dec_str(index as nat) + " out of bounds (max: "@
            + dec_str(max as nat) + ")"@,
        ErrModel::LengthMismatch { expected, actual } => "Length mismatch: expected "@ + dec_str(
            expected as nat,
        ) + ", got "@ + dec_str(actual as nat),
        ErrModel::DerivedFieldNoDeps(m) => "Derived field '"@ + m + "' has no dependencies"@,
        ErrModel::FieldAlreadyExists(m) => "Field '"@ + m + "' already exists"@,
    }
}

/// A one-character string slice for a single decimal digit.
fn digit_str(d: usize) -> (r: &'static str)
    requires
        d < 10,
    ensures
        r@ == seq![digit_char(d as nat)],
{
    let r: &'static str = if d == 0 {
        proof {
            reveal_strlit("0");
        }
        "0"
    } else if d == 1 {
        proof {
            reveal_strlit("1");
        }
        "1"
    } else if d == 2 {
        proof {
            reveal_strlit("2");
        }
        "2"
    } else if d == 3 {
        proof {
            reveal_strlit("3");
        }
        "3"
    } else if d == 4 {
        proof {
            reveal_strlit("4");
        }
        "4"
    } else if d == 5 {
        proof {
            reveal_strlit("5");
        }
        "5"
    } else if d == 6 {
        proof {
            reveal_strlit("6");
        }
        "6"
    } else if d == 7 {
        proof {
            reveal_strlit("7");
        }
        "7"
    } else if d == 8 {
        proof {
            reveal_strlit("8");
        }
        "8"
    } else {
        proof {
            reveal_strlit("9");
        }
        "9"
    };
    proof {
        assert(r@ =~= seq![digit_char(d as nat)]);
    }
    r
}

/// Renders a number in decimal, most significant digit first.
pub fn usize_to_string(n: usize) -> (s: String)
    ensures
        s@ == dec_str(n as nat),
    decreases n,
{
    if n < 10 {
        String::from_str(digit_str(n))
    } else {
        let mut s = usize_to_string(n / 10);
        s.append(digit_str(n % 10));
        proof {
            assert(s@ =~= dec_str(n as nat));
        }
        s
    }
}

impl SoAKitError {
    /// A human-readable description of the error.
    pub fn message(&self) -> (s: String)
        ensures
            s@ == message_spec(self@),
    {
        match self {
            SoAKitError::InvalidArgument(m) => String::from_str("Invalid argument: ").concat(
                m.as_str(),
            ),
            SoAKitError::FieldNotFound(m) => String::from_str("Field not found: ").concat(
                m.as_str(),
            ),
            SoAKitError::ValidationFailed(m) => String::from_str("Validation failed: ").concat(
                m.as_str(),
            ),
            SoAKitError::IndexOutOfBounds { index, max } => {
                let s = String::from_str("Index ").concat(usize_to_string(*index).as_str()).concat(
                    " out of bounds (max: ",
                ).concat(usize_to_string(*max).as_str()).concat(")");
                s
            },
            SoAKitError::LengthMismatch { expected, actual } => {
                let s = String::from_str("Length mismatch: expected ").concat(
                    usize_to_string(*expected).as_str(),
                ).concat(", got ").concat(usize_to_string(*actual).as_str());
                s
            },
            SoAKitError::DerivedFieldNoDeps(m) => String::from_str("Derived field '").concat(
                m.as_str(),
            ).concat("' has no dependencies"),
            SoAKitError::FieldAlreadyExists(m) => String::from_str("Field '").concat(
                m.as_str(),
            ).concat("' already exists"),
        }
    }
}

} // verus!
