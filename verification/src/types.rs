//! The data types of the rule language, and the errors of its type checks.

use vstd::prelude::*;

verus! {

/// The machine type of an integer of the rule language.
pub type LangInt = i64;

/// The number of bits in an integer of the rule language.
pub const INT_BITS: u32 = 64;

/// The machine type of a cell state.
pub type LangCellState = u8;

/// The number of bits in a cell state.
pub const CELL_STATE_BITS: u32 = 8;

/// The greatest length of a vector.
pub const MAX_VECTOR_LEN: usize = 256;

/// The number of bytes of an integer of the rule language.
pub const INT_BYTES: usize = 8;

/// The number of bytes of a cell state.
pub const CELL_STATE_BYTES: usize = 1;

/// A stretch of the source text, by the indices of its first character
/// and of the one after its last.
#[derive(Clone, Copy, Debug, PartialEq, Eq, Structural)]
pub struct Span {
    /// The index of the first character.
    pub start: usize,
    /// The index after the last character.
    pub end: usize,
}

/// Any data type.
#[derive(Clone, Copy, Debug, PartialEq, Eq, Structural)]
pub enum Type {
    /// Integer.
    Int,
    /// Cell state.
    CellState,
    /// Vector of a specific length (from 1 to 256).
    Vector(usize),
}

/// What went wrong in a type check.
#[derive(Clone, Copy, Debug, PartialEq, Eq)]
#[allow(inconsistent_fields)]
pub enum LangErrorMsg {
    /// A value of type `got` stands where one of type `expected` belongs.
    TypeError {
        /// The type that belongs there.
        expected: Type,
        /// The type that stands there.
        got: Type,
    },
    /// A value of type `got` stands where something described by
    /// `expected` belongs.
    CustomTypeError {
        /// What belongs there, in words.
        expected: &'static str,
        /// The type that stands there.
        got: Type,
    },
}

/// An error with the place in the source text where it arose.
#[derive(Clone, Copy, Debug, PartialEq, Eq)]
pub struct LangError {
    /// The place in the source text.
    pub span: Option<Span>,
    /// What went wrong.
    pub msg: LangErrorMsg,
}

/// The result of a check of the rule language.
pub type LangResult<T> = Result<T, LangError>;

impl LangErrorMsg {
    /// The error with the place where it arose.
    pub fn with_span(self, span: Span) -> (e: LangError)
        ensures
            e.span == Some(span),
            e.msg == self,
    {
        LangError { span: Some(span), msg: self }
    }
}

impl Default for Type {
    fn default() -> (t: Type)
        ensures
            t == Type::Int,
    {
        Type::Int
    }
}

impl Type {
    /// Returns true if this type has a representation in compiled code or
    /// false otherwise; i.e. whether a variable can contain a value of this
    /// type.
    pub fn has_runtime_representation(self) -> (r: bool)
        ensures
            r,
    {
        match self {
            Type::Int | Type::CellState | Type::Vector(_) => true,
        }
    }

    /// The number of bytes that a value of this type takes in compiled
    /// code.
    pub open spec fn byte_size(self) -> int {
        match self {
            Type::Int => INT_BYTES as int,
            Type::CellState => CELL_STATE_BYTES as int,
            Type::Vector(len) => len * INT_BYTES,
        }
    }

    /// Returns the number of bytes used to represent this type in compiled
    /// code, or `None` if this type has no runtime representation: all
    /// types have one but the vectors too long for the machine to address.
    pub fn size_of(self) -> (r: Option<usize>)
        ensures
            r == (if self.byte_size() <= usize::MAX {
                Some(self.byte_size() as usize)
            } else {
                None
            }),
    {
        match self {
            Type::Int => Some(INT_BYTES),
            Type::CellState => Some(CELL_STATE_BYTES),
            Type::Vector(len) => len.checked_mul(INT_BYTES),
        }
    }

    /// Returns a `TypeError` where this type is the "got" type, given an
    /// "expected" type.
    pub fn type_error(self, expected: Type) -> (msg: LangErrorMsg)
        ensures
            msg == (LangErrorMsg::TypeError { expected, got: self }),
    {
        LangErrorMsg::TypeError { expected, got: self }
    }

    /// Returns a `TypeError` with the given span if this type is not
    /// `expected`.
    pub fn expect_eq(self, expected: Type, span: Span) -> (r: LangResult<()>)
        ensures
            self == expected ==> r == Ok::<(), LangError>(()),
            self != expected ==> r == Err::<(), LangError>(
                LangError {
                    span: Some(span),
                    msg: LangErrorMsg::TypeError { expected, got: self },
                },
            ),
    {
        if self == expected {
            Ok(())
        } else {
            Err(self.type_error(expected).with_span(span))
        }
    }

    /// Returns a `CustomTypeError` with the given span if this type is not
    /// an integer or vector.
    pub fn expect_int_or_vec(self, span: Span) -> (r: LangResult<()>)
        ensures
            self != Type::CellState ==> r == Ok::<(), LangError>(()),
            self == Type::CellState ==> r == Err::<(), LangError>(
                LangError {
                    span: Some(span),
                    msg: LangErrorMsg::CustomTypeError {
                        expected: "integer or vector",
                        got: self,
                    },
                },
            ),
    {
        match self {
            Type::Int | Type::Vector(_) => Ok(()),
            _ => Err(
                (LangErrorMsg::CustomTypeError { expected: "integer or vector", got: self }).with_span(
                    span,
                ),
            ),
        }
    }
}

} // verus!
