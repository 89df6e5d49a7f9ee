//! The failures a decode can report, and the text each one carries.

use vstd::prelude::*;
use vstd::std_specs::convert::FromSpecImpl;
use vstd::string::StringExecFns;
use core::array::TryFromSliceError;

verus! {

/// What went wrong while decoding.
#[derive(Debug, Clone, Copy, PartialEq, Eq, Structural)]
pub enum ErrorKind {
    /// A fixed-width conversion was handed fewer bytes than the width it needs.
    TryFromSliceError,
    /// The buffer ran out before a field of a sequence could be taken from it.
    BufferLengthError,
}

/// A decode failure: its kind and a diagnostic text.
#[derive(Debug)]
pub struct PackableError {
    pub error_kind: ErrorKind,
    pub data: String,
}

/// The error std returns when a slice does not have the length of the array
/// it is converted to. Nothing is known of a value of it.
#[verifier::external_type_specification]
#[verifier::external_body]
pub struct ExTryFromSliceError(TryFromSliceError);

/// A `PackableError` as plain values.
pub struct PackableErrorView {
    pub error_kind: ErrorKind,
    pub data: Seq<char>,
}

impl View for PackableError {
    type V = PackableErrorView;

    open spec fn view(&self) -> PackableErrorView {
        PackableErrorView { error_kind: self.error_kind, data: self.data@ }
    }
}

/// The character of a decimal digit.
pub open spec fn digit_char(d: nat) -> char {
    if d == 0 {
        '0'
    } else if d == 1 {
        '1'
    } else if d == 2 {
        '2'
    } else if d == 3 {
        '3'
    } else if d == 4 {
        '4'
    } else if d == 5 {
        '5'
    } else if d == 6 {
        '6'
    } else if d == 7 {
        '7'
    } else if d == 8 {
        '8'
    } else {
        '9'
    }
}

/// `n` written in decimal, without leading zeros.
pub open spec fn decimal_text(n: nat) -> Seq<char>
    decreases n,
{
    if n < 10 {
        seq![digit_char(n)]
    } else {
        decimal_text(n / 10).push(digit_char(n % 10))
    }
}

/// The text of a conversion that was handed a slice of the wrong length.
pub open spec fn conversion_text() -> Seq<char> {
    "could not convert slice to array"@
}

/// The text of a buffer shortfall: the bytes wanted, then the bytes there.
pub open spec fn shortfall_text(expected: nat, actual: nat) -> Seq<char> {
    "except "@ + decimal_text(expected) + " bytes and get "@ + decimal_text(actual)
}

/// The name of an error kind, as it is printed.
pub open spec fn kind_text(kind: ErrorKind) -> Seq<char> {
    match kind {
        ErrorKind::TryFromSliceError => "TryFromSliceError"@,
        ErrorKind::BufferLengthError => "BufferLengthError"@,
    }
}

/// The failure of a fixed-width conversion.
pub open spec fn conversion_error() -> PackableErrorView {
    PackableErrorView { error_kind: ErrorKind::TryFromSliceError, data: conversion_text() }
}

/// The failure of taking `expected` bytes from a buffer that holds `actual`.
pub open spec fn shortfall_error(expected: nat, actual: nat) -> PackableErrorView {
    PackableErrorView {
        error_kind: ErrorKind::BufferLengthError,
        data: shortfall_text(expected, actual),
    }
}

fn digit_str(d: usize) -> (s: &'static str)
    requires
        d < 10,
    ensures
        s@ == seq![digit_char(d as nat)],
{
    proof {
        reveal_strlit("0");
        reveal_strlit("1");
        reveal_strlit("2");
        reveal_strlit("3");
        reveal_strlit("4");
        reveal_strlit("5");
        reveal_strlit("6");
        reveal_strlit("7");
        reveal_strlit("8");
        reveal_strlit("9");
    }
    let s: &'static str = if d == 0 {
        "0"
    } else if d == 1 {
        "1"
    } else if d == 2 {
        "2"
    } else if d == 3 {
        "3"
    } else if d == 4 {
        "4"
    } else if d == 5 {
        "5"
    } else if d == 6 {
        "6"
    } else if d == 7 {
        "7"
    } else if d == 8 {
        "8"
    } else {
        "9"
    };
    assert(s@ =~= seq![digit_char(d as nat)]);
    s
}

/// Writes `n` in decimal.
pub fn decimal(n: usize) -> (text: String)
    ensures
        text@ == decimal_text(n as nat),
    decreases n,
{
    if n < 10 {
        String::from_str(digit_str(n))
    } else {
        let mut text: String = decimal(n / 10);
        text.append(digit_str(n % 10));
        assert(text@ =~= decimal_text((n / 10) as nat).push(digit_char((n % 10) as nat)));
        text
    }
}

/// The text that a `TryFromSliceError` prints of itself through its `Display`
/// impl. Only that the text depends on the error value alone is claimed of it:
/// its wording is std's.
pub uninterp spec fn slice_error_display(error: TryFromSliceError) -> Seq<char>;

/// What `TryFromSliceError` prints of itself, through its `Display` impl:
/// the text of `slice_error_display`, whose wording is not stated.
#[verifier::external_body]
fn slice_error_text(error: &TryFromSliceError) -> (text: String)
    ensures
        text@ == slice_error_display(*error),
{
    format!("{}", error)
}

impl From<TryFromSliceError> for PackableError {
    /// A failed slice-to-array conversion as a decode failure, with the text
    /// that the conversion's own error prints.
    fn from(error: TryFromSliceError) -> (e: PackableError)
        ensures
            e.error_kind == ErrorKind::TryFromSliceError,
            e.data@ == slice_error_display(error),
    {
        PackableError {
            error_kind: ErrorKind::TryFromSliceError,
            data: slice_error_text(&error),
        }
    }
}

impl FromSpecImpl<TryFromSliceError> for PackableError {
    open spec fn obeys_from_spec() -> bool {
        false
    }

    open spec fn from_spec(v: TryFromSliceError) -> PackableError {
        arbitrary()
    }
}

impl PackableError {
    /// The error of a fixed-width conversion that got too few bytes.
    pub fn conversion() -> (e: PackableError)
        ensures
            e@ == conversion_error(),
    {
        PackableError {
            error_kind: ErrorKind::TryFromSliceError,
            data: String::from_str("could not convert slice to array"),
        }
    }

    /// The error of a buffer that holds `actual` bytes where `expected` are needed.
    pub fn shortfall(expected: usize, actual: usize) -> (e: PackableError)
        ensures
            e@ == shortfall_error(expected as nat, actual as nat),
    {
        let mut data: String = String::from_str("except ");
        data.append(decimal(expected).as_str());
        data.append(" bytes and get ");
        data.append(decimal(actual).as_str());
        PackableError { error_kind: ErrorKind::BufferLengthError, data }
    }

    /// The error as one line: a fixed opening, the kind's name, and the text.
    pub fn to_string(&self) -> (line: String)
        ensures
            line@ == "packable error "@ + kind_text(self.error_kind) + " "@ + self.data@,
    {
        let mut line: String = String::from_str("packable error ");
        match self.error_kind {
            ErrorKind::TryFromSliceError => line.append("TryFromSliceError"),
            ErrorKind::BufferLengthError => line.append("BufferLengthError"),
        }
        line.append(" ");
        line.append(self.data.as_str());
        line
    }
}

} // verus!
