//! The error model.
//!
//! `matten` has two error zones. Local convenience methods state their
//! preconditions; every boundary that takes caller data returns a
//! [`Result`] carrying a [`MattenError`]. [`MattenError`] derives only
//! `Debug`: match it by variant, never by `==`. Its human-readable text is
//! produced by [`MattenError::to_string`].

use vstd::prelude::*;
use crate::text::{concat2, concat3, decimal_text, shape_text, shape_text_spec};

verus! {

/// The outside path type carried by [`MattenError::Io`].
#[verifier::external_type_specification]
#[verifier::external_body]
pub struct ExPathBuf(std::path::PathBuf);

/// The outside I/O error type carried by [`MattenError::Io`].
#[verifier::external_type_specification]
#[verifier::external_body]
pub struct ExIoError(std::io::Error);

/// The external data format associated with a [`MattenError::Parse`].
#[derive(Debug, Clone, Copy, PartialEq, Eq, Structural)]
#[non_exhaustive]
pub enum DataFormat {
    /// JSON input.
    Json,
    /// CSV input.
    Csv,
}

/// The lower-case name of a data format.
pub open spec fn format_name(f: DataFormat) -> Seq<char> {
    match f {
        DataFormat::Json => "json"@,
        DataFormat::Csv => "csv"@,
    }
}

impl DataFormat {
    /// The lower-case name of the format: `"json"` or `"csv"`.
    pub fn to_string(&self) -> (r: String)
        ensures
            r@ == format_name(*self),
    {
        match self {
            DataFormat::Json => String::from_str("json"),
            DataFormat::Csv => String::from_str("csv"),
        }
    }
}

/// The single public error type.
#[derive(Debug)]
#[non_exhaustive]
pub enum MattenError {
    /// Invalid shape, length mismatch, or an argument that determines the
    /// produced tensor shape.
    Shape {
        /// The operation that failed.
        operation: &'static str,
        /// Human-readable detail.
        message: String,
    },
    /// Two shapes could not be broadcast together.
    Broadcast {
        /// Left operand shape.
        left: Vec<usize>,
        /// Right operand shape.
        right: Vec<usize>,
    },
    /// A shape product overflowed or an allocation exceeded a safety limit.
    Allocation {
        /// The requested element count (or the value that overflowed).
        requested_elements: usize,
        /// Human-readable detail.
        message: String,
    },
    /// A slice specification was invalid.
    Slice {
        /// The slice string as given, when there was one.
        input: Option<String>,
        /// Human-readable detail.
        message: String,
    },
    /// A data-format parse error.
    Parse {
        /// Which data format produced the error.
        format: DataFormat,
        /// Human-readable detail.
        message: String,
    },
    /// A file I/O error while loading data.
    Io {
        /// The path that was being read.
        path: std::path::PathBuf,
        /// The underlying I/O error.
        source: std::io::Error,
    },
    /// An argument was out of its documented domain.
    InvalidArgument {
        /// The operation that failed.
        operation: &'static str,
        /// The argument at fault.
        argument: &'static str,
        /// Human-readable detail.
        message: String,
    },
    /// An operation or input is not supported.
    Unsupported {
        /// The operation that is unsupported.
        operation: &'static str,
        /// Human-readable detail.
        message: String,
    },
}

/// What a [`MattenError`] carries, as plain values: the variant and its
/// fields, with each string taken by its characters. The I/O variant carries
/// platform values and is seen by its variant alone.
pub enum ErrorView {
    /// See [`MattenError::Shape`].
    Shape { operation: Seq<char>, message: Seq<char> },
    /// See [`MattenError::Broadcast`].
    Broadcast { left: Seq<usize>, right: Seq<usize> },
    /// See [`MattenError::Allocation`].
    Allocation { requested_elements: nat, message: Seq<char> },
    /// See [`MattenError::Slice`].
    Slice { input: Option<Seq<char>>, message: Seq<char> },
    /// See [`MattenError::Parse`].
    Parse { format: DataFormat, message: Seq<char> },
    /// See [`MattenError::Io`].
    Io,
    /// See [`MattenError::InvalidArgument`].
    InvalidArgument { operation: Seq<char>, argument: Seq<char>, message: Seq<char> },
    /// See [`MattenError::Unsupported`].
    Unsupported { operation: Seq<char>, message: Seq<char> },
}

impl View for MattenError {
    type V = ErrorView;

    open spec fn view(&self) -> ErrorView {
        match self {
            MattenError::Shape { operation, message } => ErrorView::Shape {
                operation: operation@,
                message: message@,
            },
            MattenError::Broadcast { left, right } => ErrorView::Broadcast {
                left: left@,
                right: right@,
            },
            MattenError::Allocation { requested_elements, message } => ErrorView::Allocation {
                requested_elements: *requested_elements as nat,
                message: message@,
            },
            MattenError::Slice { input, message } => ErrorView::Slice {
                input: match input {
                    Some(spec) => Some(spec@),
                    None => None,
                },
                message: message@,
            },
            MattenError::Parse { format, message } => ErrorView::Parse {
                format: *format,
                message: message@,
            },
            MattenError::Io { .. } => ErrorView::Io,
            MattenError::InvalidArgument { operation, argument, message } =>
                ErrorView::InvalidArgument {
                operation: operation@,
                argument: argument@,
                message: message@,
            },
            MattenError::Unsupported { operation, message } => ErrorView::Unsupported {
                operation: operation@,
                message: message@,
            },
        }
    }
}

/// Renders a path for a message (`Path::display`).
#[verifier::external_body]
fn path_text(path: &std::path::PathBuf) -> String {
    path.display().to_string()
}

/// Renders an I/O error for a message (its `Display`).
#[verifier::external_body]
fn io_error_text(e: &std::io::Error) -> String {
    e.to_string()
}

/// What `Debug` makes of a string: the text quoted, with special
/// characters escaped.
pub uninterp spec fn str_debug_text(s: Seq<char>) -> Seq<char>;

/// Renders a string the way `{:?}` does.
///
/// Calls `<str as Debug>::fmt` through `format!`. Claimed: the result is
/// `str_debug_text` of the characters, a function of them alone.
#[verifier::external_body]
fn debug_text(s: &str) -> (r: String)
    ensures
        r@ == str_debug_text(s@),
{
    format!("{s:?}")
}

/// The text of a [`MattenError::Broadcast`] error.
pub open spec fn broadcast_error_text(left: Seq<usize>, right: Seq<usize>) -> Seq<char> {
    "matten broadcast error: shapes "@ + shape_text_spec(left) + " and "@ + shape_text_spec(right)
        + " are not compatible"@
}

/// The text of a [`MattenError::Allocation`] error.
pub open spec fn allocation_error_text(requested: usize, message: Seq<char>) -> Seq<char> {
    "matten allocation error: "@ + message + " (requested "@ + decimal_text(requested as nat)
        + " elements)"@
}

/// The text of a [`MattenError::Slice`] error.
pub open spec fn slice_error_text(input: Option<Seq<char>>, message: Seq<char>) -> Seq<char> {
    match input {
        Some(spec) => "matten slice error for "@ + str_debug_text(spec) + ": "@ + message,
        None => "matten slice error: "@ + message,
    }
}

/// The text of a [`MattenError::InvalidArgument`] error.
pub open spec fn invalid_argument_error_text(
    operation: Seq<char>,
    argument: Seq<char>,
    message: Seq<char>,
) -> Seq<char> {
    "matten invalid argument error in "@ + operation + ": "@ + argument + ": "@ + message
}

/// The text of a [`MattenError::Unsupported`] error.
pub open spec fn unsupported_error_text(operation: Seq<char>, message: Seq<char>) -> Seq<char> {
    "matten unsupported error in "@ + operation + ": "@ + message
}

/// The text of a [`MattenError::Parse`] error.
pub open spec fn parse_error_text(format: DataFormat, message: Seq<char>) -> Seq<char> {
    "matten "@ + format_name(format) + " parse error: "@ + message
}

/// The text of a [`MattenError::Shape`] error.
pub open spec fn shape_error_text(operation: Seq<char>, message: Seq<char>) -> Seq<char> {
    "matten shape error in "@ + operation + ": "@ + message
}

/// `text` is the human-readable text of `e`: exact for every variant but
/// [`MattenError::Io`], whose path and cause are rendered by the platform;
/// for it only the leading words are fixed.
pub open spec fn error_text_fits(e: MattenError, text: Seq<char>) -> bool {
    match e {
        MattenError::Shape { operation, message } => text == shape_error_text(
            operation@,
            message@,
        ),
        MattenError::Broadcast { left, right } => text == broadcast_error_text(left@, right@),
        MattenError::Allocation { requested_elements, message } => text == allocation_error_text(
            requested_elements,
            message@,
        ),
        MattenError::Slice { input, message } => text == slice_error_text(
            match input {
                Some(spec) => Some(spec@),
                None => None,
            },
            message@,
        ),
        MattenError::Parse { format, message } => text == parse_error_text(format, message@),
        MattenError::Io { .. } => text.take(20) == "matten io error for "@,
        MattenError::InvalidArgument { operation, argument, message } => text
            == invalid_argument_error_text(operation@, argument@, message@),
        MattenError::Unsupported { operation, message } => text == unsupported_error_text(
            operation@,
            message@,
        ),
    }
}

impl MattenError {
    /// The human-readable text of this error, in the form
    /// `matten <category> error ...: <detail>`.
    pub fn to_string(&self) -> (r: String)
        ensures
            error_text_fits(*self, r@),
    {
        match self {
            MattenError::Shape { operation, message } => {
                let mut r = concat3("matten shape error in ", operation, ": ");
                r.append(message.as_str());
                r
            },
            MattenError::Broadcast { left, right } => {
                let mut r = String::from_str("matten broadcast error: shapes ");
                let l = shape_text(left.as_slice());
                r.append(l.as_str());
                r.append(" and ");
                let rt = shape_text(right.as_slice());
                r.append(rt.as_str());
                r.append(" are not compatible");
                r
            },
            MattenError::Allocation { requested_elements, message } => {
                let mut r = concat2("matten allocation error: ", message.as_str());
                r.append(" (requested ");
                let n = crate::text::decimal(*requested_elements);
                r.append(n.as_str());
                r.append(" elements)");
                r
            },
            MattenError::Slice { input, message } => {
                match input {
                    Some(spec) => {
                        let mut r = String::from_str("matten slice error for ");
                        r.append(debug_text(spec.as_str()).as_str());
                        r.append(": ");
                        r.append(message.as_str());
                        r
                    },
                    None => concat2("matten slice error: ", message.as_str()),
                }
            },
            MattenError::Parse { format, message } => {
                let mut r = String::from_str("matten ");
                let name = format.to_string();
                r.append(name.as_str());
                r.append(" parse error: ");
                r.append(message.as_str());
                r
            },
            MattenError::Io { path, source } => {
                let mut r = String::from_str("matten io error for ");
                let p = path_text(path);
                r.append(p.as_str());
                r.append(": ");
                let s = io_error_text(source);
                r.append(s.as_str());
                proof {
                    reveal_strlit("matten io error for ");
                    assert(r@.take(20) =~= "matten io error for "@);
                }
                r
            },
            MattenError::InvalidArgument { operation, argument, message } => {
                let mut r = concat3("matten invalid argument error in ", operation, ": ");
                r.append(argument);
                r.append(": ");
                r.append(message.as_str());
                r
            },
            MattenError::Unsupported { operation, message } => {
                let mut r = concat3("matten unsupported error in ", operation, ": ");
                r.append(message.as_str());
                r
            },
        }
    }
}

} // verus!
