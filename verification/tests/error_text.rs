//! The text of every error variant, and of failed arithmetic.

use matten::broadcast::arithmetic_failure_text;
use matten::{DataFormat, MattenError};

#[test]
fn text_of_each_variant() {
    let shape = MattenError::Shape { operation: "reshape", message: "bad".to_string() };
    assert_eq!(shape.to_string(), "matten shape error in reshape: bad");

    let broadcast = MattenError::Broadcast { left: vec![2, 3], right: vec![4] };
    assert_eq!(
        broadcast.to_string(),
        "matten broadcast error: shapes [2, 3] and [4] are not compatible"
    );

    let alloc = MattenError::Allocation { requested_elements: 12, message: "too big".to_string() };
    assert_eq!(alloc.to_string(), "matten allocation error: too big (requested 12 elements)");

    let slice_str = MattenError::Slice { input: Some("0:\"2".to_string()), message: "m".to_string() };
    assert_eq!(slice_str.to_string(), "matten slice error for \"0:\\\"2\": m");

    let slice = MattenError::Slice { input: None, message: "m".to_string() };
    assert_eq!(slice.to_string(), "matten slice error: m");

    let parse = MattenError::Parse { format: DataFormat::Json, message: "eof".to_string() };
    assert_eq!(parse.to_string(), "matten json parse error: eof");

    let invalid = MattenError::InvalidArgument {
        operation: "stack",
        argument: "tensors",
        message: "empty".to_string(),
    };
    assert_eq!(invalid.to_string(), "matten invalid argument error in stack: tensors: empty");

    let unsupported = MattenError::Unsupported { operation: "dot", message: "no".to_string() };
    assert_eq!(unsupported.to_string(), "matten unsupported error in dot: no");
}

#[test]
fn text_of_an_io_error_names_the_path() {
    let e = MattenError::Io {
        path: std::path::PathBuf::from("data.csv"),
        source: std::io::Error::new(std::io::ErrorKind::NotFound, "missing"),
    };
    assert_eq!(e.to_string(), "matten io error for data.csv: missing");
}

#[test]
fn failed_arithmetic_names_the_operation_for_broadcast_errors() {
    let e = MattenError::Broadcast { left: vec![2], right: vec![3] };
    assert_eq!(
        arithmetic_failure_text("add", &e),
        "matten broadcast error in add: shapes [2] and [3] are not compatible"
    );
    let other = MattenError::Allocation { requested_elements: 5, message: "over".to_string() };
    assert_eq!(arithmetic_failure_text("mul", &other), other.to_string());
}
