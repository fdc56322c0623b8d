//! The slice text grammar and the messages of slicing errors.

use matten::slice::{parse_slice_str, AxisSpec, SignedIndex};
use matten::{MattenError, Tensor};

fn message(e: &MattenError) -> String {
    match e {
        MattenError::Slice { message, .. } => message.clone(),
        other => panic!("expected a slice error, got {other:?}"),
    }
}

#[test]
fn grammar_of_each_axis_form() {
    let plain = |m: usize| SignedIndex { negative: false, magnitude: m };
    let back = |m: usize| SignedIndex { negative: true, magnitude: m };
    assert_eq!(parse_slice_str("3").unwrap(), vec![AxisSpec::Index(plain(3))]);
    assert_eq!(parse_slice_str(" -2 ").unwrap(), vec![AxisSpec::Index(back(2))]);
    assert_eq!(parse_slice_str(":").unwrap(), vec![AxisSpec::All]);
    assert_eq!(
        parse_slice_str("1:-1, ::2, 4:").unwrap(),
        vec![
            AxisSpec::Range { start: Some(plain(1)), end: Some(back(1)), step: None },
            AxisSpec::Range { start: None, end: None, step: Some(2) },
            AxisSpec::Range { start: Some(plain(4)), end: None, step: None },
        ]
    );
    assert_eq!(
        parse_slice_str(" 0 : 6 : 3 ").unwrap(),
        vec![AxisSpec::Range { start: Some(plain(0)), end: Some(plain(6)), step: Some(3) }]
    );
}

#[test]
fn grammar_rejections_carry_the_text() {
    for bad in ["", ",", "0,", "1 2", "--1", "+1", "0:1:", "::", "1:2:3:4", "0:1:-1", "é", "18446744073709551616"] {
        let e = parse_slice_str(bad).unwrap_err();
        match e {
            MattenError::Slice { input: Some(text), message } => {
                assert_eq!(text, bad);
                assert_eq!(
                    message,
                    "expected ':', an index, or a range start:end or start:end:step for every comma-separated axis"
                );
            }
            other => panic!("expected a slice error carrying the text for {bad:?}, got {other:?}"),
        }
    }
}

#[test]
fn an_overlong_text_is_refused_with_its_length() {
    let long = "0,".repeat(300);
    let e = parse_slice_str(&long).unwrap_err();
    assert_eq!(
        message(&e),
        "slice specification is 600 bytes, exceeding the maximum length of 512 bytes"
    );
}

#[test]
fn stepped_and_whole_axis_slices() {
    let t = Tensor::new((0..12).map(|x| x as f64).collect(), &[3, 4]);
    let s = t.slice_str("::2, 1::2").unwrap();
    assert_eq!(s.shape(), &[2, 2]);
    assert_eq!(s.as_slice(), &[1.0, 3.0, 9.0, 11.0]);
    let stepped = t.slice_str("0, 0:4:3").unwrap();
    assert_eq!(stepped.as_slice(), &[0.0, 3.0]);
    let empty = t.slice_str("1:1, :").unwrap();
    assert_eq!(empty.shape(), &[0, 4]);
}

#[test]
fn builder_forms_match_text_forms() {
    let t = Tensor::new((0..12).map(|x| x as f64).collect(), &[3, 4]);
    assert_eq!(t.slice().range_from(1).range_to(2).build().unwrap(), t.slice_str("1:, :2").unwrap());
    assert_eq!(t.slice().all().index(3).build().unwrap(), t.slice_str(":, -1").unwrap());
}

#[test]
fn messages_of_resolution_errors() {
    let t = Tensor::new(vec![1.0, 2.0, 3.0, 4.0, 5.0, 6.0], &[2, 3]);
    assert_eq!(
        message(&t.slice_str("0").unwrap_err()),
        "slice has 1 axis specifications but the tensor has rank 2"
    );
    assert_eq!(
        message(&t.slice_str("2, :").unwrap_err()),
        "index 2 is out of bounds for axis 0 with size 2"
    );
    assert_eq!(
        message(&t.slice_str(":, 0:3:0").unwrap_err()),
        "step must be greater than zero for axis 1"
    );
    assert_eq!(
        message(&t.slice_str(":, 0:4").unwrap_err()),
        "range end 4 exceeds size 3 of axis 1"
    );
    assert_eq!(
        message(&t.slice_str(":, -5:").unwrap_err()),
        "range start -5 (resolves to -2) is out of range for axis 1 with size 3 in slice_str"
    );
    assert_eq!(
        message(&t.slice_str("-3, :").unwrap_err()),
        "index -3 (resolves to -1) is out of range for axis 0 with size 2 in slice_str"
    );
    assert_eq!(
        message(&t.slice().index(0).range(2..1).build().unwrap_err()),
        "range start 2 > end 1 for axis 1 in slice"
    );
    assert_eq!(
        message(&t.slice_str(":, -1:-2").unwrap_err()),
        "range start -1 (resolves to 2) > end -2 (resolves to 1) for axis 1 in slice_str"
    );
}

#[test]
fn a_scalar_is_sliced_by_no_axes() {
    let s = Tensor::scalar(5.0);
    assert_eq!(s.slice().build().unwrap(), s);
    assert!(s.slice_str("").is_err());
}
