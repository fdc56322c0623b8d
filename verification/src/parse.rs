//! The CSV boundary parser.
//!
//! Rectangular CSV is read into a tensor of shape `[rows, cols]`. Record
//! splitting is done by the `csv` crate; field values are produced by a
//! caller-supplied field parser. Empty input, a record without fields,
//! ragged records, a field the parser rejects, and CSV syntax errors are all
//! [`MattenError::Parse`] errors; this never panics.
//!
//! The size checks that file loaders apply before and after reading a file
//! are here too.

use vstd::prelude::*;
use crate::error::{error_text_fits, DataFormat, MattenError};
use crate::limits::{MAX_ELEMENTS, MAX_PARSE_BYTES};
use crate::shape::{prefixes_fit, shape_product, shape_validation_error};
use crate::tensor::Tensor;
use crate::text::{concat2, decimal, decimal_text, decimal_u64};

verus! {

/// What the `csv` crate makes of `input` when read without a header row and
/// with equal record lengths enforced: the records read (each a sequence of
/// fields) before the first error, and that error's text if one occurred.
pub uninterp spec fn csv_records_of(input: Seq<char>) -> (Seq<Seq<Seq<char>>>, Option<Seq<char>>);

/// The views of a list of records.
pub open spec fn records_view(rows: Seq<Vec<String>>) -> Seq<Seq<Seq<char>>> {
    Seq::new(rows.len(), |i: int| Seq::new(rows[i]@.len(), |j: int| rows[i]@[j]@))
}

/// The view of an optional error text.
pub open spec fn error_view(e: Option<String>) -> Option<Seq<char>> {
    match e {
        Some(s) => Some(s@),
        None => None,
    }
}

/// Splits `input` into CSV records with the `csv` crate (no header row,
/// equal record lengths enforced).
///
/// Calls `csv::ReaderBuilder::new().has_headers(false).flexible(false)
/// .from_reader(..).records()`. Claimed: the records read before the first
/// error, field by field, and the error's `Display` text, are
/// `csv_records_of(input)`, a function of the input alone.
#[verifier::external_body]
fn read_csv_records(input: &str) -> (r: (Vec<Vec<String>>, Option<String>))
    ensures
        (records_view(r.0@), error_view(r.1)) == csv_records_of(input@),
{
    let mut reader = csv::ReaderBuilder::new().has_headers(false).flexible(false).from_reader(
        input.as_bytes(),
    );
    let mut rows: Vec<Vec<String>> = Vec::new();
    for result in reader.records() {
        match result {
            Ok(record) => rows.push(record.iter().map(|f| f.to_string()).collect()),
            Err(e) => return (rows, Some(e.to_string())),
        }
    }
    (rows, None)
}

/// A CSV parse error carrying `message`.
pub fn parse_err(message: String) -> (e: MattenError)
    ensures
        e matches MattenError::Parse { format, message: m } && format == DataFormat::Csv && m
            == message,
{
    MattenError::Parse { format: DataFormat::Csv, message }
}

/// The records form a non-empty rectangle with at least one column.
pub open spec fn csv_rectangular(recs: Seq<Seq<Seq<char>>>) -> bool {
    &&& recs.len() > 0
    &&& recs[0].len() > 0
    &&& forall|i: int| 0 <= i < recs.len() ==> #[trigger] recs[i].len() == recs[0].len()
}

/// `parse_field` may turn the field text `text`, found at row `i` and
/// column `j`, into `Ok(v)`.
pub open spec fn field_parsed<T, F: Fn(&str, usize, usize) -> Result<T, String>>(
    parse_field: F,
    text: Seq<char>,
    i: usize,
    j: usize,
    v: T,
) -> bool {
    exists|s: &str| #![trigger s@] s@ == text && parse_field.ensures((s, i, j), Ok(v))
}

/// `parse_field` may reject the field text `text` found at row `i` and
/// column `j`.
pub open spec fn field_rejected<T, F: Fn(&str, usize, usize) -> Result<T, String>>(
    parse_field: F,
    text: Seq<char>,
    i: usize,
    j: usize,
) -> bool {
    exists|s: &str, m: String|
        s@ == text && #[trigger] parse_field.ensures((s, i, j), Err(m))
}

/// `parse_field` accepts every field of the records.
pub open spec fn fields_accepted<T, F: Fn(&str, usize, usize) -> Result<T, String>>(
    parse_field: F,
    recs: Seq<Seq<Seq<char>>>,
) -> bool {
    forall|i: int, j: int|
        0 <= i < recs.len() && 0 <= j < recs[i].len() ==> !#[trigger] field_rejected(
            parse_field,
            recs[i][j],
            i as usize,
            j as usize,
        )
}

/// `parse_field` may accept the field at row `i`, column `j` of `recs`.
pub open spec fn field_ok<T, F: Fn(&str, usize, usize) -> Result<T, String>>(
    parse_field: F,
    recs: Seq<Seq<Seq<char>>>,
    i: int,
    j: int,
) -> bool {
    exists|v: T| #[trigger] field_parsed(parse_field, recs[i][j], i as usize, j as usize, v)
}

/// Every field before row `i`, column `j` in reading order (all fields of
/// the first `i` records, then the first `j` of record `i`) was accepted.
pub open spec fn fields_ok_before<T, F: Fn(&str, usize, usize) -> Result<T, String>>(
    parse_field: F,
    recs: Seq<Seq<Seq<char>>>,
    i: int,
    j: int,
) -> bool {
    &&& forall|a: int, b: int|
        0 <= a < i && 0 <= b < recs[a].len() ==> #[trigger] field_ok(parse_field, recs, a, b)
    &&& forall|b: int| 0 <= b < j ==> #[trigger] field_ok(parse_field, recs, i, b)
}

/// The first `k` records have as many fields as the first one.
pub open spec fn rows_agree(recs: Seq<Seq<Seq<char>>>, k: int) -> bool {
    forall|i: int| 0 <= i < k ==> (#[trigger] recs[i]).len() == recs[0].len()
}

/// The message for record `row` having `found` fields where the first
/// record has `cols`.
pub open spec fn ragged_text(cols: nat, row: nat, found: nat) -> Seq<char> {
    "ragged CSV: row 0 has "@ + decimal_text(cols) + " columns but row "@ + decimal_text(row)
        + " has "@ + decimal_text(found)
}

/// `message` reports the first problem met in reading `recs` (followed by
/// the reader error `err`, if any) with `parse_field`, in reading order:
/// a first record without fields; a record of another length than the
/// first; a field that the parser rejects, with its text; the reader error;
/// no records at all; a row or column count above the element budget. Each
/// case holds with what must hold of everything read before it.
pub open spec fn csv_failure<T, F: Fn(&str, usize, usize) -> Result<T, String>>(
    parse_field: F,
    recs: Seq<Seq<Seq<char>>>,
    err: Option<Seq<char>>,
    message: Seq<char>,
) -> bool {
    ||| recs.len() > 0 && recs[0].len() == 0 && message == "CSV has no columns"@
    ||| exists|k: int|
        #![trigger recs[k]]
        1 <= k < recs.len() && recs[0].len() > 0 && rows_agree(recs, k) && recs[k].len()
            != recs[0].len() && fields_ok_before(parse_field, recs, k, 0) && message
            == ragged_text(recs[0].len(), k as nat, recs[k].len())
    ||| exists|i: int, j: int, s: &str, m: String|
        0 <= i < recs.len() && 0 <= j < recs[i].len() && recs[0].len() > 0 && rows_agree(
            recs,
            i + 1,
        ) && fields_ok_before(parse_field, recs, i, j) && s@ == recs[i][j]
            && #[trigger] parse_field.ensures((s, i as usize, j as usize), Err(m)) && message
            == m@
    ||| err matches Some(e) && rows_agree(recs, recs.len() as int) && (recs.len() == 0
        || recs[0].len() > 0) && fields_ok_before(parse_field, recs, recs.len() as int, 0)
        && message == "CSV parse error at row "@ + decimal_text(recs.len()) + ": "@ + e
    ||| err is None && recs.len() == 0 && message == "CSV input is empty"@
    ||| err is None && csv_rectangular(recs) && fields_ok_before(
        parse_field,
        recs,
        recs.len() as int,
        0,
    ) && (recs.len() > MAX_ELEMENTS || recs[0].len() > MAX_ELEMENTS) && exists|e: MattenError|
        e@ == shape_validation_error(seq![recs.len() as usize, recs[0].len() as usize], "try_new"@)
            && #[trigger] error_text_fits(e, message)
}

/// Builds a tensor of shape `[rows, cols]` from CSV records as the reader
/// gave them (`records`, read before the reader error `error`, if any).
/// Each field is handed to `parse_field` with its (zero-based) row and
/// column; an `Err` from it becomes a [`MattenError::Parse`] carrying its
/// text.
pub fn records_to_tensor<T: Copy, F: Fn(&str, usize, usize) -> Result<T, String>>(
    records: Vec<Vec<String>>,
    error: Option<String>,
    parse_field: F,
) -> (r: Result<Tensor<T>, MattenError>)
    requires
        forall|s: &str, i: usize, j: usize| parse_field.requires((s, i, j)),
    ensures
        r matches Err(e) ==> e matches MattenError::Parse { format, .. } && format
            == DataFormat::Csv,
        r matches Ok(t) ==> {
            let recs = records_view(records@);
            let c = recs[0].len() as int;
            &&& error_view(error) is None
            &&& csv_rectangular(recs)
            &&& t.dims() == seq![recs.len() as usize, recs[0].len() as usize]
            &&& t.elems().len() == recs.len() * recs[0].len()
            &&& forall|k: int|
                0 <= k < t.elems().len() ==> field_parsed(
                    parse_field,
                    recs[k / c][k % c],
                    (k / c) as usize,
                    (k % c) as usize,
                    #[trigger] t.elems()[k],
                )
        },
        r is Err ==> {
            let recs = records_view(records@);
            ||| error_view(error) is Some
            ||| !csv_rectangular(recs)
            ||| recs.len() > MAX_ELEMENTS
            ||| recs[0].len() > MAX_ELEMENTS
            ||| !fields_accepted(parse_field, recs)
        },
        r matches Err(MattenError::Parse { message, .. }) ==> csv_failure(
            parse_field,
            records_view(records@),
            error_view(error),
            message@,
        ),
        ({
            let recs = records_view(records@);
            &&& error_view(error) is None
            &&& csv_rectangular(recs)
            &&& recs.len() <= MAX_ELEMENTS
            &&& recs[0].len() <= MAX_ELEMENTS
            &&& fields_accepted(parse_field, recs)
        }) ==> r is Ok,
        records_view(records@).len() == 0 && error_view(error) is None ==> (r matches Err(
            MattenError::Parse { message, .. },
        ) && message@ == "CSV input is empty"@),
        records_view(records@).len() == 0 && error_view(error) is Some ==> (r matches Err(
            MattenError::Parse { message, .. },
        ) && message@ == "CSV parse error at row 0: "@ + error_view(error).unwrap()),
{
    let ghost recs = records_view(records@);
    let n = records.len();
    let mut data: Vec<T> = Vec::new();
    let mut cols: usize = 0;
    let mut row: usize = 0;
    while row < n
        invariant
            row <= n,
            n == records@.len(),
            recs == records_view(records@),
            forall|s: &str, i: usize, j: usize| parse_field.requires((s, i, j)),
            row > 0 ==> cols == recs[0].len() && cols > 0,
            forall|i: int| 0 <= i < row ==> #[trigger] recs[i].len() == recs[0].len(),
            fields_ok_before(parse_field, recs, row as int, 0),
            data@.len() == row * cols,
            forall|k: int|
                0 <= k < data@.len() ==> field_parsed(
                    parse_field,
                    recs[k / cols as int][k % cols as int],
                    (k / cols as int) as usize,
                    (k % cols as int) as usize,
                    #[trigger] data@[k],
                ),
        decreases n - row,
    {
        let record = &records[row];
        let row_cols = record.len();
        assert(recs[row as int].len() == row_cols);
        if row == 0 {
            if row_cols == 0 {
                let message = String::from_str("CSV has no columns");
                proof {
                    assert(csv_failure(parse_field, recs, error_view(error), message@));
                }
                return Err(parse_err(message));
            }
            cols = row_cols;
        } else if row_cols != cols {
            let mut message = concat2("ragged CSV: row 0 has ", decimal(cols).as_str());
            message.append(" columns but row ");
            message.append(decimal(row).as_str());
            message.append(" has ");
            message.append(decimal(row_cols).as_str());
            proof {
                assert(rows_agree(recs, row as int));
                assert(message@ == ragged_text(recs[0].len(), row as nat, recs[row as int].len()));
                assert(csv_failure(parse_field, recs, error_view(error), message@));
            }
            return Err(parse_err(message));
        }
        let mut col: usize = 0;
        assert(rows_agree(recs, row as int + 1));
        while col < row_cols
            invariant
                col <= row_cols,
                rows_agree(recs, row as int + 1),
                row < n,
                n == records@.len(),
                row_cols == records@[row as int]@.len(),
                row_cols == cols,
                cols > 0,
                cols == recs[0].len(),
                recs == records_view(records@),
                    forall|s: &str, i: usize, j: usize| parse_field.requires((s, i, j)),
                fields_ok_before(parse_field, recs, row as int, col as int),
                data@.len() == row * cols + col,
                forall|k: int|
                    0 <= k < data@.len() ==> field_parsed(
                        parse_field,
                        recs[k / cols as int][k % cols as int],
                        (k / cols as int) as usize,
                        (k % cols as int) as usize,
                        #[trigger] data@[k],
                    ),
            decreases row_cols - col,
        {
            let field = records[row][col].as_str();
            let v = parse_field(field, row, col);
            match v {
                Ok(x) => {
                    let ghost old_data = data@;
                    data.push(x);
                    proof {
                        assert(field@ == recs[row as int][col as int]);
                        let k0 = row * cols + col;
                        vstd::arithmetic::div_mod::lemma_fundamental_div_mod_converse(
                            k0,
                            cols as int,
                            row as int,
                            col as int,
                        );
                        assert(field_parsed(parse_field, recs[row as int][col as int], row, col, x));
                        assert(field_ok(parse_field, recs, row as int, col as int));
                        assert(fields_ok_before(parse_field, recs, row as int, col + 1));
                        assert forall|k: int| 0 <= k < data@.len() implies field_parsed(
                            parse_field,
                            recs[k / cols as int][k % cols as int],
                            (k / cols as int) as usize,
                            (k % cols as int) as usize,
                            #[trigger] data@[k],
                        ) by {
                            if k < old_data.len() {
                                assert(data@[k] == old_data[k]);
                            }
                        }
                    }
                },
                Err(message) => {
                    proof {
                        assert(field@ == recs[row as int][col as int]);
                        assert(field_rejected(
                            parse_field,
                            recs[row as int][col as int],
                            (row as int) as usize,
                            (col as int) as usize,
                        ));
                        assert(!fields_accepted(parse_field, recs));
                        assert(rows_agree(recs, row as int + 1));
                        assert(parse_field.ensures(
                            (field, (row as int) as usize, (col as int) as usize),
                            Err(message),
                        ));
                        assert(csv_failure(parse_field, recs, error_view(error), message@));
                    }
                    return Err(parse_err(message));
                },
            }
            col = col + 1;
        }
        proof {
            assert((row as nat) * (cols as nat) + (cols as nat) == ((row + 1) as nat) * (
            cols as nat)) by (nonlinear_arith);
            assert forall|a: int, b: int|
                0 <= a < row + 1 && 0 <= b < recs[a].len() implies #[trigger] field_ok(
                parse_field,
                recs,
                a,
                b,
            ) by {
                if a == row as int {
                    assert(b < col);
                }
            }
        }
        row = row + 1;
    }
    match error {
        Some(e) => {
            let mut message = concat2("CSV parse error at row ", decimal(row).as_str());
            message.append(": ");
            message.append(e.as_str());
            proof {
                if row == 0 {
                    reveal_strlit("CSV parse error at row ");
                    reveal_strlit(": ");
                    reveal_strlit("CSV parse error at row 0: ");
                    assert(decimal_text(0) == seq!['0']);
                    assert(message@ =~= "CSV parse error at row 0: "@ + e@);
                }
            }
            return Err(parse_err(message));
        },
        None => {},
    }
    if row == 0 {
        return Err(parse_err(String::from_str("CSV input is empty")));
    }
    let mut shape: Vec<usize> = Vec::new();
    shape.push(row);
    shape.push(cols);
    proof {
        let sh = seq![row, cols];
        assert(shape@ =~= sh);
        assert(sh.drop_last() =~= seq![row]);
        crate::shape::lemma_product_single(row);
        assert(shape_product(sh) == row * cols);
        assert(sh.take(0) =~= Seq::<usize>::empty());
        assert(sh.take(1) =~= seq![row]);
        assert(sh.take(2) =~= sh);
        assert(prefixes_fit(sh)) by {
            assert forall|i: int| 0 <= i <= sh.len() implies #[trigger] shape_product(sh.take(i))
                <= usize::MAX by {
                if i == 0 {
                    assert(shape_product(sh.take(0)) == 1);
                } else if i == 1 {
                    assert(shape_product(sh.take(1)) == row);
                } else {
                    assert(shape_product(sh.take(2)) == data.len());
                }
            }
        }
        assert(recs.len() == row);
        assert(csv_rectangular(recs));
    }
    match Tensor::try_new(data, shape.as_slice()) {
        Ok(t) => Ok(t),
        Err(e) => {
            let message = e.to_string();
            proof {
                assert(csv_failure(parse_field, recs, error_view(error), message@));
            }
            Err(parse_err(message))
        },
    }
}

/// Parses CSV text into a tensor of shape `[rows, cols]`. Each field is
/// handed to `parse_field` with its (zero-based) row and column; an `Err`
/// from it becomes a [`MattenError::Parse`] carrying its text.
pub fn from_csv_with<T: Copy, F: Fn(&str, usize, usize) -> Result<T, String>>(
    input: &str,
    parse_field: F,
) -> (r: Result<Tensor<T>, MattenError>)
    requires
        forall|s: &str, i: usize, j: usize| parse_field.requires((s, i, j)),
    ensures
        r matches Err(e) ==> e matches MattenError::Parse { format, .. } && format
            == DataFormat::Csv,
        r matches Ok(t) ==> {
            let recs = csv_records_of(input@).0;
            let c = recs[0].len() as int;
            &&& csv_records_of(input@).1 is None
            &&& csv_rectangular(recs)
            &&& t.dims() == seq![recs.len() as usize, recs[0].len() as usize]
            &&& t.elems().len() == recs.len() * recs[0].len()
            &&& forall|k: int|
                0 <= k < t.elems().len() ==> field_parsed(
                    parse_field,
                    recs[k / c][k % c],
                    (k / c) as usize,
                    (k % c) as usize,
                    #[trigger] t.elems()[k],
                )
        },
        r is Err ==> {
            let recs = csv_records_of(input@).0;
            ||| csv_records_of(input@).1 is Some
            ||| !csv_rectangular(recs)
            ||| recs.len() > MAX_ELEMENTS
            ||| recs[0].len() > MAX_ELEMENTS
            ||| !fields_accepted(parse_field, recs)
        },
        r matches Err(MattenError::Parse { message, .. }) ==> csv_failure(
            parse_field,
            csv_records_of(input@).0,
            csv_records_of(input@).1,
            message@,
        ),
        ({
            let recs = csv_records_of(input@).0;
            &&& csv_records_of(input@).1 is None
            &&& csv_rectangular(recs)
            &&& recs.len() <= MAX_ELEMENTS
            &&& recs[0].len() <= MAX_ELEMENTS
            &&& fields_accepted(parse_field, recs)
        }) ==> r is Ok,
        csv_records_of(input@).0.len() == 0 && csv_records_of(input@).1 is None ==> (r matches Err(
            MattenError::Parse { message, .. },
        ) && message@ == "CSV input is empty"@),
        csv_records_of(input@).0.len() == 0 && csv_records_of(input@).1 is Some ==> (r matches Err(
            MattenError::Parse { message, .. },
        ) && message@ == "CSV parse error at row 0: "@ + csv_records_of(input@).1.unwrap()),
{
    let (records, error) = read_csv_records(input);
    records_to_tensor(records, error, parse_field)
}

/// The text of the error for a file whose size, as its metadata reports
/// it, is above the parse limit.
pub open spec fn file_too_large_text(len: u64) -> Seq<char> {
    "file is "@ + decimal_text(len as nat) + " bytes, exceeding the maximum parse size of "@
        + decimal_text(MAX_PARSE_BYTES as nat) + " bytes (MattenLimits::max_parse_bytes)"@
}

/// The text of the error for content read past the parse limit.
pub open spec fn content_too_large_text() -> Seq<char> {
    "file exceeds the maximum parse size of "@ + decimal_text(MAX_PARSE_BYTES as nat)
        + " bytes (MattenLimits::max_parse_bytes)"@
}

/// Checks a file's size, as its metadata reports it, against the parse
/// limit before the file is read.
pub fn check_file_size(len: u64, format: DataFormat) -> (r: Result<(), MattenError>)
    ensures
        r is Ok <==> len <= MAX_PARSE_BYTES,
        r matches Err(e) ==> (e matches MattenError::Parse { format: f, message } && f == format
            && message@ == file_too_large_text(len)),
{
    if len > MAX_PARSE_BYTES as u64 {
        let mut message = concat2("file is ", decimal_u64(len).as_str());
        message.append(" bytes, exceeding the maximum parse size of ");
        message.append(decimal(MAX_PARSE_BYTES).as_str());
        message.append(" bytes (MattenLimits::max_parse_bytes)");
        return Err(MattenError::Parse { format, message });
    }
    Ok(())
}

/// Checks the byte length of content actually read (reads are capped one
/// byte past the limit) against the parse limit.
pub fn check_content_size(len: usize, format: DataFormat) -> (r: Result<(), MattenError>)
    ensures
        r is Ok <==> len <= MAX_PARSE_BYTES,
        r matches Err(e) ==> (e matches MattenError::Parse { format: f, message } && f == format
            && message@ == content_too_large_text()),
{
    if len > MAX_PARSE_BYTES {
        let mut message = concat2(
            "file exceeds the maximum parse size of ",
            decimal(MAX_PARSE_BYTES).as_str(),
        );
        message.append(" bytes (MattenLimits::max_parse_bytes)");
        return Err(MattenError::Parse { format, message });
    }
    Ok(())
}

} // verus!
