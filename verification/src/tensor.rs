//! The primary container, [`Tensor`].
//!
//! A tensor is a dense, row-major, owned multidimensional array. Its model is
//! a pair: the shape [`Tensor::dims`] and the flat row-major element
//! sequence [`Tensor::elems`], whose length is always the product of the
//! shape. The element type is a parameter; every layout operation copies
//! elements without looking at them.

use vstd::prelude::*;
use crate::broadcast::shape_to_vec;
use crate::error::{ErrorView, MattenError};
use crate::limits::{shape_limit_error, shape_within_limits, MattenLimits, MAX_ELEMENTS};
use crate::shape::{
    coord_to_flat, flat_index, in_bounds, shape_product, shape_validation_error, valid_shape,
    validate_shape,
};
use crate::text::{concat2, decimal, decimal_text, shape_text, shape_text_spec};

verus! {

/// A dense, row-major, owned multidimensional array.
///
/// Fields are private. A scalar has shape `[]` and exactly one element.
#[derive(Debug, PartialEq)]
pub struct Tensor<T> {
    data: Vec<T>,
    shape: Vec<usize>,
}

/// A sequence holding `value` `n` times.
pub open spec fn filled<T>(value: T, n: nat) -> Seq<T> {
    Seq::new(n, |i: int| value)
}

/// The row-major concatenation of a list of rows.
pub open spec fn rows_flat<T>(rows: Seq<Vec<T>>) -> Seq<T>
    decreases rows.len(),
{
    if rows.len() == 0 {
        Seq::empty()
    } else {
        rows_flat(rows.drop_last()) + rows.last()@
    }
}

/// Every row has `cols` elements.
pub open spec fn rows_rectangular<T>(rows: Seq<Vec<T>>, cols: nat) -> bool {
    forall|i: int| 0 <= i < rows.len() ==> #[trigger] rows[i]@.len() == cols
}

proof fn lemma_rows_flat_len<T>(rows: Seq<Vec<T>>, cols: nat)
    requires
        rows_rectangular(rows, cols),
    ensures
        rows_flat(rows).len() == rows.len() * cols,
    decreases rows.len(),
{
    if rows.len() > 0 {
        let init = rows.drop_last();
        assert(rows_rectangular(init, cols)) by {
            assert forall|i: int| 0 <= i < init.len() implies #[trigger] init[i]@.len() == cols by {
                assert(rows[i]@.len() == cols);
            }
        }
        lemma_rows_flat_len(init, cols);
        assert(rows[rows.len() - 1]@.len() == cols);
        assert((init.len() * cols) + cols == (init.len() + 1) * cols) by (nonlinear_arith);
    }
}

impl<T> Tensor<T> {
    #[verifier::type_invariant]
    spec fn wf(self) -> bool {
        self.data@.len() == shape_product(self.shape@)
    }

    /// The shape (dimension lengths).
    pub closed spec fn dims(&self) -> Seq<usize> {
        self.shape@
    }

    /// The flat row-major elements.
    pub closed spec fn elems(&self) -> Seq<T> {
        self.data@
    }

    /// Assembles a tensor from row-major data and a shape whose product is
    /// the data length.
    pub fn from_parts_checked(data: Vec<T>, shape: Vec<usize>) -> (r: Self)
        requires
            data@.len() == shape_product(shape@),
        ensures
            r.dims() == shape@,
            r.elems() == data@,
    {
        Tensor { data, shape }
    }

    /// The shape as a slice of dimension lengths.
    pub fn shape(&self) -> (r: &[usize])
        ensures
            r@ == self.dims(),
            self.elems().len() == shape_product(self.dims()),
    {
        proof {
            use_type_invariant(self);
        }
        self.shape.as_slice()
    }

    /// The rank (number of dimensions).
    pub fn ndim(&self) -> (r: usize)
        ensures
            r == self.dims().len(),
    {
        self.shape.len()
    }

    /// The logical element count: the product of the shape.
    pub fn len(&self) -> (r: usize)
        ensures
            r == self.elems().len(),
            r as nat == shape_product(self.dims()),
    {
        proof {
            use_type_invariant(self);
        }
        self.data.len()
    }

    /// `true` when the tensor holds no elements (some dimension is zero).
    /// A scalar is never empty.
    pub fn is_empty(&self) -> (r: bool)
        ensures
            r == (self.elems().len() == 0),
    {
        self.data.len() == 0
    }

    /// `true` for a rank-0 scalar.
    pub fn is_scalar(&self) -> (r: bool)
        ensures
            r == (self.dims().len() == 0),
    {
        self.shape.len() == 0
    }

    /// `true` for a rank-1 tensor.
    pub fn is_vector(&self) -> (r: bool)
        ensures
            r == (self.dims().len() == 1),
    {
        self.shape.len() == 1
    }

    /// `true` for a rank-2 tensor.
    pub fn is_matrix(&self) -> (r: bool)
        ensures
            r == (self.dims().len() == 2),
    {
        self.shape.len() == 2
    }

    /// The flat, row-major data as a slice.
    pub fn as_slice(&self) -> (r: &[T])
        ensures
            r@ == self.elems(),
            r@.len() == shape_product(self.dims()),
    {
        proof {
            use_type_invariant(self);
        }
        self.data.as_slice()
    }

    /// Consumes the tensor and returns the flat, row-major data.
    pub fn into_vec(self) -> (r: Vec<T>)
        ensures
            r@ == self.elems(),
    {
        self.data
    }
}

impl<T: Copy> Tensor<T> {
    /// Creates a tensor from row-major `data` and `shape`.
    ///
    /// The shape must pass [`validate_shape`] and the data length must
    /// equal its product; [`Tensor::try_new`] is the recoverable form.
    pub fn new(data: Vec<T>, shape: &[usize]) -> (r: Self)
        requires
            valid_shape(shape@),
            data@.len() == shape_product(shape@),
        ensures
            r.dims() == shape@,
            r.elems() == data@,
    {
        Tensor { data, shape: shape_to_vec(shape) }
    }

    /// Creates a tensor from row-major `data` and `shape`, returning an error
    /// instead of panicking: [`MattenError::Shape`] for a rank above the
    /// limit or a length mismatch, [`MattenError::Allocation`] for an
    /// oversized dimension or an overflowing product.
    pub fn try_new(data: Vec<T>, shape: &[usize]) -> (r: Result<Self, MattenError>)
        ensures
            r is Ok <==> valid_shape(shape@) && data@.len() == shape_product(shape@),
            r matches Ok(t) ==> t.dims() == shape@ && t.elems() == data@,
            r matches Err(e) ==> e@ == (if !valid_shape(shape@) {
                shape_validation_error(shape@, "try_new"@)
            } else {
                ErrorView::Shape {
                    operation: "try_new"@,
                    message: "data length "@ + decimal_text(data@.len()) + " does not match shape "@
                        + shape_text_spec(shape@) + ", which requires "@ + decimal_text(
                        shape_product(shape@),
                    ) + " elements"@,
                }
            }),
    {
        let expected = match validate_shape(shape, "try_new") {
            Ok(n) => n,
            Err(e) => return Err(e),
        };
        if data.len() != expected {
            let mut message = concat2("data length ", decimal(data.len()).as_str());
            message.append(" does not match shape ");
            message.append(shape_text(shape).as_str());
            message.append(", which requires ");
            message.append(decimal(expected).as_str());
            message.append(" elements");
            return Err(MattenError::Shape { operation: "try_new", message });
        }
        Ok(Tensor { data, shape: shape_to_vec(shape) })
    }

    /// Creates a rank-0 scalar tensor (shape `[]`, one element).
    pub fn scalar(value: T) -> (r: Self)
        ensures
            r.dims() == Seq::<usize>::empty(),
            r.elems() == seq![value],
    {
        let mut data: Vec<T> = Vec::new();
        data.push(value);
        proof {
            assert(data@ =~= seq![value]);
        }
        Tensor { data, shape: Vec::new() }
    }

    /// Creates a 1-D tensor from a flat vector; the shape is `[data.len()]`.
    pub fn from_vec(data: Vec<T>) -> (r: Self)
        requires
            data@.len() <= MAX_ELEMENTS,
        ensures
            r.dims() == seq![data@.len() as usize],
            r.elems() == data@,
    {
        let len = data.len();
        let mut shape: Vec<usize> = Vec::new();
        shape.push(len);
        proof {
            assert(shape@ =~= seq![len]);
            crate::shape::lemma_product_single(len);
        }
        Tensor { data, shape }
    }

    /// Creates a tensor of `shape` filled with `value`, checked against
    /// `limits`; `operation` names the caller in error messages. The errors
    /// are those of [`MattenLimits::check_shape`].
    pub fn try_filled_with_limits(
        shape: &[usize],
        value: T,
        limits: &MattenLimits,
        operation: &'static str,
    ) -> (r: Result<Self, MattenError>)
        ensures
            r is Ok <==> shape_within_limits(*limits, shape@),
            r matches Ok(t) ==> t.dims() == shape@ && t.elems() == filled(value, shape_product(shape@)),
            r matches Err(e) ==> e@ == shape_limit_error(*limits, shape@, operation@),
    {
        let len = match limits.check_shape(shape, operation) {
            Ok(n) => n,
            Err(e) => return Err(e),
        };
        let mut data: Vec<T> = Vec::new();
        let mut i: usize = 0;
        while i < len
            invariant
                i <= len,
                data@ == filled(value, i as nat),
            decreases len - i,
        {
            data.push(value);
            i = i + 1;
            proof {
                assert(data@ =~= filled(value, i as nat));
            }
        }
        Ok(Tensor { data, shape: shape_to_vec(shape) })
    }

    /// Creates a tensor filled with `value`, checked against explicit
    /// `limits`.
    pub fn try_full_with_limits(shape: &[usize], value: T, limits: &MattenLimits) -> (r: Result<
        Self,
        MattenError,
    >)
        ensures
            r is Ok <==> shape_within_limits(*limits, shape@),
            r matches Ok(t) ==> t.dims() == shape@ && t.elems() == filled(value, shape_product(shape@)),
            r matches Err(e) ==> e@ == shape_limit_error(*limits, shape@, "try_full"@),
    {
        Self::try_filled_with_limits(shape, value, limits, "try_full")
    }

    /// Creates a tensor filled with `value`, checked against the default
    /// limits.
    pub fn try_full(shape: &[usize], value: T) -> (r: Result<Self, MattenError>)
        ensures
            r is Ok <==> shape_within_limits(MattenLimits::default_spec(), shape@),
            r matches Ok(t) ==> t.dims() == shape@ && t.elems() == filled(value, shape_product(shape@)),
            r matches Err(e) ==> e@ == shape_limit_error(
                MattenLimits::default_spec(),
                shape@,
                "try_full"@,
            ),
    {
        let limits = MattenLimits::default();
        Self::try_filled_with_limits(shape, value, &limits, "try_full")
    }

    /// Creates a tensor filled with `value`; the shape must be within the
    /// default limits ([`Tensor::try_full`] is the recoverable form).
    pub fn full(shape: &[usize], value: T) -> (r: Self)
        requires
            shape_within_limits(MattenLimits::default_spec(), shape@),
        ensures
            r.dims() == shape@,
            r.elems() == filled(value, shape_product(shape@)),
    {
        match Self::try_full(shape, value) {
            Ok(t) => t,
            Err(_) => {
                proof {
                    assert(false);
                }
                Self::scalar(value)
            },
        }
    }

    /// Returns an owned copy of the flat, row-major data.
    pub fn to_vec(&self) -> (r: Vec<T>)
        ensures
            r@ == self.elems(),
    {
        let n = self.data.len();
        let mut v: Vec<T> = Vec::new();
        let mut i: usize = 0;
        while i < n
            invariant
                i <= n,
                n == self.data@.len(),
                v@ == self.data@.take(i as int),
            decreases n - i,
        {
            v.push(self.data[i]);
            i = i + 1;
            proof {
                assert(v@ =~= self.data@.take(i as int));
            }
        }
        proof {
            assert(self.data@.take(n as int) =~= self.data@);
        }
        v
    }

    /// The element at the multidimensional `coord`, or `None` if the rank
    /// differs or a component is out of bounds.
    pub fn get(&self, coord: &[usize]) -> (r: Option<T>)
        ensures
            r is Some <==> in_bounds(coord@, self.dims()),
            r matches Some(v) ==> v == self.elems()[flat_index(coord@, self.dims()) as int],
    {
        let _len = self.len();
        match coord_to_flat(coord, self.shape.as_slice()) {
            Some(f) => Some(self.data[f]),
            None => None,
        }
    }

    /// The element at flat row-major `index`, or `None` if out of bounds.
    pub fn get_flat(&self, index: usize) -> (r: Option<T>)
        ensures
            r is Some <==> index < self.elems().len(),
            r matches Some(v) ==> v == self.elems()[index as int],
    {
        if index < self.data.len() {
            Some(self.data[index])
        } else {
            None
        }
    }

    /// A mutable reference to the element at flat row-major `index`, or
    /// `None` if out of bounds.
    pub fn get_flat_mut(&mut self, index: usize) -> (r: Option<&mut T>)
        ensures
            r is Some <==> index < old(self).elems().len(),
            final(self).dims() == old(self).dims(),
            r matches Some(x) ==> *x == old(self).elems()[index as int] && final(self).elems()
                == old(self).elems().update(index as int, *final(x)),
            r is None ==> final(self).elems() == old(self).elems(),
    {
        proof {
            use_type_invariant(&*self);
        }
        if index < self.data.len() {
            Some(&mut self.data[index])
        } else {
            None
        }
    }

    /// A mutable reference to the element at the multidimensional `coord`,
    /// or `None` if the rank differs or a component is out of bounds.
    pub fn get_mut(&mut self, coord: &[usize]) -> (r: Option<&mut T>)
        ensures
            r is Some <==> in_bounds(coord@, old(self).dims()),
            final(self).dims() == old(self).dims(),
            r matches Some(x) ==> *x == old(self).elems()[flat_index(coord@, old(self).dims()) as int]
                && final(self).elems() == old(self).elems().update(
                flat_index(coord@, old(self).dims()) as int,
                *final(x),
            ),
            r is None ==> final(self).elems() == old(self).elems(),
    {
        proof {
            use_type_invariant(&*self);
        }
        let _len = self.data.len();
        match coord_to_flat(coord, self.shape.as_slice()) {
            Some(f) => Some(&mut self.data[f]),
            None => None,
        }
    }
}

/// `k` is the first row of `rows` that is empty or whose length differs
/// from `cols`.
pub open spec fn first_bad_row<T>(rows: Seq<Vec<T>>, cols: nat, k: int) -> bool {
    &&& 0 <= k < rows.len()
    &&& rows[k]@.len() == 0 || rows[k]@.len() != cols
    &&& forall|j: int| 0 <= j < k ==> #[trigger] rows[j]@.len() == cols && cols > 0
}

/// The error [`Tensor::try_from_rows`] gives for rows it refuses: an empty
/// list, else the first empty or ragged row.
pub open spec fn rows_error<T>(rows: Seq<Vec<T>>) -> ErrorView {
    if rows.len() == 0 {
        ErrorView::Shape {
            operation: "try_from_rows"@,
            message: "cannot build a tensor from an empty list of rows"@,
        }
    } else {
        let cols = rows[0]@.len();
        let k = choose|k: int| first_bad_row(rows, cols, k);
        let m = rows[k]@.len();
        if m == 0 {
            ErrorView::Shape {
                operation: "try_from_rows"@,
                message: "row "@ + decimal_text(k as nat)
                    + " is empty; zero-length rows are not supported"@,
            }
        } else {
            ErrorView::Shape {
                operation: "try_from_rows"@,
                message: "ragged rows: row 0 has "@ + decimal_text(cols) + " columns but row "@
                    + decimal_text(k as nat) + " has "@ + decimal_text(m),
            }
        }
    }
}

/// The first bad row is unique.
proof fn lemma_first_bad_row<T>(rows: Seq<Vec<T>>, cols: nat, k: int)
    requires
        first_bad_row(rows, cols, k),
    ensures
        (choose|c: int| first_bad_row(rows, cols, c)) == k,
{
    let c = choose|c: int| first_bad_row(rows, cols, c);
    assert(first_bad_row(rows, cols, c));
    if c < k {
        assert(rows[c]@.len() == cols && cols > 0);
    } else if c > k {
        assert(rows[k]@.len() == cols && cols > 0);
    }
}

impl<T: Copy> Tensor<T> {
    /// Creates a 2-D tensor from rectangular row data; the shape is
    /// `[rows, cols]`. An empty row list, a zero-length row, or ragged rows
    /// give [`MattenError::Shape`].
    pub fn try_from_rows(rows: Vec<Vec<T>>) -> (r: Result<Self, MattenError>)
        ensures
            r is Ok <==> rows@.len() > 0 && rows@[0]@.len() > 0 && rows_rectangular(
                rows@,
                rows@[0]@.len(),
            ),
            r matches Ok(t) ==> t.dims() == seq![rows@.len() as usize, rows@[0]@.len() as usize]
                && t.elems() == rows_flat(rows@),
            r matches Err(e) ==> e@ == rows_error(rows@),
    {
        let n = rows.len();
        if n == 0 {
            return Err(MattenError::Shape {
                operation: "try_from_rows",
                message: String::from_str("cannot build a tensor from an empty list of rows"),
            });
        }
        let cols = rows[0].len();
        let mut data: Vec<T> = Vec::new();
        let mut i: usize = 0;
        proof {
            assert(rows@.take(0) =~= Seq::<Vec<T>>::empty());
        }
        while i < n
            invariant
                i <= n,
                n == rows@.len(),
                cols == rows@[0]@.len(),
                rows_rectangular(rows@.take(i as int), cols as nat),
                cols > 0 || i == 0,
                data@ == rows_flat(rows@.take(i as int)),
            decreases n - i,
        {
            let row = &rows[i];
            let m = row.len();
            if m == 0 {
                let mut message = concat2("row ", decimal(i).as_str());
                message.append(" is empty; zero-length rows are not supported");
                proof {
                    if i > 0 {
                        assert(rows@.take(i as int)[0] == rows@[0]);
                    }
                    assert forall|j: int| 0 <= j < i implies #[trigger] rows@[j]@.len() == cols
                        && cols > 0 by {
                        assert(rows@.take(i as int)[j] == rows@[j]);
                    }
                    assert(first_bad_row(rows@, cols as nat, i as int));
                    lemma_first_bad_row(rows@, cols as nat, i as int);
                }
                return Err(MattenError::Shape { operation: "try_from_rows", message });
            }
            if m != cols {
                let mut message = concat2("ragged rows: row 0 has ", decimal(cols).as_str());
                message.append(" columns but row ");
                message.append(decimal(i).as_str());
                message.append(" has ");
                message.append(decimal(m).as_str());
                proof {
                    assert forall|j: int| 0 <= j < i implies #[trigger] rows@[j]@.len() == cols
                        && cols > 0 by {
                        assert(rows@.take(i as int)[j] == rows@[j]);
                    }
                    assert(first_bad_row(rows@, cols as nat, i as int));
                    lemma_first_bad_row(rows@, cols as nat, i as int);
                }
                return Err(MattenError::Shape { operation: "try_from_rows", message });
            }
            let mut j: usize = 0;
            let ghost before = data@;
            while j < m
                invariant
                    j <= m,
                    m == row@.len(),
                    data@ == before + row@.take(j as int),
                decreases m - j,
            {
                data.push(row[j]);
                j = j + 1;
                proof {
                    assert(data@ =~= before + row@.take(j as int));
                }
            }
            proof {
                let t = rows@.take(i + 1);
                assert(t.drop_last() =~= rows@.take(i as int));
                assert(row@.take(m as int) =~= row@);
                assert forall|k: int| 0 <= k < t.len() implies #[trigger] t[k]@.len() == cols by {
                    if k < i {
                        assert(rows@.take(i as int)[k] == t[k]);
                    }
                }
            }
            i = i + 1;
        }
        proof {
            assert(rows@.take(n as int) =~= rows@);
            lemma_rows_flat_len(rows@, cols as nat);
        }
        let mut shape: Vec<usize> = Vec::new();
        shape.push(n);
        shape.push(cols);
        proof {
            assert(shape@ =~= seq![n, cols]);
            assert(seq![n, cols].drop_last() =~= seq![n]);
            crate::shape::lemma_product_single(n);
        }
        Ok(Tensor { data, shape })
    }
}

impl<T: Copy> Clone for Tensor<T> {
    /// An independent copy with the same shape and elements.
    fn clone(&self) -> (r: Self)
        ensures
            r.dims() == self.dims(),
            r.elems() == self.elems(),
    {
        proof {
            use_type_invariant(self);
        }
        Tensor { data: self.to_vec(), shape: shape_to_vec(self.shape.as_slice()) }
    }
}

} // verus!
