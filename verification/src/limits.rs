//! Resource safety limits.
//!
//! [`MattenLimits`] bounds allocations sized by a value the caller supplied as
//! data: a shape passed to a constructor, a count passed to `repeat`/`tile`,
//! a document handed to a parser. It does not bound ordinary operations on
//! data that is already validated and in memory.

use vstd::prelude::*;

use crate::error::{ErrorView, MattenError};
use crate::shape::{
    checked_shape_len, dims_within, effective_bound, prefixes_fit, rank_error, shape_count_error,
    shape_product,
};
use crate::text::{concat2, decimal, decimal_text, shape_text};

verus! {

/// Maximum number of dimensions (axes) a tensor may have.
pub const MAX_NDIM: usize = 8;

/// Maximum number of elements allowed by construction helpers (about one
/// million, 8 MiB of `f64`).
pub const MAX_ELEMENTS: usize = 1048576;

/// The largest single-dimension size any shape check may ever enforce,
/// whatever the caller's budget: `isize::MAX / 8`, the largest element count
/// of 8-byte elements that any allocation can satisfy.
pub const MAX_REPRESENTABLE_DIMENSION: usize = usize::MAX / 16;

/// Maximum byte length accepted by the JSON and CSV parsers (128 MiB).
pub const MAX_PARSE_BYTES: usize = 134217728;

/// Maximum byte length of a slice text.
pub const MAX_SLICE_STR_BYTES: usize = 512;

/// Resource safety limits for shape calculations and allocations.
///
/// The default values are generous for typical workloads but prevent
/// pathological resource exhaustion from malformed or adversarial inputs.
#[derive(Debug, Clone, Copy, PartialEq, Eq, Structural)]
pub struct MattenLimits {
    /// Maximum number of axes (rank). Default: 8.
    pub max_dimensions: usize,
    /// Maximum number of elements a caller-supplied shape may produce.
    /// Default: 1 048 576.
    pub max_elements: usize,
    /// Maximum number of bytes accepted by the file loaders and string
    /// parsers. Default: 128 MiB.
    pub max_parse_bytes: usize,
}

/// The default limit set.
pub open spec fn default_limits() -> MattenLimits {
    MattenLimits {
        max_dimensions: MAX_NDIM,
        max_elements: MAX_ELEMENTS,
        max_parse_bytes: MAX_PARSE_BYTES,
    }
}

/// A shape accepted by [`MattenLimits::check_shape`] under `limits`.
pub open spec fn shape_within_limits(limits: MattenLimits, s: Seq<usize>) -> bool {
    &&& s.len() <= limits.max_dimensions
    &&& dims_within(s, effective_bound(limits.max_elements))
    &&& prefixes_fit(s)
    &&& shape_product(s) <= limits.max_elements
}

/// The error of a request for `requested` elements above the budget `max`.
pub open spec fn element_limit_error(requested: nat, max: nat, operation: Seq<char>) -> ErrorView {
    ErrorView::Allocation {
        requested_elements: requested,
        message: operation + " requested "@ + decimal_text(requested)
            + " elements, exceeding the limit of "@ + decimal_text(max)
            + " (MattenLimits::max_elements); use smaller shapes"@,
    }
}

/// The error [`MattenLimits::check_shape`] gives for a shape it refuses:
/// the rank first, then the per-dimension and overflow checks, then the
/// element budget.
pub open spec fn shape_limit_error(limits: MattenLimits, s: Seq<usize>, operation: Seq<char>) -> ErrorView {
    let bound = effective_bound(limits.max_elements);
    if s.len() > limits.max_dimensions {
        rank_error(s, operation, limits.max_dimensions as nat)
    } else if !(dims_within(s, bound) && prefixes_fit(s)) {
        shape_count_error(s, operation, bound)
    } else {
        element_limit_error(shape_product(s), limits.max_elements as nat, operation)
    }
}

impl Default for MattenLimits {
    fn default() -> (r: Self)
        ensures
            r == default_limits(),
    {
        MattenLimits {
            max_dimensions: MAX_NDIM,
            max_elements: MAX_ELEMENTS,
            max_parse_bytes: MAX_PARSE_BYTES,
        }
    }
}

impl MattenLimits {
    /// The default limit set, as a value of the model.
    pub open spec fn default_spec() -> MattenLimits {
        default_limits()
    }

    /// A very restrictive limit set useful for fuzz / threat-model tests:
    /// rank 4, 1024 elements, 64 KiB of input.
    pub fn strict() -> (r: Self)
        ensures
            r.max_dimensions == 4,
            r.max_elements == 1024,
            r.max_parse_bytes == 65536,
    {
        MattenLimits { max_dimensions: 4, max_elements: 1024, max_parse_bytes: 65536 }
    }

    /// Checks that `requested` does not exceed `max_elements`, returning
    /// [`MattenError::Allocation`] otherwise.
    pub fn check_elements(&self, requested: usize, operation: &'static str) -> (r: Result<
        (),
        MattenError,
    >)
        ensures
            r is Ok <==> requested <= self.max_elements,
            r matches Err(e) ==> e@ == element_limit_error(
                requested as nat,
                self.max_elements as nat,
                operation@,
            ),
    {
        if requested > self.max_elements {
            let mut message = concat2(operation, " requested ");
            message.append(decimal(requested).as_str());
            message.append(" elements, exceeding the limit of ");
            message.append(decimal(self.max_elements).as_str());
            message.append(" (MattenLimits::max_elements); use smaller shapes");
            Err(MattenError::Allocation { requested_elements: requested, message })
        } else {
            Ok(())
        }
    }

    /// Checks rank and element count for a shape against these limits and
    /// returns the element count. A rank above `max_dimensions` is a
    /// [`MattenError::Shape`]; an oversized dimension, an overflowing
    /// product, or a count above `max_elements` is a
    /// [`MattenError::Allocation`].
    pub fn check_shape(&self, shape: &[usize], operation: &'static str) -> (r: Result<
        usize,
        MattenError,
    >)
        ensures
            r is Ok <==> shape_within_limits(*self, shape@),
            r matches Ok(n) ==> n == shape_product(shape@),
            r matches Err(e) ==> e@ == shape_limit_error(*self, shape@, operation@),
    {
        if shape.len() > self.max_dimensions {
            let mut message = concat2("rank ", decimal(shape.len()).as_str());
            message.append(" exceeds the maximum supported rank of ");
            message.append(decimal(self.max_dimensions).as_str());
            message.append(" (shape ");
            message.append(shape_text(shape).as_str());
            message.append(")");
            return Err(MattenError::Shape { operation, message });
        }
        let len = match checked_shape_len(shape, operation, self.max_elements) {
            Ok(n) => n,
            Err(e) => return Err(e),
        };
        match self.check_elements(len, operation) {
            Ok(()) => Ok(len),
            Err(e) => Err(e),
        }
    }
}

} // verus!
