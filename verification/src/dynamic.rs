//! Dynamic tensor storage: shared element storage plus view metadata.
//!
//! A dynamic tensor wraps a shared `Arc<Vec<E>>`. Slicing and reshaping
//! create new tensors that share the same storage (the `Arc` is cloned, the
//! elements are not). A view is either contiguous (logical element `i` is
//! `storage[offset + i]`) or indexed (logical element `i` is
//! `storage[indices[i]]`). Materialisation copies the logical elements into
//! fresh storage, in row-major order, and makes the view contiguous.
//!
//! Every view stays inside its storage: that is the type invariant, so a
//! logical element always exists and reading one never fails.

use std::sync::Arc;
use vstd::prelude::*;
use crate::shape::shape_product;

verus! {

/// Where the logical elements of a [`DynamicTensor`] live in its storage.
pub enum ViewKind {
    /// Logical element `i` is `storage[offset + i]`.
    Contiguous { offset: usize },
    /// Logical element `i` is `storage[indices[i]]`.
    Indexed(Vec<usize>),
}

impl ViewKind {
    /// The two views place logical elements at the same storage positions.
    pub open spec fn same_as(self, other: ViewKind) -> bool {
        match (self, other) {
            (ViewKind::Contiguous { offset: a }, ViewKind::Contiguous { offset: b }) => a == b,
            (ViewKind::Indexed(a), ViewKind::Indexed(b)) => a@ == b@,
            _ => false,
        }
    }
}

impl Clone for ViewKind {
    fn clone(&self) -> (r: Self)
        ensures
            r.same_as(*self),
    {
        match self {
            ViewKind::Contiguous { offset } => {
                let o: usize = *offset;
                ViewKind::Contiguous { offset: o }
            },
            ViewKind::Indexed(indices) => {
                let mut copy: Vec<usize> = Vec::new();
                let mut i: usize = 0;
                while i < indices.len()
                    invariant
                        i <= indices@.len(),
                        copy@ == indices@.take(i as int),
                    decreases indices@.len() - i,
                {
                    copy.push(indices[i]);
                    i = i + 1;
                    assert(copy@ =~= indices@.take(i as int));
                }
                assert(copy@ =~= indices@);
                ViewKind::Indexed(copy)
            },
        }
    }
}

/// Whether a strong handle count says that one handle holds the storage
/// alone.
pub fn is_sole_count(count: usize) -> (r: bool)
    ensures
        r == (count == 1),
{
    count == 1
}

/// A tensor of arbitrary (possibly heterogeneous) elements over shared
/// storage.
pub struct DynamicTensor<E> {
    pub(crate) storage: Arc<Vec<E>>,
    pub(crate) shape: Vec<usize>,
    pub(crate) len: usize,
    pub(crate) view: ViewKind,
}

/// Number of strong handles to `storage`; at least one (the argument).
///
/// Calls `Arc::strong_count`. Claimed only that the count is positive: its
/// value depends on which other handles exist at run time.
#[verifier::external_body]
fn strong_count<E>(storage: &Arc<Vec<E>>) -> (r: usize)
    ensures
        r >= 1,
{
    Arc::strong_count(storage)
}

/// A new handle to the same storage.
///
/// Calls `Arc::clone`, which hands out a pointer to the same allocation, so
/// the contents seen through the result are those of `storage`.
#[verifier::external_body]
fn share<E>(storage: &Arc<Vec<E>>) -> (r: Arc<Vec<E>>)
    ensures
        r@ == storage@,
{
    Arc::clone(storage)
}

impl<E> DynamicTensor<E> {
    /// Every logical element lies inside the storage.
    #[verifier::type_invariant]
    spec fn in_bounds(self) -> bool {
        match self.view {
            ViewKind::Contiguous { offset } => offset + self.len <= self.storage@.len(),
            ViewKind::Indexed(indices) => {
                &&& indices@.len() == self.len
                &&& forall|i: int| 0 <= i < indices@.len() ==> #[trigger] indices@[i] < self.storage@.len()
            },
        }
    }

    /// The storage position of logical element `i`.
    pub closed spec fn position(self, i: int) -> int {
        match self.view {
            ViewKind::Contiguous { offset } => offset + i,
            ViewKind::Indexed(indices) => indices@[i] as int,
        }
    }

    /// The logical elements, in row-major order.
    pub closed spec fn elements(self) -> Seq<E> {
        Seq::new(self.len as nat, |i: int| self.storage@[self.position(i)])
    }

    /// The whole shared storage.
    pub closed spec fn stored(self) -> Seq<E> {
        self.storage@
    }

    /// The shape.
    pub closed spec fn dims(self) -> Seq<usize> {
        self.shape@
    }

    /// The view is contiguous from the start of the storage.
    pub closed spec fn is_contiguous_from_start(self) -> bool {
        self.view matches ViewKind::Contiguous { offset } && offset == 0
    }

    /// Creates a contiguous dynamic tensor from owned element data. The
    /// shape is recorded as given; the element count is that of `data`.
    pub fn from_vec(data: Vec<E>, shape: Vec<usize>) -> (r: Self)
        ensures
            r.elements() == data@,
            r.stored() == data@,
            r.dims() == shape@,
            r.is_contiguous_from_start(),
    {
        let len = data.len();
        let r = DynamicTensor {
            storage: Arc::new(data),
            shape,
            len,
            view: ViewKind::Contiguous { offset: 0 },
        };
        assert(r.elements() =~= r.storage@);
        r
    }

    /// The number of logical elements.
    pub fn len(&self) -> (r: usize)
        ensures
            r == self.elements().len(),
    {
        self.len
    }

    /// The shape.
    pub fn shape(&self) -> (r: &[usize])
        ensures
            r@ == self.dims(),
    {
        self.shape.as_slice()
    }

    /// The element at logical position `flat`, or `None` past the end.
    pub fn get_flat(&self, flat: usize) -> (r: Option<&E>)
        ensures
            flat < self.elements().len() ==> r == Some(&self.elements()[flat as int]),
            flat >= self.elements().len() ==> r is None,
    {
        proof {
            use_type_invariant(self);
        }
        let stored = self.storage.len();
        if flat >= self.len {
            return None;
        }
        let storage_idx = match &self.view {
            ViewKind::Contiguous { offset } => *offset + flat,
            ViewKind::Indexed(idxs) => idxs[flat],
        };
        Some(&self.storage[storage_idx])
    }

    /// Whether the storage is held by this tensor alone: the answer of
    /// [`is_sole_count`] on the storage's strong handle count. That count
    /// rests on how many handles exist at run time, which no clause states.
    pub fn is_unique(&self) -> (r: bool) {
        let count = strong_count(&self.storage);
        is_sole_count(count)
    }

    /// A tensor over the same storage whose logical elements are those at
    /// `indices` (logical flat indices into this tensor), with shape
    /// `new_shape`.
    pub fn slice_indices(&self, indices: Vec<usize>, new_shape: Vec<usize>) -> (r: DynamicTensor<
        E,
    >)
        requires
            forall|k: int| 0 <= k < indices@.len() ==> #[trigger] indices@[k] < self.elements().len(),
        ensures
            r.elements().len() == indices@.len(),
            forall|k: int|
                0 <= k < indices@.len() ==> #[trigger] r.elements()[k]
                    == self.elements()[indices@[k] as int],
            r.stored() == self.stored(),
            r.dims() == new_shape@,
    {
        proof {
            use_type_invariant(self);
        }
        let stored = self.storage.len();
        let new_len = indices.len();
        let mut storage_indices: Vec<usize> = Vec::new();
        let mut k: usize = 0;
        while k < new_len
            invariant
                k <= new_len,
                new_len == indices@.len(),
                stored == self.storage@.len(),
                forall|q: int| 0 <= q < indices@.len() ==> #[trigger] indices@[q] < self.len,
                self.in_bounds(),
                storage_indices@.len() == k,
                forall|q: int|
                    0 <= q < k ==> #[trigger] storage_indices@[q] == self.position(
                        indices@[q] as int,
                    ) && storage_indices@[q] < self.storage@.len(),
            decreases new_len - k,
        {
            let i = indices[k];
            let s = match &self.view {
                ViewKind::Contiguous { offset } => *offset + i,
                ViewKind::Indexed(idxs) => idxs[i],
            };
            storage_indices.push(s);
            k = k + 1;
        }
        let r = DynamicTensor {
            storage: share(&self.storage),
            shape: new_shape,
            len: new_len,
            view: ViewKind::Indexed(storage_indices),
        };
        r
    }

    /// The same logical elements under `new_shape`, sharing storage, when
    /// the element counts agree; `None` otherwise.
    pub fn reshape(&self, new_shape: Vec<usize>) -> (r: Option<DynamicTensor<E>>)
        ensures
            r is Some <==> shape_product(new_shape@) == self.elements().len(),
            r matches Some(t) ==> t.elements() == self.elements() && t.dims() == new_shape@
                && t.stored() == self.stored(),
    {
        proof {
            use_type_invariant(self);
        }
        let n = new_shape.len();
        let mut z: usize = 0;
        while z < n
            invariant
                z <= n,
                n == new_shape@.len(),
                forall|k: int| 0 <= k < z ==> #[trigger] new_shape@[k] > 0,
            decreases n - z,
        {
            if new_shape[z] == 0 {
                proof {
                    crate::shape::lemma_product_zero_iff(new_shape@);
                }
                if self.len != 0 {
                    return None;
                }
                let t = DynamicTensor {
                    storage: share(&self.storage),
                    shape: new_shape,
                    len: 0,
                    view: ViewKind::Contiguous { offset: 0 },
                };
                assert(t.elements() =~= self.elements());
                return Some(t);
            }
            z = z + 1;
        }
        let mut product: usize = 1;
        let mut i: usize = 0;
        while i < n
            invariant
                i <= n,
                n == new_shape@.len(),
                forall|k: int| 0 <= k < n ==> #[trigger] new_shape@[k] > 0,
                product as nat == shape_product(new_shape@.take(i as int)),
            decreases n - i,
        {
            proof {
                let t = new_shape@.take(i + 1);
                assert(t.drop_last() =~= new_shape@.take(i as int));
                crate::shape::lemma_prefix_le_product(new_shape@, i as int + 1);
            }
            match product.checked_mul(new_shape[i]) {
                Some(p) => {
                    product = p;
                },
                None => {
                    proof {
                        assert(shape_product(new_shape@.take(i + 1)) > usize::MAX);
                        crate::shape::lemma_prefix_le_product(new_shape@, i as int + 1);
                    }
                    return None;
                },
            }
            i = i + 1;
        }
        proof {
            assert(new_shape@.take(n as int) =~= new_shape@);
        }
        if product != self.len {
            return None;
        }
        let t = DynamicTensor {
            storage: share(&self.storage),
            shape: new_shape,
            len: product,
            view: self.view.clone(),
        };
        assert(t.elements() =~= self.elements());
        Some(t)
    }

}

impl<E: Clone> DynamicTensor<E> {
    /// Copies the logical elements into fresh storage, in row-major order,
    /// and makes the view contiguous; nothing is copied when the view is
    /// already contiguous from the start and the storage is not shared.
    pub fn materialize(&mut self)
        ensures
            final(self).dims() == old(self).dims(),
            final(self).elements().len() == old(self).elements().len(),
            forall|i: int|
                0 <= i < old(self).elements().len() ==> cloned::<E>(
                    old(self).elements()[i],
                    #[trigger] final(self).elements()[i],
                ),
            final(self).is_contiguous_from_start(),
    {
        proof {
            use_type_invariant(&*self);
        }
        let start = match &self.view {
            ViewKind::Contiguous { offset } => *offset == 0,
            ViewKind::Indexed(_) => false,
        };
        if start && self.is_unique() {
            return;
        }
        let data = self.to_vec();
        let len = self.len;
        let mut shape: Vec<usize> = Vec::new();
        core::mem::swap(&mut shape, &mut self.shape);
        *self = DynamicTensor {
            storage: Arc::new(data),
            shape,
            len,
            view: ViewKind::Contiguous { offset: 0 },
        };
        assert(self.elements() =~= self.storage@);
    }

    /// The logical elements, copied, in row-major order.
    pub fn to_vec(&self) -> (r: Vec<E>)
        ensures
            r@.len() == self.elements().len(),
            forall|i: int| 0 <= i < r@.len() ==> cloned::<E>(self.elements()[i], #[trigger] r@[i]),
    {
        proof {
            use_type_invariant(self);
        }
        let mut out: Vec<E> = Vec::new();
        let mut i: usize = 0;
        while i < self.len
            invariant
                i <= self.len,
                self.in_bounds(),
                out@.len() == i,
                forall|k: int| 0 <= k < i ==> cloned::<E>(self.elements()[k], #[trigger] out@[k]),
            decreases self.len - i,
        {
            let e = self.get_flat(i).unwrap().clone();
            out.push(e);
            i = i + 1;
        }
        out
    }
}

} // verus!
