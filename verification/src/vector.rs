//! Sparse vectors: a size and a list of encoded positions with values.

use vstd::prelude::*;
use crate::pattern::indices_in_range;
use crate::{base_of, dimension, IndexBase, SparseError};

verus! {

/// Mathematical content of a sparse vector.
pub struct SparseVectorView<V> {
    pub size: usize,
    pub base: IndexBase,
    pub indices: Seq<u32>,
    pub values: Seq<V>,
}

/// The first check that a sparse vector description fails, if any.
pub open spec fn vector_error(size: usize, indices: Seq<u32>, nnz: nat, base: IndexBase) -> Option<
    SparseError,
> {
    let b = base_of(base);
    if size > u32::MAX {
        Some(SparseError::DimensionTooLarge("sparse vector size"))
    } else if indices.len() != nnz {
        Some(
            SparseError::BufferLength {
                name: "sparse vector indices",
                expected: nnz as usize,
                actual: indices.len() as usize,
            },
        )
    } else if b + size > u32::MAX {
        Some(SparseError::SizeOverflow("sparse vector index range"))
    } else if !indices_in_range(indices, b, size as nat) {
        Some(SparseError::InvalidSparseIndex("sparse vector"))
    } else {
        None
    }
}

impl<V> SparseVectorView<V> {
    pub open spec fn valid(self) -> bool {
        vector_error(self.size, self.indices, self.values.len(), self.base) is None
    }
}

/// A validated sparse vector over borrowed arrays.
#[derive(Debug)]
pub struct SparseVector<'a, V> {
    indices: &'a [u32],
    values: &'a [V],
    size: usize,
    index_base: IndexBase,
}

impl<'a, V> Clone for SparseVector<'a, V> {
    fn clone(&self) -> (r: Self)
        ensures
            r@ == self@,
    {
        *self
    }
}

impl<'a, V> Copy for SparseVector<'a, V> {

}

impl<'a, V> View for SparseVector<'a, V> {
    type V = SparseVectorView<V>;

    closed spec fn view(&self) -> SparseVectorView<V> {
        SparseVectorView {
            size: self.size,
            base: self.index_base,
            indices: self.indices@,
            values: self.values@,
        }
    }
}

impl<'a, V> SparseVector<'a, V> {
    #[verifier::type_invariant]
    pub open spec fn well_formed(&self) -> bool {
        self@.valid()
    }

    /// Checks the size, the array lengths and every position.
    pub fn new(size: usize, indices: &'a [u32], values: &'a [V], index_base: IndexBase) -> (r:
        Result<Self, SparseError>)
        ensures
            r is Ok <==> vector_error(size, indices@, values@.len(), index_base) is None,
            r matches Err(e) ==> vector_error(size, indices@, values@.len(), index_base) == Some(e),
            r matches Ok(v) ==> v@ == (SparseVectorView {
                size,
                base: index_base,
                indices: indices@,
                values: values@,
            }),
    {
        dimension(size, "sparse vector size")?;
        if indices.len() != values.len() {
            return Err(
                SparseError::BufferLength {
                    name: "sparse vector indices",
                    expected: values.len(),
                    actual: indices.len(),
                },
            );
        }
        let base = index_base.value();
        let size_u32 = dimension(size, "sparse vector index range")?;
        let limit = match base.checked_add(size_u32) {
            Some(value) => value,
            None => return Err(SparseError::SizeOverflow("sparse vector index range")),
        };
        let mut e: usize = 0;
        while e < indices.len()
            invariant
                e <= indices.len(),
                size <= u32::MAX,
                indices.len() == values.len(),
                base == base_of(index_base),
                limit == base + size,
                forall|j: int| 0 <= j < e ==> base <= #[trigger] indices@[j] < base + size,
            decreases indices.len() - e,
        {
            let index = indices[e];
            if index < base || index >= limit {
                return Err(SparseError::InvalidSparseIndex("sparse vector"));
            }
            e = e + 1;
        }
        Ok(SparseVector { indices, values, size, index_base })
    }

    pub fn size(&self) -> (r: usize)
        ensures
            r == self@.size,
    {
        self.size
    }

    pub fn nnz(&self) -> (r: usize)
        ensures
            r == self@.values.len(),
    {
        self.values.len()
    }

    pub fn indices(&self) -> (r: &'a [u32])
        ensures
            r@ == self@.indices,
    {
        self.indices
    }

    pub fn values(&self) -> (r: &'a [V])
        ensures
            r@ == self@.values,
    {
        self.values
    }

    pub fn index_base(&self) -> (r: IndexBase)
        ensures
            r == self@.base,
    {
        self.index_base
    }
}

/// A validated sparse vector that owns its arrays.
#[derive(Debug, PartialEq)]
pub struct SparseVectorOwned<V> {
    indices: Vec<u32>,
    values: Vec<V>,
    size: usize,
    index_base: IndexBase,
}

impl<V: Clone> Clone for SparseVectorOwned<V> {
    fn clone(&self) -> (r: Self)
        ensures
            r@.size == self@.size,
            r@.base == self@.base,
            r@.indices == self@.indices,
            r@.values.len() == self@.values.len(),
            forall|i: int| 0 <= i < self@.values.len() ==> cloned::<V>(self@.values[i], #[trigger] r@.values[i]),
    {
        proof {
            use_type_invariant(self);
        }
        SparseVectorOwned {
            indices: crate::pattern::copy_indices(&self.indices),
            values: self.values.clone(),
            size: self.size,
            index_base: self.index_base,
        }
    }
}

impl<V> View for SparseVectorOwned<V> {
    type V = SparseVectorView<V>;

    closed spec fn view(&self) -> SparseVectorView<V> {
        SparseVectorView {
            size: self.size,
            base: self.index_base,
            indices: self.indices@,
            values: self.values@,
        }
    }
}

impl<V> SparseVectorOwned<V> {
    #[verifier::type_invariant]
    pub open spec fn well_formed(&self) -> bool {
        self@.valid()
    }

    /// Checks the size, the array lengths and every position, and takes the arrays.
    pub fn new(size: usize, indices: Vec<u32>, values: Vec<V>, index_base: IndexBase) -> (r: Result<
        Self,
        SparseError,
    >)
        ensures
            r is Ok <==> vector_error(size, indices@, values@.len(), index_base) is None,
            r matches Err(e) ==> vector_error(size, indices@, values@.len(), index_base) == Some(e),
            r matches Ok(v) ==> v@ == (SparseVectorView {
                size,
                base: index_base,
                indices: indices@,
                values: values@,
            }),
    {
        SparseVector::new(size, indices.as_slice(), values.as_slice(), index_base)?;
        Ok(SparseVectorOwned { indices, values, size, index_base })
    }

    /// Borrows the arrays as a `SparseVector`.
    pub fn as_ref(&self) -> (r: SparseVector<'_, V>)
        ensures
            r@ == self@,
    {
        proof {
            use_type_invariant(self);
        }
        SparseVector {
            indices: self.indices.as_slice(),
            values: self.values.as_slice(),
            size: self.size,
            index_base: self.index_base,
        }
    }
}

} // verus!
