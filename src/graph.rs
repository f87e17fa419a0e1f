use vstd::prelude::*;
use vstd::slice::slice_subrange;

verus! {

/// Read access to a collection of fixed-dimension vectors addressed by a dense id.
pub trait VectorStorage<T> {
    /// The stored vectors, in id order.
    spec fn rows(&self) -> Seq<Seq<T>>;

    /// The vector stored under `idx`, or `None` when `idx` is out of range.
    fn get(&self, idx: u32) -> (r: Option<&[T]>)
        ensures
            (idx as int) < self.rows().len() ==> (r is Some && r->Some_0@ == self.rows()[idx as int]),
            (idx as int) >= self.rows().len() ==> r is None,
    ;

    /// Number of stored vectors.
    fn len(&self) -> (r: usize)
        ensures
            r == self.rows().len(),
    ;
}

/// Vectors held as a dense row-major matrix.
pub struct InMemoryVectorStorage<T> {
    data: Vec<T>,
    dim: usize,
}

impl<T> InMemoryVectorStorage<T> {
    #[verifier::type_invariant]
    spec fn inv(&self) -> bool {
        self.dim > 0 && self.data@.len() % (self.dim as nat) == 0
    }

    pub closed spec fn matrix(&self) -> Seq<T> {
        self.data@
    }

    pub closed spec fn dimension(&self) -> nat {
        self.dim as nat
    }

    /// Wraps `data`, read as rows of `dim` values each.
    pub fn new(data: Vec<T>, dim: usize) -> (r: Self)
        requires
            dim > 0,
            data@.len() % (dim as nat) == 0,
        ensures
            r.matrix() == data@,
            r.dimension() == dim,
    {
        InMemoryVectorStorage { data, dim }
    }
}

impl<T> VectorStorage<T> for InMemoryVectorStorage<T> {
    open spec fn rows(&self) -> Seq<Seq<T>> {
        let d = self.dimension();
        Seq::new(
            if d > 0 { self.matrix().len() / d } else { 0 },
            |i: int| self.matrix().subrange(i * d, i * d + d),
        )
    }

    fn get(&self, idx: u32) -> (r: Option<&[T]>) {
        proof {
            use_type_invariant(self);
        }
        let rows = self.data.len() / self.dim;
        if (idx as usize) < rows {
            let i = idx as usize;
            let d = self.dim;
            let len = self.data.len();
            assert((i + 1) * d <= len) by (nonlinear_arith)
                requires
                    i < rows,
                    rows == len / d,
                    d > 0,
            ;
            assert(i * d + d == (i + 1) * d) by (nonlinear_arith);
            let start = i * d;
            Some(slice_subrange(self.data.as_slice(), start, start + d))
        } else {
            None
        }
    }

    fn len(&self) -> (r: usize) {
        proof {
            use_type_invariant(self);
        }
        self.data.len() / self.dim
    }
}

} // verus!
