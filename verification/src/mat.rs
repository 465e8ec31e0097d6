//! Fixed-size square matrix over a flat buffer, generic over the element
//! type, with an element-wise conversion between instantiations.

use vstd::prelude::*;

verus! {

/// Square matrix of side `size`; element (i, j) lives at flat index
/// `j * size + i` (row `j`, column `i`).
pub struct Matrix<E: Copy> {
    elements: Vec<E>,
    size: usize,
}

/// Flat index of element (i, j) of a matrix of side `size`.
pub open spec fn mat_idx(i: int, j: int, size: int) -> int {
    j * size + i
}

pub proof fn lemma_mat_idx_in_range(i: int, j: int, size: int)
    requires
        0 <= i < size,
        0 <= j < size,
    ensures
        0 <= mat_idx(i, j, size) < size * size,
{
    assert(0 <= j * size + i < size * size) by (nonlinear_arith)
        requires
            0 <= i < size,
            0 <= j < size,
    ;
}

impl<E: Copy> Matrix<E> {
    /// The flat element buffer, in row-major order with row `j`, column `i`.
    pub closed spec fn view(&self) -> Seq<E> {
        self.elements@
    }

    /// Side length of the matrix.
    pub closed spec fn spec_size(&self) -> int {
        self.size as int
    }

    /// The buffer holds exactly `size * size` elements.
    pub open spec fn wf(&self) -> bool {
        &&& self@.len() == self.spec_size() * self.spec_size()
        &&& self.spec_size() * self.spec_size() <= usize::MAX
    }

    /// A `size` x `size` matrix filled with the element type's default value.
    /// What that value is cannot be stated for an arbitrary element type, so
    /// only the shape is promised; every element equals every other.
    pub fn new(size: usize) -> (r: Self) where E: Default
        requires
            size * size <= usize::MAX,
        ensures
            r.wf(),
            r.spec_size() == size,
            forall|p: int, q: int|
                0 <= p < r@.len() && 0 <= q < r@.len() ==> r@[p] == r@[q],
    {
        let n = size * size;
        let fill: E = Default::default();
        let mut elements: Vec<E> = Vec::new();
        for k in 0..n
            invariant
                elements@.len() == k,
                forall|p: int| 0 <= p < k ==> elements@[p] == fill,
        {
            elements.push(fill);
        }
        Matrix { elements, size }
    }

    /// Wraps an existing flat buffer; the caller guarantees the length is
    /// exactly `size * size`.
    pub fn from(elements: &[E], size: usize) -> (r: Self)
        requires
            elements@.len() == size * size,
        ensures
            r.wf(),
            r.spec_size() == size,
            r@ == elements@,
    {
        let mut buf: Vec<E> = Vec::new();
        let n = elements.len();
        for k in 0..n
            invariant
                n == elements@.len(),
                buf@ =~= elements@.subrange(0, k as int),
        {
            buf.push(elements[k]);
        }
        proof {
            assert(buf@ =~= elements@);
        }
        Matrix { elements: buf, size }
    }

    pub fn get(&self, i: usize, j: usize) -> (r: E)
        requires
            self.wf(),
            i < self.spec_size(),
            j < self.spec_size(),
        ensures
            r == self@[mat_idx(i as int, j as int, self.spec_size())],
    {
        proof {
            lemma_mat_idx_in_range(i as int, j as int, self.spec_size());
        }
        self.elements[j * self.size + i]
    }

    pub fn set(&mut self, i: usize, j: usize, value: E)
        requires
            old(self).wf(),
            i < old(self).spec_size(),
            j < old(self).spec_size(),
        ensures
            final(self).wf(),
            final(self).spec_size() == old(self).spec_size(),
            final(self)@ == old(self)@.update(
                mat_idx(i as int, j as int, old(self).spec_size()),
                value,
            ),
    {
        proof {
            lemma_mat_idx_in_range(i as int, j as int, self.spec_size());
        }
        self.elements.set(j * self.size + i, value);
    }

    /// Side length of the matrix.
    pub fn len(&self) -> (r: usize)
        ensures
            r == self.spec_size(),
    {
        self.size
    }

    pub fn is_empty(&self) -> (r: bool)
        ensures
            r == (self.spec_size() == 0),
    {
        self.len() == 0
    }

    /// Maps every element through `conv`, producing a same-shape matrix of a
    /// possibly different element type.
    pub fn convert<F, T>(&self, conv: F) -> (r: Matrix<T>) where F: Fn(E) -> T, T: Copy
        requires
            self.wf(),
            forall|k: int| 0 <= k < self@.len() ==> call_requires(conv, (self@[k],)),
        ensures
            r.wf(),
            r.spec_size() == self.spec_size(),
            r@.len() == self@.len(),
            forall|k: int| 0 <= k < self@.len() ==> call_ensures(conv, (self@[k],), #[trigger] r@[k]),
    {
        let mut out: Vec<T> = Vec::new();
        let n = self.elements.len();
        for k in 0..n
            invariant
                n == self@.len(),
                self.wf(),
                out@.len() == k,
                forall|p: int| 0 <= p < k ==> call_requires(conv, (self@[p],)),
                forall|p: int| 0 <= p < k ==> call_ensures(conv, (self@[p],), #[trigger] out@[p]),
                forall|p: int| 0 <= p < self@.len() ==> call_requires(conv, (self@[p],)),
        {
            let v = conv(self.elements[k]);
            out.push(v);
        }
        Matrix { elements: out, size: self.size }
    }
}

/// Matrix indexing law: after `set(i, j, v)`, `get(i, j)` returns `v`, every
/// other element is unchanged, and the shape is preserved.
pub proof fn lemma_set_then_get<E: Copy>(m0: Matrix<E>, m1: Matrix<E>, i: int, j: int, v: E)
    requires
        m0.wf(),
        0 <= i < m0.spec_size(),
        0 <= j < m0.spec_size(),
        m1.spec_size() == m0.spec_size(),
        m1@ == m0@.update(mat_idx(i, j, m0.spec_size()), v),
    ensures
        m1@[mat_idx(i, j, m0.spec_size())] == v,
        forall|p: int, q: int|
            0 <= p < m0.spec_size() && 0 <= q < m0.spec_size() && (p != i || q != j)
                ==> m1@[mat_idx(p, q, m0.spec_size())] == m0@[mat_idx(p, q, m0.spec_size())],
        m1@.len() == m0@.len(),
{
    let s = m0.spec_size();
    lemma_mat_idx_in_range(i, j, s);
    assert forall|p: int, q: int|
        0 <= p < s && 0 <= q < s && (p != i || q != j) implies m1@[mat_idx(p, q, s)] == m0@[mat_idx(
        p,
        q,
        s,
    )] by {
        lemma_mat_idx_in_range(p, q, s);
        assert(mat_idx(p, q, s) != mat_idx(i, j, s)) by (nonlinear_arith)
            requires
                0 <= p < s,
                0 <= q < s,
                0 <= i < s,
                0 <= j < s,
                p != i || q != j,
        ;
    }
}

} // verus!
