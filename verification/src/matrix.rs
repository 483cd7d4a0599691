//! Dense row-major evaluation matrices.  Row `i` holds the value of
//! every polynomial of a batch at domain point `i`; the width is the
//! batch size, the height the domain size.

use vstd::prelude::*;
use vstd::arithmetic::div_mod::lemma_fundamental_div_mod;
use vstd::arithmetic::mul::{lemma_mul_inequality, lemma_mul_is_commutative};
use crate::field::FieldElem;

verus! {

/// A row-major table of field elements.
pub struct RowMajorMat<T> {
    pub values: Vec<T>,
    pub width: usize,
}

impl<T: FieldElem> RowMajorMat<T> {
    /// The batch size.
    pub open spec fn spec_width(self) -> int {
        self.width as int
    }

    /// The number of domain points.
    pub open spec fn spec_height(self) -> int {
        self.values.len() as int / self.width as int
    }

    /// A well-formed matrix: a positive width dividing the value count,
    /// every entry a reduced field element.
    pub open spec fn wf(self) -> bool {
        &&& self.width >= 1
        &&& self.values.len() as int % self.width as int == 0
        &&& forall|k: int|
            0 <= k < self.values.len() ==> 0 <= #[trigger] self.values[k].val() < T::modulus()
    }

    /// The value at row `r`, column `c`.
    pub open spec fn entry(self, r: int, c: int) -> int {
        self.values[r * self.spec_width() + c].val()
    }

    /// Column `c` as the sequence of its values, one per domain point.
    pub open spec fn col(self, c: int) -> Seq<int> {
        Seq::new(self.spec_height() as nat, |r: int| self.entry(r, c))
    }

    /// Row-major flattening: an in-range (row, column) pair indexes an
    /// in-range value.
    pub proof fn lemma_index(self, r: int, c: int)
        requires
            self.wf(),
            0 <= r < self.spec_height(),
            0 <= c < self.spec_width(),
        ensures
            0 <= r * self.spec_width() + c < self.values.len(),
            self.values.len() == self.spec_height() * self.spec_width(),
    {
        let w = self.spec_width();
        let h = self.spec_height();
        let n = self.values.len() as int;
        lemma_fundamental_div_mod(n, w);
        lemma_mul_is_commutative(w, h);
        assert(n == h * w);
        assert(r * w + c >= 0) by (nonlinear_arith)
            requires
                r >= 0,
                c >= 0,
                w >= 1,
        ;
        lemma_mul_inequality(r, h - 1, w);
        lemma_mul_is_commutative(r, w);
        lemma_mul_is_commutative(h - 1, w);
        assert((h - 1) * w + c < h * w) by (nonlinear_arith)
            requires
                c < w,
        ;
    }

    /// Wraps a flat vector of values as a matrix of the given width.
    pub fn new(values: Vec<T>, width: usize) -> (m: Self)
        requires
            width >= 1,
            values.len() as int % width as int == 0,
            forall|k: int| 0 <= k < values.len() ==> 0 <= #[trigger] values[k].val() < T::modulus(),
        ensures
            m.wf(),
            m.values == values,
            m.width == width,
    {
        RowMajorMat { values, width }
    }

    /// The number of domain points.
    pub fn height(&self) -> (h: usize)
        requires
            self.wf(),
        ensures
            h as int == self.spec_height(),
    {
        proof {
            lemma_fundamental_div_mod(self.values.len() as int, self.width as int);
        }
        self.values.len() / self.width
    }

    /// The batch size.
    pub fn get_width(&self) -> (w: usize)
        ensures
            w == self.width,
    {
        self.width
    }

    /// The value at row `r`, column `c`.
    pub fn get(&self, r: usize, c: usize) -> (v: T)
        requires
            self.wf(),
            r < self.spec_height(),
            c < self.width,
        ensures
            v.val() == self.entry(r as int, c as int),
            0 <= v.val() < T::modulus(),
            v.val() == self.col(c as int)[r as int],
    {
        proof {
            self.lemma_index(r as int, c as int);
        }
        self.values[r * self.width + c]
    }

    /// Row `r` as a vector: the value of every polynomial of the batch
    /// at domain point `r`.
    pub fn row(&self, r: usize) -> (out: Vec<T>)
        requires
            self.wf(),
            r < self.spec_height(),
        ensures
            out.len() == self.width,
            forall|c: int| 0 <= c < self.width ==> #[trigger] out[c].val() == self.entry(r as int, c),
    {
        let mut out: Vec<T> = Vec::new();
        let mut c: usize = 0;
        while c < self.width
            invariant
                self.wf(),
                r < self.spec_height(),
                c <= self.width,
                out.len() == c,
                forall|k: int| 0 <= k < c ==> #[trigger] out[k].val() == self.entry(r as int, k),
            decreases self.width - c,
        {
            let v = self.get(r, c);
            out.push(v);
            c = c + 1;
        }
        out
    }
}

/// Two matrices of one width stacked on top of each other: the result
/// shape of an extension that keeps the original rows verbatim above
/// the freshly computed ones.
pub struct VerticalPair<T> {
    pub top: RowMajorMat<T>,
    pub bottom: RowMajorMat<T>,
}

impl<T: FieldElem> VerticalPair<T> {
    /// Both halves are well-formed and share one width.
    pub open spec fn wf(self) -> bool {
        &&& self.top.wf()
        &&& self.bottom.wf()
        &&& self.top.width == self.bottom.width
    }

    /// The stacked height.
    pub open spec fn spec_height(self) -> int {
        self.top.spec_height() + self.bottom.spec_height()
    }

    /// The value at row `r`, column `c` of the stack: rows of the top
    /// matrix first, then rows of the bottom one.
    pub open spec fn entry(self, r: int, c: int) -> int {
        if r < self.top.spec_height() {
            self.top.entry(r, c)
        } else {
            self.bottom.entry(r - self.top.spec_height(), c)
        }
    }

    /// The value at row `r`, column `c`.
    pub fn get(&self, r: usize, c: usize) -> (v: T)
        requires
            self.wf(),
            r < self.spec_height(),
            c < self.top.width,
        ensures
            v.val() == self.entry(r as int, c as int),
    {
        let top_h = self.top.height();
        if r < top_h {
            self.top.get(r, c)
        } else {
            self.bottom.get(r - top_h, c)
        }
    }
}

} // verus!
