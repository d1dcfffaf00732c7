//! The unit of data the whole pipeline transforms: a width x height,
//! row-major array of 8-bit intensities.

use vstd::prelude::*;
use vstd::arithmetic::div_mod::lemma_fundamental_div_mod_converse;

verus! {

pub struct GrayscaleBuffer {
    pub width: usize,
    pub height: usize,
    pub data: Vec<u8>,
}

/// A row-major sequence of `w * h` samples whose pixel `(x, y)` is
/// `f(x, y)`.
pub open spec fn grid(w: int, h: int, f: spec_fn(int, int) -> u8) -> Seq<u8> {
    Seq::new((w * h) as nat, |i: int| f(i % w, i / w))
}

/// Row-major index arithmetic: `(x, y)` lands strictly inside the buffer.
pub proof fn lemma_index_bound(x: int, y: int, w: int, h: int)
    requires
        0 <= x < w,
        0 <= y < h,
    ensures
        0 <= y * w + x < w * h,
{
    assert(0 <= y * w + x < w * h) by (nonlinear_arith)
        requires
            0 <= x < w,
            0 <= y < h,
    ;
}

/// A row-major index `y * w + x` decomposes back into its coordinates.
pub proof fn lemma_index_coords(x: int, y: int, w: int)
    requires
        0 <= x < w,
        0 <= y,
    ensures
        (y * w + x) % w == x,
        (y * w + x) / w == y,
{
    lemma_fundamental_div_mod_converse(y * w + x, w, y, x);
}

/// The sample of `grid(w, h, f)` at `(x, y)` is `f(x, y)`.
pub proof fn lemma_grid_index(w: int, h: int, f: spec_fn(int, int) -> u8, x: int, y: int)
    requires
        0 <= x < w,
        0 <= y < h,
    ensures
        0 <= y * w + x < w * h,
        grid(w, h, f)[y * w + x] == f(x, y),
{
    lemma_index_bound(x, y, w, h);
    lemma_index_coords(x, y, w);
}

/// Any index of a grid decomposes into coordinates, and the sample there is
/// `f` of those coordinates.
pub proof fn lemma_grid_decompose(w: int, h: int, f: spec_fn(int, int) -> u8, i: int)
    requires
        0 < w,
        0 < h,
        0 <= i < (w * h) as nat,
    ensures
        0 <= i % w < w,
        0 <= i / w < h,
        i == (i / w) * w + i % w,
        grid(w, h, f)[i] == f(i % w, i / w),
{
    vstd::arithmetic::div_mod::lemma_fundamental_div_mod(i, w);
    vstd::arithmetic::div_mod::lemma_mod_bound(i, w);
    vstd::arithmetic::div_mod::lemma_div_is_ordered(i, w * h - 1, w);
    assert(w * h - 1 == (h - 1) * w + (w - 1)) by (nonlinear_arith);
    vstd::arithmetic::div_mod::lemma_fundamental_div_mod_converse(w * h - 1, w, h - 1, w - 1);
    vstd::arithmetic::div_mod::lemma_div_is_ordered(0, i, w);
    assert((i / w) * w == w * (i / w)) by (nonlinear_arith);
}

impl GrayscaleBuffer {
    /// Well-formedness: the sample store matches the declared dimensions.
    pub open spec fn wf(&self) -> bool {
        self.data@.len() == self.width * self.height
    }

    /// The intensity at column `x`, row `y`.
    pub open spec fn pix(&self, x: int, y: int) -> u8 {
        self.data@[y * self.width + x]
    }

    pub open spec fn in_bounds(&self, x: int, y: int) -> bool {
        0 <= x < self.width && 0 <= y < self.height
    }

    /// A buffer of the given dimensions with every sample equal to `fill`.
    pub fn new_filled(width: usize, height: usize, fill: u8) -> (r: Self)
        requires
            width * height <= usize::MAX,
        ensures
            r.wf(),
            r.width == width,
            r.height == height,
            forall|x: int, y: int| r.in_bounds(x, y) ==> r.pix(x, y) == fill,
    {
        let n: usize = width * height;
        let mut data: Vec<u8> = Vec::new();
        let mut i: usize = 0;
        while i < n
            invariant
                i <= n,
                data@.len() == i,
                forall|j: int| 0 <= j < i ==> data@[j] == fill,
            decreases n - i,
        {
            data.push(fill);
            i = i + 1;
        }
        let r = GrayscaleBuffer { width, height, data };
        proof {
            assert forall|x: int, y: int| r.in_bounds(x, y) implies r.pix(x, y) == fill by {
                lemma_index_bound(x, y, width as int, height as int);
            }
        }
        r
    }

    pub fn get(&self, x: usize, y: usize) -> (r: u8)
        requires
            self.wf(),
            self.in_bounds(x as int, y as int),
        ensures
            r == self.pix(x as int, y as int),
    {
        let _n: usize = self.data.len();
        proof {
            lemma_index_bound(x as int, y as int, self.width as int, self.height as int);
        }
        self.data[y * self.width + x]
    }

    pub fn set(&mut self, x: usize, y: usize, v: u8)
        requires
            old(self).wf(),
            old(self).in_bounds(x as int, y as int),
        ensures
            final(self).wf(),
            final(self).width == old(self).width,
            final(self).height == old(self).height,
            final(self).data@ == old(self).data@.update(y * old(self).width + x, v),
            final(self).pix(x as int, y as int) == v,
            forall|i: int, j: int|
                old(self).in_bounds(i, j) && !(i == x && j == y) ==> final(self).pix(i, j) == old(
                    self,
                ).pix(i, j),
    {
        let _n: usize = self.data.len();
        proof {
            lemma_index_bound(x as int, y as int, self.width as int, self.height as int);
        }
        let idx: usize = y * self.width + x;
        self.data.set(idx, v);
        proof {
            assert forall|i: int, j: int|
                old(self).in_bounds(i, j) && !(i == x as int && j == y as int) implies self.pix(
                i,
                j,
            ) == old(self).pix(i, j) by {
                lemma_index_bound(i, j, self.width as int, self.height as int);
                lemma_index_coords(i, j, self.width as int);
                lemma_index_coords(x as int, y as int, self.width as int);
            }
        }
    }

    /// An independent copy with the same dimensions and samples.
    pub fn duplicate(&self) -> (r: Self)
        requires
            self.wf(),
        ensures
            r.wf(),
            r.width == self.width,
            r.height == self.height,
            r.data@ == self.data@,
    {
        let n: usize = self.data.len();
        let mut data: Vec<u8> = Vec::new();
        let mut i: usize = 0;
        while i < n
            invariant
                i <= n,
                n == self.data@.len(),
                data@ == self.data@.subrange(0, i as int),
            decreases n - i,
        {
            data.push(self.data[i]);
            proof {
                assert(data@ =~= self.data@.subrange(0, (i + 1) as int));
            }
            i = i + 1;
        }
        proof {
            assert(data@ =~= self.data@);
        }
        GrayscaleBuffer { width: self.width, height: self.height, data }
    }
}

} // verus!
