//! Rows, matrices and the public equation of the scheme.
use vstd::prelude::*;

pub mod account;
pub mod bounds;
pub mod decrypt;
pub mod correctness;
pub mod encrypt;
pub mod keygen;

use crate::arith::{fits_i64, trunc_rem, rem_defined};
use crate::text::{
    decimal, join, join_decimal, space, write_i64, write_joined, parse_i64_words, parse_i64_line,
    ascii, lemma_joined_read_back,
};

verus! {

// ---------------------------------------------------------------------------
// Specifications of the row operations
// ---------------------------------------------------------------------------

/// `a` with `b` added to it element by element, as far as `b` reaches; the
/// elements of `a` beyond the end of `b` stay as they are.
pub open spec fn add_into(a: Seq<i64>, b: Seq<i64>) -> Seq<i64> {
    Seq::new(a.len(), |i: int| if i < b.len() { (a[i] + b[i]) as i64 } else { a[i] })
}

/// Whether every sum that `add_into(a, b)` forms is an `i64`.
pub open spec fn add_into_fits(a: Seq<i64>, b: Seq<i64>) -> bool {
    forall|i: int| 0 <= i < a.len() && i < b.len() ==> fits_i64(a[i] + b[i])
}

/// The element-wise sums of `a` and `b`, as many as the shorter one has.
pub open spec fn zip_sum(a: Seq<i64>, b: Seq<i64>) -> Seq<i64> {
    let n = if a.len() <= b.len() { a.len() } else { b.len() };
    Seq::new(n, |i: int| (a[i] + b[i]) as i64)
}

/// `a` with Rust's remainder by `m` taken of every element.
pub open spec fn rem_all(a: Seq<i64>, m: i64) -> Seq<i64> {
    Seq::new(a.len(), |i: int| trunc_rem(a[i] as int, m as int) as i64)
}

/// Whether Rust's remainder by `m` is defined for every element of `a`.
pub open spec fn rem_all_defined(a: Seq<i64>, m: i64) -> bool {
    forall|i: int| 0 <= i < a.len() ==> rem_defined(a[i] as int, m as int)
}

// ---------------------------------------------------------------------------
// Rows
// ---------------------------------------------------------------------------

/// A row of a matrix: the coefficients of one linear combination.
pub struct Row(Vec<i64>);

impl View for Row {
    type V = Seq<i64>;

    closed spec fn view(&self) -> Seq<i64> {
        self.0@
    }
}

impl Clone for Row {
    fn clone(&self) -> (r: Row)
        ensures
            r@ == self@,
    {
        Row(self.0.clone())
    }
}

impl Row {
    /// A row holding the given values.
    pub fn new(v: &[i64]) -> (r: Row)
        ensures
            r@ == v@,
    {
        let mut out: Vec<i64> = Vec::new();
        let n = v.len();
        for i in 0..n
            invariant
                n == v@.len(),
                out@ == v@.subrange(0, i as int),
        {
            out.push(v[i]);
        }
        assert(out@ == v@);
        Row(out)
    }

    /// A row of `width` zeros.
    pub fn new_zeroed(width: usize) -> (r: Row)
        ensures
            r@ == Seq::new(width as nat, |i: int| 0i64),
    {
        let mut out: Vec<i64> = Vec::new();
        for i in 0..width
            invariant
                out@ == Seq::new(i as nat, |k: int| 0i64),
        {
            out.push(0);
        }
        Row(out)
    }

    /// The number of elements.
    pub fn len(&self) -> (n: usize)
        ensures
            n == self@.len(),
    {
        self.0.len()
    }

    /// The row with `f` applied to every element.
    pub fn map<F: Fn(&i64) -> i64>(&self, f: &F) -> (r: Row)
        requires
            forall|i: int| 0 <= i < self@.len() ==> f.requires((&self@[i],)),
        ensures
            r@.len() == self@.len(),
            forall|i: int| 0 <= i < self@.len() ==> f.ensures((&self@[i],), #[trigger] r@[i]),
    {
        let mut out: Vec<i64> = Vec::new();
        let n = self.0.len();
        for i in 0..n
            invariant
                n == self@.len(),
                out@.len() == i,
                forall|k: int| 0 <= k < self@.len() ==> f.requires((&self@[k],)),
                forall|k: int| 0 <= k < i ==> f.ensures((&self@[k],), #[trigger] out@[k]),
        {
            let y = f(&self.0[i]);
            out.push(y);
        }
        Row(out)
    }

    /// The element at `index`.
    pub fn index(&self, index: usize) -> (r: &i64)
        requires
            index < self@.len(),
        ensures
            *r == self@[index as int],
    {
        &self.0[index]
    }

    /// The element at `index`, to be changed in place.
    pub fn index_mut(&mut self, index: usize) -> (r: &mut i64)
        requires
            index < old(self)@.len(),
        ensures
            *r == old(self)@[index as int],
            final(self)@ == old(self)@.update(index as int, *final(r)),
    {
        &mut self.0[index]
    }

    /// Whether `add_assign` can add `rhs` into this row (see `add_into_fits`).
    pub fn can_add(&self, rhs: &Row) -> (b: bool)
        ensures
            b == add_into_fits(self@, rhs@),
    {
        let n = if self.0.len() <= rhs.0.len() { self.0.len() } else { rhs.0.len() };
        for i in 0..n
            invariant
                n <= self@.len(),
                n <= rhs@.len(),
                n == self@.len() || n == rhs@.len(),
                forall|k: int| 0 <= k < i ==> fits_i64(#[trigger] self@[k] + rhs@[k]),
        {
            let t: i128 = (self.0[i] as i128) + (rhs.0[i] as i128);
            if t < (i64::MIN as i128) || t > (i64::MAX as i128) {
                assert(!fits_i64(self@[i as int] + rhs@[i as int]));
                return false;
            }
        }
        true
    }

    /// Whether `rem_assign` can take the remainders by `m` (see `rem_all_defined`).
    pub fn can_rem(&self, m: i64) -> (b: bool)
        ensures
            b == rem_all_defined(self@, m),
    {
        let n = self.0.len();
        for i in 0..n
            invariant
                n == self@.len(),
                forall|k: int| 0 <= k < i ==> rem_defined(#[trigger] self@[k] as int, m as int),
        {
            let x = self.0[i];
            if m == 0 || (x == i64::MIN && m == -1) {
                assert(!rem_defined(self@[i as int] as int, m as int));
                return false;
            }
        }
        true
    }

    /// Adds `rhs` into this row element by element, as far as both reach.
    pub fn add_assign(&mut self, rhs: &Row)
        requires
            add_into_fits(old(self)@, rhs@),
        ensures
            final(self)@ == add_into(old(self)@, rhs@),
    {
        let n = self.0.len();
        let m = rhs.0.len();
        for i in 0..n
            invariant
                n == self@.len(),
                n == old(self)@.len(),
                m == rhs@.len(),
                add_into_fits(old(self)@, rhs@),
                self@.len() == n,
                forall|k: int| 0 <= k < i ==> self@[k] == add_into(old(self)@, rhs@)[k],
                forall|k: int| i <= k < n ==> self@[k] == old(self)@[k],
        {
            assert(self@[i as int] == old(self)@[i as int]);
            if i < m {
                assert(fits_i64(old(self)@[i as int] + rhs@[i as int]));
                let x = self.0[i] + rhs.0[i];
                self.0.set(i, x);
            }
        }
        assert(self@ == add_into(old(self)@, rhs@));
    }

    /// Adds `rhs` into this row element by element; `rhs` must be at least
    /// as long as this row.
    pub fn add_assign_owned(&mut self, rhs: Row)
        requires
            rhs@.len() >= old(self)@.len(),
            add_into_fits(old(self)@, rhs@),
        ensures
            final(self)@ == add_into(old(self)@, rhs@),
    {
        self.add_assign(&rhs);
    }

    /// The element-wise sum of two rows, as long as the shorter one.
    pub fn add(self, rhs: Row) -> (r: Row)
        requires
            add_into_fits(self@, rhs@),
        ensures
            r@ == zip_sum(self@, rhs@),
    {
        let n = if self.0.len() <= rhs.0.len() { self.0.len() } else { rhs.0.len() };
        let mut out: Vec<i64> = Vec::new();
        for i in 0..n
            invariant
                n <= self@.len(),
                n <= rhs@.len(),
                n == zip_sum(self@, rhs@).len(),
                add_into_fits(self@, rhs@),
                out@ == zip_sum(self@, rhs@).subrange(0, i as int),
        {
            out.push(self.0[i] + rhs.0[i]);
        }
        assert(out@ == zip_sum(self@, rhs@));
        Row(out)
    }

    /// Adds `rhs` into this row as `add_assign` does, then hands the sum out
    /// and leaves this row empty.
    pub fn add_mut(&mut self, rhs: &mut Row) -> (r: Row)
        requires
            add_into_fits(old(self)@, old(rhs)@),
        ensures
            r@ == add_into(old(self)@, old(rhs)@),
            final(self)@ == Seq::<i64>::empty(),
            final(rhs)@ == old(rhs)@,
    {
        self.add_assign(rhs);
        let mut v: Vec<i64> = Vec::new();
        std::mem::swap(&mut v, &mut self.0);
        Row(v)
    }

    /// Replaces every element by its remainder modulo `m`.
    pub fn rem_assign(&mut self, m: i64)
        requires
            rem_all_defined(old(self)@, m),
        ensures
            final(self)@ == rem_all(old(self)@, m),
    {
        let n = self.0.len();
        for i in 0..n
            invariant
                n == self@.len(),
                n == old(self)@.len(),
                rem_all_defined(old(self)@, m),
                self@.len() == n,
                forall|k: int| 0 <= k < i ==> self@[k] == rem_all(old(self)@, m)[k],
                forall|k: int| i <= k < n ==> self@[k] == old(self)@[k],
        {
            assert(self@[i as int] == old(self)@[i as int]);
            assert(rem_defined(old(self)@[i as int] as int, m as int));
            let x = self.0[i] % m;
            self.0.set(i, x);
        }
        assert(self@ == rem_all(old(self)@, m));
    }

    /// The row with every element replaced by its remainder modulo `m`.
    pub fn rem(self, m: i64) -> (r: Row)
        requires
            rem_all_defined(self@, m),
        ensures
            r@ == rem_all(self@, m),
    {
        let mut r = self;
        r.rem_assign(m);
        r
    }
}


// ---------------------------------------------------------------------------
// Specifications of the matrix operations
// ---------------------------------------------------------------------------

/// The sum of the first `n` products of row `i` of `a` with column `j` of `b`.
pub open spec fn dot(a: Seq<Seq<i64>>, b: Seq<Seq<i64>>, i: int, j: int, n: nat) -> int
    decreases n,
{
    if n == 0 {
        0
    } else {
        dot(a, b, i, j, (n - 1) as nat) + a[i][n - 1] * b[n - 1][j]
    }
}

/// Whether the entries that a product of an `h` by `w` matrix `a` with a
/// `w` by `bw` matrix `b` reads are all there.
pub open spec fn product_in_bounds(a: Seq<Seq<i64>>, b: Seq<Seq<i64>>, h: nat, w: nat, bw: nat) -> bool {
    &&& w > 0 ==> h <= a.len() && forall|i: int| 0 <= i < h ==> w <= #[trigger] a[i].len()
    &&& bw > 0 ==> w <= b.len() && forall|k: int| 0 <= k < w ==> bw <= #[trigger] b[k].len()
}

/// Whether every product, and every partial sum of products, that the
/// product of `a` and `b` forms is an `i64`.
pub open spec fn product_fits(a: Seq<Seq<i64>>, b: Seq<Seq<i64>>, h: nat, w: nat, bw: nat) -> bool {
    forall|i: int, j: int, k: int|
        #![trigger a[i][k], b[k][j]]
        0 <= i < h && 0 <= j < bw && 0 <= k < w ==> fits_i64(a[i][k] * b[k][j]) && fits_i64(
            dot(a, b, i, j, (k + 1) as nat),
        )
}

/// Whether the product of an `h` by `w` matrix with rows `a` and a `bh` by
/// `bw` matrix with rows `b` can be formed: the inner sizes agree, the
/// outer ones are positive, `bh * w` fits in `usize`, the entries read are
/// there, and every product and partial sum is an `i64`.
pub open spec fn product_defined(a: Seq<Seq<i64>>, h: nat, w: nat, b: Seq<Seq<i64>>, bh: nat, bw: nat) -> bool {
    &&& bh == w
    &&& h > 0
    &&& bw > 0
    &&& bh * w <= usize::MAX
    &&& product_in_bounds(a, b, h, w, bw)
    &&& product_fits(a, b, h, w, bw)
}

/// The `h` by `bw` product of `a` and `b`, which have `w` columns and rows.
pub open spec fn product(a: Seq<Seq<i64>>, b: Seq<Seq<i64>>, h: nat, w: nat, bw: nat) -> Seq<Seq<i64>> {
    Seq::new(h, |i: int| Seq::new(bw, |j: int| dot(a, b, i, j, w) as i64))
}

/// The rows of a matrix read from `v` in chunks of `width`.
pub open spec fn chunks(v: Seq<i64>, height: nat, width: nat) -> Seq<Seq<i64>> {
    Seq::new(height, |i: int| v.subrange(i * width, i * width + width))
}

/// Entry `j` of row `i` of `h` rows of `w` lies within `h * w` entries.
pub proof fn lemma_chunk_index(i: int, j: int, h: int, w: int)
    requires
        0 <= i < h,
        0 <= j < w,
    ensures
        0 <= i * w,
        i * w + j < h * w,
        i * w + w <= h * w,
{
    assert(0 <= i * w) by (nonlinear_arith)
        requires
            0 <= i,
            0 <= w,
    ;
    assert(i * w + w <= h * w) by (nonlinear_arith)
        requires
            i < h,
            0 <= w,
    ;
}

/// The rows of `a` with the rows of `b` added into them, as far as `b`
/// has rows; each pair of rows is added as `add_into` does.
pub open spec fn add_rows(a: Seq<Seq<i64>>, b: Seq<Seq<i64>>) -> Seq<Seq<i64>> {
    Seq::new(a.len(), |i: int| if i < b.len() { add_into(a[i], b[i]) } else { a[i] })
}

/// Whether every sum that `add_rows(a, b)` forms is an `i64`.
pub open spec fn add_rows_fits(a: Seq<Seq<i64>>, b: Seq<Seq<i64>>) -> bool {
    forall|i: int| 0 <= i < a.len() && i < b.len() ==> add_into_fits(#[trigger] a[i], b[i])
}

/// Whether Rust's remainder by `m` is defined for every entry of `a`.
pub open spec fn rem_rows_defined(a: Seq<Seq<i64>>, m: i64) -> bool {
    forall|i: int| 0 <= i < a.len() ==> rem_all_defined(#[trigger] a[i], m)
}

/// The rows of `a` with Rust's remainder by `m` taken of every entry.
pub open spec fn rem_rows(a: Seq<Seq<i64>>, m: i64) -> Seq<Seq<i64>> {
    Seq::new(a.len(), |i: int| rem_all(a[i], m))
}

/// A sequence of `height * width` values cut into rows of `width` holds
/// `height` rows of length `width`, and `from_slice` accepts it.
pub proof fn lemma_chunks_shape(v: Seq<i64>, height: nat, width: nat)
    requires
        height > 0,
        width > 0,
        v.len() == height * width,
    ensures
        v.len() % height == 0,
        v.len() >= height,
        v.len() / height == width,
        chunks(v, height, width).len() == height,
        forall|i: int| 0 <= i < height ==> (#[trigger] chunks(v, height, width)[i]).len() == width,
{
    assert(v.len() == width * height) by (nonlinear_arith)
        requires
            v.len() == height * width,
    ;
    vstd::arithmetic::div_mod::lemma_mod_multiples_basic(width as int, height as int);
    vstd::arithmetic::div_mod::lemma_div_multiples_vanish(width as int, height as int);
    assert(v.len() >= height) by (nonlinear_arith)
        requires
            v.len() == height * width,
            width > 0,
    ;
    assert forall|i: int| 0 <= i < height implies (#[trigger] chunks(v, height, width)[i]).len()
        == width by {
        lemma_chunk_index(i, 0, height as int, width as int);
    }
}

// ---------------------------------------------------------------------------
// Matrices
// ---------------------------------------------------------------------------

/// A matrix stored as a list of rows, with the height and width it was made
/// with. A matrix under construction may hold fewer rows than its height.
pub struct Matrix {
    matrix: Vec<Row>,
    height: usize,
    width: usize,
}

impl Clone for Matrix {
    fn clone(&self) -> (r: Matrix)
        ensures
            r.rows() == self.rows(),
            r.height() == self.height(),
            r.width() == self.width(),
    {
        let mut rows: Vec<Row> = Vec::new();
        let n = self.matrix.len();
        for i in 0..n
            invariant
                n == self.matrix@.len(),
                rows@.len() == i,
                forall|k: int| 0 <= k < i ==> (#[trigger] rows@[k])@ == self.matrix@[k]@,
        {
            rows.push(self.matrix[i].clone());
        }
        assert(rows@.map_values(|r: Row| r@) == self.rows());
        Matrix { matrix: rows, height: self.height, width: self.width }
    }
}

impl Matrix {
    /// The rows held.
    pub closed spec fn rows(&self) -> Seq<Seq<i64>> {
        self.matrix@.map_values(|r: Row| r@)
    }

    /// The height the matrix was made with.
    pub closed spec fn height(&self) -> nat {
        self.height as nat
    }

    /// The width the matrix was made with.
    pub closed spec fn width(&self) -> nat {
        self.width as nat
    }

    /// The number of rows held.
    pub fn num_rows(&self) -> (n: usize)
        ensures
            n == self.rows().len(),
    {
        self.matrix.len()
    }

    /// The height the matrix was made with.
    pub fn get_matrix_height(&self) -> (h: usize)
        ensures
            h == self.height(),
    {
        self.height
    }

    /// The width the matrix was made with.
    pub fn get_matrix_width(&self) -> (w: usize)
        ensures
            w == self.width(),
    {
        self.width
    }

    /// Reads `v` as a matrix of the given height, row after row; the width
    /// is the length of `v` divided by the height.
    pub fn from_slice(v: &[i64], height: usize) -> (m: Matrix)
        requires
            height > 0,
            v@.len() % (height as nat) == 0,
            v@.len() >= height,
        ensures
            m.height() == height,
            m.width() == v@.len() / (height as nat),
            m.rows() == chunks(v@, height as nat, v@.len() / (height as nat)),
    {
        let n = v.len();
        let width = n / height;
        proof {
            vstd::arithmetic::div_mod::lemma_fundamental_div_mod(v@.len() as int, height as int);
            assert(v@.len() == height * width);
            assert(width > 0) by (nonlinear_arith)
                requires
                    v@.len() == height * width,
                    v@.len() >= height,
                    height > 0,
            ;
        }
        let ghost target = chunks(v@, height as nat, width as nat);
        let mut rows: Vec<Row> = Vec::new();
        for i in 0..height
            invariant
                width == v@.len() / (height as nat),
                v@.len() == height * width,
                width > 0,
                n == v@.len(),
                target == chunks(v@, height as nat, width as nat),
                rows@.len() == i,
                forall|k: int| 0 <= k < i ==> (#[trigger] rows@[k])@ == target[k],
        {
            let mut row: Vec<i64> = Vec::new();
            proof {
                lemma_chunk_index(i as int, 0, height as int, width as int);
            }
            for j in 0..width
                invariant
                    0 <= i < height,
                    width == v@.len() / (height as nat),
                    v@.len() == height * width,
                    i * width + width <= height * width,
                    0 <= i * width,
                    n == v@.len(),
                    row@ == v@.subrange(i * width, i * width + j),
            {
                proof {
                    lemma_chunk_index(i as int, j as int, height as int, width as int);
                }
                row.push(v[i * width + j]);
                assert(row@ == v@.subrange(i * width, i * width + j + 1));
            }
            rows.push(Row(row));
        }
        let m = Matrix { matrix: rows, height, width };
        assert(m.rows() == target);
        m
    }

    /// An empty matrix of the given height and width, to be filled row by row.
    pub fn matrix_builder(height: usize, width: usize) -> (m: Matrix)
        ensures
            m.rows() == Seq::<Seq<i64>>::empty(),
            m.height() == height,
            m.width() == width,
    {
        let m = Matrix { matrix: Vec::new(), height, width };
        assert(m.rows() == Seq::<Seq<i64>>::empty());
        m
    }

    /// Appends a row.
    pub fn push_row(&mut self, row: Row)
        ensures
            final(self).rows() == old(self).rows().push(row@),
            final(self).height() == old(self).height(),
            final(self).width() == old(self).width(),
    {
        self.matrix.push(row);
        assert(self.rows() == old(self).rows().push(row@));
    }

    /// Appends a row of one value to a matrix of width one.
    pub fn push_value(&mut self, v: i64)
        requires
            old(self).width() == 1,
        ensures
            final(self).rows() == old(self).rows().push(seq![v]),
            final(self).height() == old(self).height(),
            final(self).width() == old(self).width(),
    {
        let mut r: Vec<i64> = Vec::new();
        r.push(v);
        assert(r@ == seq![v]);
        self.push_row(Row(r));
    }

    /// The row at `index`.
    pub fn index(&self, index: usize) -> (r: &Row)
        requires
            index < self.rows().len(),
        ensures
            r@ == self.rows()[index as int],
    {
        &self.matrix[index]
    }

    /// The row at `index`, to be changed in place.
    pub fn index_mut(&mut self, index: usize) -> (r: &mut Row)
        requires
            index < old(self).rows().len(),
        ensures
            (*r)@ == old(self).rows()[index as int],
            final(self).rows() == old(self).rows().update(index as int, (*final(r))@),
            final(self).height() == old(self).height(),
            final(self).width() == old(self).width(),
    {
        &mut self.matrix[index]
    }

    /// Applies `f` to every entry held.
    pub fn map<F: Fn(&i64) -> i64>(&mut self, f: F)
        requires
            forall|i: int, k: int|
                0 <= i < old(self).rows().len() && 0 <= k < old(self).rows()[i].len() ==> f.requires(
                    (&old(self).rows()[i][k],),
                ),
        ensures
            final(self).height() == old(self).height(),
            final(self).width() == old(self).width(),
            final(self).rows().len() == old(self).rows().len(),
            forall|i: int|
                0 <= i < old(self).rows().len() ==> (#[trigger] final(self).rows()[i]).len() == old(
                    self,
                ).rows()[i].len(),
            forall|i: int, k: int|
                0 <= i < old(self).rows().len() && 0 <= k < old(self).rows()[i].len() ==> f.ensures(
                    (&old(self).rows()[i][k],),
                    #[trigger] final(self).rows()[i][k],
                ),
    {
        let ghost a = self.rows();
        let n = self.matrix.len();
        let mut rows: Vec<Row> = Vec::new();
        for i in 0..n
            invariant
                n == self.matrix@.len(),
                a == self.rows(),
                forall|i: int, k: int|
                    0 <= i < a.len() && 0 <= k < a[i].len() ==> f.requires((&a[i][k],)),
                rows@.len() == i,
                forall|r: int| 0 <= r < i ==> (#[trigger] rows@[r])@.len() == a[r].len(),
                forall|r: int, k: int|
                    0 <= r < i && 0 <= k < a[r].len() ==> f.ensures(
                        (&a[r][k],),
                        #[trigger] rows@[r]@[k],
                    ),
        {
            assert(self.matrix@[i as int]@ == a[i as int]);
            let row = self.matrix[i].map(&f);
            rows.push(row);
        }
        self.matrix = rows;
    }

    /// Whether `mul` can multiply this matrix by `rhs` (see `product_defined`).
    pub open spec fn mul_defined(&self, rhs: &Matrix) -> bool {
        product_defined(
            self.rows(),
            self.height(),
            self.width(),
            rhs.rows(),
            rhs.height(),
            rhs.width(),
        )
    }

    /// The matrix product of this matrix with `rhs`, which has as many rows
    /// as this matrix has columns.
    pub fn mul(&self, rhs: &Matrix) -> (r: Matrix)
        requires
            self.mul_defined(rhs),
        ensures
            r.height() == self.height(),
            r.width() == rhs.width(),
            r.rows() == product(self.rows(), rhs.rows(), self.height(), self.width(), rhs.width()),
    {
        let h = self.height;
        let w = self.width;
        let bw = rhs.width;
        let ghost a = self.rows();
        let ghost b = rhs.rows();
        let ghost target = product(a, b, h as nat, w as nat, bw as nat);
        let mut rows: Vec<Row> = Vec::new();
        for i in 0..h
            invariant
                h == self.height(),
                w == self.width(),
                bw == rhs.width(),
                a == self.rows(),
                b == rhs.rows(),
                target == product(a, b, h as nat, w as nat, bw as nat),
                product_in_bounds(a, b, h as nat, w as nat, bw as nat),
                product_fits(a, b, h as nat, w as nat, bw as nat),
                rows@.len() == i,
                forall|k: int| 0 <= k < i ==> (#[trigger] rows@[k])@ == target[k],
        {
            let mut row: Vec<i64> = Vec::new();
            for j in 0..bw
                invariant
                    0 <= i < h,
                    h == self.height(),
                    w == self.width(),
                    bw == rhs.width(),
                    a == self.rows(),
                    b == rhs.rows(),
                    target == product(a, b, h as nat, w as nat, bw as nat),
                    product_in_bounds(a, b, h as nat, w as nat, bw as nat),
                    product_fits(a, b, h as nat, w as nat, bw as nat),
                    row@ == target[i as int].subrange(0, j as int),
            {
                let mut sum: i64 = 0;
                for k in 0..w
                    invariant
                        0 <= i < h,
                        0 <= j < bw,
                        w == self.width(),
                        a == self.rows(),
                        b == rhs.rows(),
                        product_in_bounds(a, b, h as nat, w as nat, bw as nat),
                        product_fits(a, b, h as nat, w as nat, bw as nat),
                        sum == dot(a, b, i as int, j as int, k as nat),
                {
                    assert(i < a.len() && k < a[i as int].len());
                    assert(k < b.len() && j < b[k as int].len());
                    assert(fits_i64(a[i as int][k as int] * b[k as int][j as int]));
                    let p = self.matrix[i].0[k] * rhs.matrix[k].0[j];
                    sum = sum + p;
                }
                row.push(sum);
                assert(row@ == target[i as int].subrange(0, j + 1));
            }
            assert(row@ == target[i as int]);
            rows.push(Row(row));
        }
        let r = Matrix { matrix: rows, height: h, width: bw };
        assert(r.rows() == target);
        r
    }

    /// The product of this matrix with `rhs` where it is defined (see
    /// `mul_defined`), and `None` where `mul` would fail.
    pub fn checked_mul(&self, rhs: &Matrix) -> (r: Option<Matrix>)
        ensures
            r is Some <==> self.mul_defined(rhs),
            r matches Some(p) ==> {
                &&& p.height() == self.height()
                &&& p.width() == rhs.width()
                &&& p.rows() == product(
                    self.rows(),
                    rhs.rows(),
                    self.height(),
                    self.width(),
                    rhs.width(),
                )
            },
    {
        let h = self.height;
        let w = self.width;
        let bw = rhs.width;
        let ghost a = self.rows();
        let ghost b = rhs.rows();
        if rhs.height != w || h == 0 || bw == 0 {
            return None;
        }
        if rhs.height.checked_mul(w).is_none() {
            return None;
        }
        if w > 0 {
            if self.matrix.len() < h {
                return None;
            }
            for i in 0..h
                invariant
                    h <= a.len(),
                    h == self.height(),
                    w == self.width(),
                    a == self.rows(),
                    forall|k: int| 0 <= k < i ==> w <= #[trigger] a[k].len(),
            {
                if self.matrix[i].0.len() < w {
                    assert(a[i as int].len() < w);
                    return None;
                }
            }
            if rhs.matrix.len() < w {
                return None;
            }
            for k in 0..w
                invariant
                    w <= b.len(),
                    w == self.width(),
                    bw == rhs.width(),
                    b == rhs.rows(),
                    forall|t: int| 0 <= t < k ==> bw <= #[trigger] b[t].len(),
            {
                if rhs.matrix[k].0.len() < bw {
                    assert(b[k as int].len() < bw);
                    return None;
                }
            }
        }
        assert(product_in_bounds(a, b, h as nat, w as nat, bw as nat));
        let ghost target = product(a, b, h as nat, w as nat, bw as nat);
        let mut rows: Vec<Row> = Vec::new();
        for i in 0..h
            invariant
                h == self.height(),
                w == self.width(),
                bw == rhs.width(),
                a == self.rows(),
                b == rhs.rows(),
                target == product(a, b, h as nat, w as nat, bw as nat),
                product_in_bounds(a, b, h as nat, w as nat, bw as nat),
                forall|ii: int, j: int, k: int|
                    #![trigger a[ii][k], b[k][j]]
                    0 <= ii < i && 0 <= j < bw && 0 <= k < w ==> fits_i64(a[ii][k] * b[k][j])
                        && fits_i64(dot(a, b, ii, j, (k + 1) as nat)),
                rows@.len() == i,
                forall|k: int| 0 <= k < i ==> (#[trigger] rows@[k])@ == target[k],
        {
            let mut row: Vec<i64> = Vec::new();
            for j in 0..bw
                invariant
                    0 <= i < h,
                    h == self.height(),
                    w == self.width(),
                    bw == rhs.width(),
                    a == self.rows(),
                    b == rhs.rows(),
                    target == product(a, b, h as nat, w as nat, bw as nat),
                    product_in_bounds(a, b, h as nat, w as nat, bw as nat),
                    forall|ii: int, jj: int, k: int|
                        #![trigger a[ii][k], b[k][jj]]
                        (0 <= ii < i && 0 <= jj < bw || ii == i && 0 <= jj < j) && 0 <= k < w
                            ==> fits_i64(a[ii][k] * b[k][jj]) && fits_i64(
                            dot(a, b, ii, jj, (k + 1) as nat),
                        ),
                    row@ == target[i as int].subrange(0, j as int),
            {
                let mut sum: i64 = 0;
                for k in 0..w
                    invariant
                        0 <= i < h,
                        0 <= j < bw,
                        h == self.height(),
                        bw == rhs.width(),
                        w == self.width(),
                        a == self.rows(),
                        b == rhs.rows(),
                        product_in_bounds(a, b, h as nat, w as nat, bw as nat),
                        forall|ii: int, jj: int, kk: int|
                            #![trigger a[ii][kk], b[kk][jj]]
                            (0 <= ii < i && 0 <= jj < bw || ii == i && 0 <= jj < j || ii == i
                                && jj == j && kk < k) && 0 <= kk < w ==> fits_i64(
                                a[ii][kk] * b[kk][jj],
                            ) && fits_i64(dot(a, b, ii, jj, (kk + 1) as nat)),
                        sum == dot(a, b, i as int, j as int, k as nat),
                {
                    assert(i < a.len() && k < a[i as int].len());
                    assert(k < b.len() && j < b[k as int].len());
                    let x = self.matrix[i].0[k];
                    let y = rhs.matrix[k].0[j];
                    assert(-0x8000_0000_0000_0000_0000_0000_0000_0000 <= (x as int) * (y as int)
                        <= 0x7fff_ffff_ffff_ffff_ffff_ffff_ffff_ffff) by (nonlinear_arith)
                        requires
                            i64::MIN <= x <= i64::MAX,
                            i64::MIN <= y <= i64::MAX,
                    ;
                    let p: i128 = (x as i128) * (y as i128);
                    if p < (i64::MIN as i128) || p > (i64::MAX as i128) {
                        assert(!fits_i64(a[i as int][k as int] * b[k as int][j as int]));
                        return None;
                    }
                    let t: i128 = (sum as i128) + p;
                    if t < (i64::MIN as i128) || t > (i64::MAX as i128) {
                        assert(!fits_i64(dot(a, b, i as int, j as int, (k + 1) as nat)));
                        assert(!product_fits(a, b, h as nat, w as nat, bw as nat));
                        return None;
                    }
                    sum = t as i64;
                }
                row.push(sum);
                assert(row@ == target[i as int].subrange(0, j + 1));
            }
            assert(row@ == target[i as int]);
            rows.push(Row(row));
        }
        let r = Matrix { matrix: rows, height: h, width: bw };
        assert(r.rows() == target);
        Some(r)
    }

    /// Whether Rust's remainder by `m` is defined for every entry held.
    pub fn can_rem(&self, m: i64) -> (b: bool)
        ensures
            b == rem_rows_defined(self.rows(), m),
    {
        let ghost a = self.rows();
        if m == 0 {
            if self.matrix.len() > 0 && self.matrix[0].0.len() > 0 {
                assert(!rem_defined(a[0][0] as int, m as int));
                assert(!rem_all_defined(a[0], m));
                return false;
            }
        }
        let n = self.matrix.len();
        for i in 0..n
            invariant
                n == a.len(),
                a == self.rows(),
                forall|k: int| 0 <= k < i ==> rem_all_defined(#[trigger] a[k], m),
        {
            let len = self.matrix[i].0.len();
            for j in 0..len
                invariant
                    0 <= i < n,
                    n == a.len(),
                    a == self.rows(),
                    len == a[i as int].len(),
                    forall|t: int| 0 <= t < j ==> rem_defined(#[trigger] a[i as int][t] as int, m as int),
            {
                let x = self.matrix[i].0[j];
                if m == 0 || (x == i64::MIN && m == -1) {
                    assert(!rem_defined(a[i as int][j as int] as int, m as int));
                    return false;
                }
            }
        }
        true
    }

    /// Adds the rows of `rhs` into the rows of this matrix, as far as both
    /// have rows.
    pub fn add_assign(&mut self, rhs: Matrix)
        requires
            add_rows_fits(old(self).rows(), rhs.rows()),
        ensures
            final(self).rows() == add_rows(old(self).rows(), rhs.rows()),
            final(self).height() == old(self).height(),
            final(self).width() == old(self).width(),
    {
        let ghost a = self.rows();
        let ghost b = rhs.rows();
        let n = self.matrix.len();
        let m = rhs.matrix.len();
        for i in 0..n
            invariant
                n == a.len(),
                m == b.len(),
                b == rhs.rows(),
                add_rows_fits(a, b),
                self.matrix@.len() == n,
                self.height() == old(self).height(),
                self.width() == old(self).width(),
                a == old(self).rows(),
                forall|k: int| 0 <= k < i ==> (#[trigger] self.matrix@[k])@ == add_rows(a, b)[k],
                forall|k: int| i <= k < n ==> (#[trigger] self.matrix@[k])@ == a[k],
        {
            if i < m {
                assert(add_into_fits(a[i as int], b[i as int]));
                self.matrix[i].add_assign(&rhs.matrix[i]);
            }
        }
        assert(self.rows() == add_rows(a, b));
    }

    /// The sum of two matrices of the same height and width; the rows are
    /// added as `add_assign` does.
    pub fn add(self, rhs: Matrix) -> (r: Matrix)
        requires
            self.height() == rhs.height(),
            self.width() == rhs.width(),
            add_rows_fits(self.rows(), rhs.rows()),
        ensures
            r.rows() == add_rows(self.rows(), rhs.rows()),
            r.height() == self.height(),
            r.width() == self.width(),
    {
        let mut r = self;
        r.add_assign(rhs);
        r
    }

    /// Adds `rhs` into the first row of a matrix of height one.
    pub fn add_assign_row(&mut self, rhs: &Row)
        requires
            old(self).height() == 1,
            old(self).rows().len() >= 1,
            add_into_fits(old(self).rows()[0], rhs@),
        ensures
            final(self).rows() == old(self).rows().update(0, add_into(old(self).rows()[0], rhs@)),
            final(self).height() == old(self).height(),
            final(self).width() == old(self).width(),
    {
        self.matrix[0].add_assign(rhs);
        assert(self.rows() == old(self).rows().update(0, add_into(old(self).rows()[0], rhs@)));
    }

    /// The one-row matrix whose row is the element-wise sum of the first row
    /// of this matrix of height one and `rhs`, as long as the shorter of the two.
    pub fn add_row(self, rhs: Row) -> (r: Matrix)
        requires
            self.height() == 1,
            self.rows().len() >= 1,
            add_into_fits(self.rows()[0], rhs@),
        ensures
            r.rows() == seq![zip_sum(self.rows()[0], rhs@)],
            r.height() == 1,
            r.width() == self.width(),
    {
        let mut m = self;
        let mut first = Row(Vec::new());
        std::mem::swap(&mut first, &mut m.matrix[0]);
        assert(first@ == self.rows()[0]);
        let sum = first.add(rhs);
        let mut rows: Vec<Row> = Vec::new();
        rows.push(sum);
        let r = Matrix { matrix: rows, height: 1, width: m.width };
        assert(r.rows() == seq![zip_sum(self.rows()[0], rhs@)]);
        r
    }

    /// The matrix with Rust's remainder by `m` taken of every entry.
    pub fn rem(self, m: i64) -> (r: Matrix)
        requires
            rem_rows_defined(self.rows(), m),
        ensures
            r.rows() == rem_rows(self.rows(), m),
            r.height() == self.height(),
            r.width() == self.width(),
    {
        let ghost a = self.rows();
        let mut s = self;
        let n = s.matrix.len();
        for i in 0..n
            invariant
                n == a.len(),
                rem_rows_defined(a, m),
                s.matrix@.len() == n,
                s.height() == self.height(),
                s.width() == self.width(),
                forall|k: int| 0 <= k < i ==> (#[trigger] s.matrix@[k])@ == rem_rows(a, m)[k],
                forall|k: int| i <= k < n ==> (#[trigger] s.matrix@[k])@ == a[k],
        {
            assert(rem_all_defined(a[i as int], m));
            s.matrix[i].rem_assign(m);
        }
        assert(s.rows() == rem_rows(a, m));
        s
    }
}

// ---------------------------------------------------------------------------
// Text forms
// ---------------------------------------------------------------------------

/// A row as text: its values in decimal, separated by single spaces.
pub open spec fn row_text(r: Seq<i64>) -> Seq<u8> {
    join_decimal(r, space())
}

/// A row as debugging text: `[`, its values separated by `, `, and `]`.
pub open spec fn row_debug_text(r: Seq<i64>) -> Seq<u8> {
    seq![91u8] + join_decimal(r, seq![44u8, 32u8]) + seq![93u8]
}

/// The first `height` rows as text, separated by single spaces: all the
/// values of a matrix on one line.
pub open spec fn matrix_text(rows: Seq<Seq<i64>>, height: nat) -> Seq<u8> {
    join(rows.take(height as int).map_values(|r: Seq<i64>| row_text(r)), space())
}

/// The first entries of the first `k` rows, each followed by a space.
pub open spec fn column_debug_text(rows: Seq<Seq<i64>>, k: nat) -> Seq<u8>
    decreases k,
{
    if k == 0 {
        seq![]
    } else {
        column_debug_text(rows, (k - 1) as nat) + decimal(rows[k - 1][0] as int) + space()
    }
}

/// A matrix as debugging text: for a single column, its values each
/// followed by a space; otherwise the rows as text, one per line.
pub open spec fn matrix_debug_text(rows: Seq<Seq<i64>>, height: nat, width: nat) -> Seq<u8> {
    if width == 1 {
        column_debug_text(rows, height)
    } else {
        join(rows.take(height as int).map_values(|r: Seq<i64>| row_text(r)), seq![10u8])
    }
}

/// Whether the text forms of a matrix can be written: its height is at
/// least one, it holds that many rows, and none of them is empty.
pub open spec fn printable(rows: Seq<Seq<i64>>, height: nat) -> bool {
    &&& height >= 1
    &&& rows.len() >= height
    &&& forall|i: int| 0 <= i < height ==> (#[trigger] rows[i]).len() >= 1
}

impl Row {
    /// The row as text (see `row_text`).
    pub fn to_text(&self) -> (t: Vec<u8>)
        requires
            self@.len() >= 1,
        ensures
            t@ == row_text(self@),
    {
        let mut out: Vec<u8> = Vec::new();
        let sep: [u8; 1] = [32u8];
        assert(sep@ == space());
        write_joined(self.0.as_slice(), &sep, &mut out);
        out
    }

    /// The row as debugging text (see `row_debug_text`).
    pub fn to_debug_text(&self) -> (t: Vec<u8>)
        requires
            self@.len() >= 1,
        ensures
            t@ == row_debug_text(self@),
    {
        let mut out: Vec<u8> = Vec::new();
        out.push(91u8);
        let sep: [u8; 2] = [44u8, 32u8];
        assert(sep@ == seq![44u8, 32u8]);
        write_joined(self.0.as_slice(), &sep, &mut out);
        out.push(93u8);
        assert(out@ == row_debug_text(self@));
        out
    }
}

impl Matrix {
    fn write_rows(&self, sep: u8, out: &mut Vec<u8>)
        requires
            printable(self.rows(), self.height()),
        ensures
            final(out)@ == old(out)@ + join(
                self.rows().take(self.height() as int).map_values(|r: Seq<i64>| row_text(r)),
                seq![sep],
            ),
    {
        let h = self.height;
        let ghost parts = self.rows().take(h as int).map_values(|r: Seq<i64>| row_text(r));
        for i in 0..h
            invariant
                h == self.height(),
                printable(self.rows(), self.height()),
                parts == self.rows().take(h as int).map_values(|r: Seq<i64>| row_text(r)),
                out@ == old(out)@ + join(parts.subrange(0, i as int), seq![sep]),
        {
            if i > 0 {
                out.push(sep);
            }
            assert(self.rows()[i as int].len() >= 1);
            let t = self.matrix[i].to_text();
            let ghost before = out@;
            let n = t.len();
            for j in 0..n
                invariant
                    n == t@.len(),
                    out@ == before + t@.subrange(0, j as int),
            {
                out.push(t[j]);
                assert(out@ == before + t@.subrange(0, j + 1));
            }
            proof {
                assert(t@.subrange(0, n as int) == t@);
                let post = parts.subrange(0, i + 1);
                assert(post.drop_last() == parts.subrange(0, i as int));
                assert(post.last() == row_text(self.rows()[i as int]));
            }
        }
        assert(parts.subrange(0, h as int) == parts);
    }

    /// All the values on one line (see `matrix_text`).
    pub fn to_text(&self) -> (t: Vec<u8>)
        requires
            printable(self.rows(), self.height()),
        ensures
            t@ == matrix_text(self.rows(), self.height()),
    {
        let mut out: Vec<u8> = Vec::new();
        self.write_rows(32u8, &mut out);
        assert(out@ == matrix_text(self.rows(), self.height()));
        out
    }

    /// The matrix as debugging text (see `matrix_debug_text`).
    pub fn to_debug_text(&self) -> (t: Vec<u8>)
        requires
            printable(self.rows(), self.height()),
        ensures
            t@ == matrix_debug_text(self.rows(), self.height(), self.width()),
    {
        let mut out: Vec<u8> = Vec::new();
        if self.width == 1 {
            let h = self.height;
            for i in 0..h
                invariant
                    h == self.height(),
                    printable(self.rows(), self.height()),
                    out@ == column_debug_text(self.rows(), i as nat),
            {
                assert(self.rows()[i as int].len() >= 1);
                write_i64(self.matrix[i].0[0], &mut out);
                out.push(32u8);
            }
        } else {
            self.write_rows(10u8, &mut out);
        }
        out
    }
}

// ---------------------------------------------------------------------------
// The public equation
// ---------------------------------------------------------------------------

/// The public key: a system of linear equations `matrix * key = result`
/// modulo `modulus`, whose right-hand sides carry small errors.
pub struct Equation {
    matrix: Matrix,
    result: Matrix,
    modulus: i64,
}

impl Equation {
    /// The matrix of coefficients.
    pub closed spec fn matrix(&self) -> Matrix {
        self.matrix
    }

    /// The right-hand sides, one row each.
    pub closed spec fn result(&self) -> Matrix {
        self.result
    }

    /// The modulus.
    pub closed spec fn modulus(&self) -> i64 {
        self.modulus
    }

    /// The equation with the given coefficients, right-hand sides and modulus.
    pub fn from_matrices(matrix: Matrix, result: Matrix, modulus: i64) -> (e: Equation)
        ensures
            e.matrix() == matrix,
            e.result() == result,
            e.modulus() == modulus,
    {
        Equation { matrix, result, modulus }
    }

    /// The height of the matrix of coefficients.
    pub fn get_height(&self) -> (h: usize)
        ensures
            h == self.matrix().height(),
    {
        self.matrix.height
    }

    /// The width of the matrix of coefficients.
    pub fn get_width(&self) -> (w: usize)
        ensures
            w == self.matrix().width(),
    {
        self.matrix.width
    }

    /// The modulus.
    pub fn get_modulus(&self) -> (m: i64)
        ensures
            m == self.modulus(),
    {
        self.modulus
    }

    /// The matrix of coefficients.
    pub fn get_matrix(&self) -> (m: &Matrix)
        ensures
            *m == self.matrix(),
    {
        &self.matrix
    }

    /// The right-hand sides.
    pub fn get_result(&self) -> (m: &Matrix)
        ensures
            *m == self.result(),
    {
        &self.result
    }
}

/// The matrix of the given height whose values are the words of `line`,
/// row after row, with its width; `None` when a word is not an `i64` or the
/// values do not make at least one full column.
pub open spec fn matrix_from_text(line: Seq<char>, height: nat) -> Option<(Seq<Seq<i64>>, nat)> {
    match parse_i64_words(line) {
        Some(v) => if height > 0 && v.len() % height == 0 && v.len() >= height {
            Some((chunks(v, height, v.len() / height), v.len() / height))
        } else {
            None
        },
        None => None,
    }
}

impl Matrix {
    /// Reads a matrix of the given height from a line of values (see
    /// `matrix_from_text`).
    pub fn from_text(line: &str, height: usize) -> (r: Option<Matrix>)
        ensures
            r is Some <==> matrix_from_text(line@, height as nat) is Some,
            r matches Some(m) ==> {
                let t = matrix_from_text(line@, height as nat)->0;
                &&& m.rows() == t.0
                &&& m.width() == t.1
                &&& m.height() == height
            },
    {
        let v = match parse_i64_line(line) {
            Some(v) => v,
            None => { return None; },
        };
        if height == 0 || v.len() % height != 0 || v.len() < height {
            return None;
        }
        Some(Matrix::from_slice(v.as_slice(), height))
    }

    /// Whether the text forms of this matrix can be written (see `printable`).
    pub fn is_printable(&self) -> (b: bool)
        ensures
            b == printable(self.rows(), self.height()),
    {
        let h = self.height;
        if h < 1 || self.matrix.len() < h {
            return false;
        }
        for i in 0..h
            invariant
                h == self.height(),
                h <= self.rows().len(),
                forall|k: int| 0 <= k < i ==> (#[trigger] self.rows()[k]).len() >= 1,
        {
            if self.matrix[i].0.len() < 1 {
                assert(self.rows()[i as int].len() < 1);
                return false;
            }
        }
        true
    }
}

/// The values of the rows one after the other.
pub open spec fn flatten_rows(rs: Seq<Seq<i64>>) -> Seq<i64>
    decreases rs.len(),
{
    if rs.len() == 0 {
        seq![]
    } else {
        flatten_rows(rs.drop_last()) + rs.last()
    }
}

proof fn lemma_join_append(a: Seq<Seq<u8>>, b: Seq<Seq<u8>>, sep: Seq<u8>)
    requires
        a.len() > 0,
        b.len() > 0,
    ensures
        join(a + b, sep) == join(a, sep) + sep + join(b, sep),
    decreases b.len(),
{
    if b.len() == 1 {
        assert((a + b).drop_last() =~= a);
        assert((a + b).last() == b[0]);
    } else {
        lemma_join_append(a, b.drop_last(), sep);
        assert((a + b).drop_last() =~= a + b.drop_last());
        assert((a + b).last() == b.last());
        assert(join(a, sep) + sep + join(b.drop_last(), sep) + sep + b.last() =~= join(a, sep) + sep
            + (join(b.drop_last(), sep) + sep + b.last()));
    }
}

proof fn lemma_rows_text_flat(rs: Seq<Seq<i64>>)
    requires
        forall|i: int| 0 <= i < rs.len() ==> (#[trigger] rs[i]).len() >= 1,
    ensures
        join(rs.map_values(|r: Seq<i64>| row_text(r)), space()) == join_decimal(flatten_rows(rs), space()),
        rs.len() > 0 ==> flatten_rows(rs).len() > 0,
    decreases rs.len(),
{
    if rs.len() > 0 {
        let r0 = rs.drop_last();
        let last = rs.last();
        assert(rs[rs.len() - 1].len() >= 1);
        assert forall|i: int| 0 <= i < r0.len() implies (#[trigger] r0[i]).len() >= 1 by {
            assert(r0[i] == rs[i]);
        }
        lemma_rows_text_flat(r0);
        let f = |x: i64| decimal(x as int);
        let fl0 = flatten_rows(r0);
        assert((fl0 + last).map_values(f) =~= fl0.map_values(f) + last.map_values(f));
        assert(rs.map_values(|r: Seq<i64>| row_text(r)) =~= r0.map_values(|r: Seq<i64>| row_text(r)).push(
            row_text(last),
        ));
        if r0.len() == 0 {
            assert(fl0 =~= Seq::<i64>::empty());
            assert(fl0 + last =~= last);
            assert(r0.map_values(|r: Seq<i64>| row_text(r)).push(row_text(last)) =~= seq![row_text(last)]);
        } else {
            lemma_join_append(fl0.map_values(f), last.map_values(f), space());
            assert(seq![row_text(last)] == seq![join(last.map_values(f), space())]);
            lemma_join_append(r0.map_values(|r: Seq<i64>| row_text(r)), seq![row_text(last)], space());
            assert(r0.map_values(|r: Seq<i64>| row_text(r)) + seq![row_text(last)] =~= r0.map_values(
                |r: Seq<i64>| row_text(r),
            ).push(row_text(last)));
        }
    }
}

proof fn lemma_chunks_of_flatten(rs: Seq<Seq<i64>>, w: nat)
    requires
        w > 0,
        forall|i: int| 0 <= i < rs.len() ==> (#[trigger] rs[i]).len() == w,
    ensures
        flatten_rows(rs).len() == rs.len() * w,
        forall|i: int| 0 <= i < rs.len() ==> #[trigger] flatten_rows(rs).subrange(i * w, i * w + w) == rs[i],
    decreases rs.len(),
{
    if rs.len() > 0 {
        let r0 = rs.drop_last();
        let n = rs.len();
        assert forall|i: int| 0 <= i < r0.len() implies (#[trigger] r0[i]).len() == w by {
            assert(r0[i] == rs[i]);
        }
        lemma_chunks_of_flatten(r0, w);
        assert(rs[n - 1].len() == w);
        let fl0 = flatten_rows(r0);
        assert(fl0.len() == (n - 1) * w);
        assert((n - 1) * w + w == n * w) by (nonlinear_arith);
        assert forall|i: int| 0 <= i < rs.len() implies #[trigger] flatten_rows(rs).subrange(i * w, i * w + w)
            == rs[i] by {
            lemma_chunk_index(i, 0, n as int, w as int);
            if i < n - 1 {
                lemma_chunk_index(i, 0, (n - 1) as int, w as int);
                assert(flatten_rows(rs).subrange(i * w, i * w + w) =~= fl0.subrange(i * w, i * w + w));
                assert(r0[i] == rs[i]);
            } else {
                assert(i * w == (n - 1) * w);
                assert(flatten_rows(rs).subrange(i * w, i * w + w) =~= rs.last());
            }
        }
    }
}

/// A matrix built row by row is the matrix cut from its rows laid end to
/// end: for `h >= 1` rows of one same width `w >= 1` (what `matrix_builder(h,
/// w)` followed by `push_row` of each row in turn holds, with height `h` and
/// width `w`), `from_slice` of their concatenation with height `h` is
/// accepted and gives back the same rows, height and width.
pub proof fn law_built_matrix_is_from_slice(rows: Seq<Seq<i64>>, h: nat, w: nat)
    requires
        h >= 1,
        w >= 1,
        rows.len() == h,
        forall|i: int| 0 <= i < h ==> (#[trigger] rows[i]).len() == w,
    ensures
        flatten_rows(rows).len() % h == 0,
        flatten_rows(rows).len() >= h,
        flatten_rows(rows).len() / h == w,
        chunks(flatten_rows(rows), h, flatten_rows(rows).len() / h) == rows,
{
    lemma_chunks_of_flatten(rows, w);
    let v = flatten_rows(rows);
    lemma_chunks_shape(v, h, w);
    assert(chunks(v, h, w) =~= rows);
}

/// A matrix written as text reads back as itself: for a height of at least
/// one and rows of one same positive width, the text of the first `height`
/// rows, read with that height, gives those rows and that width.
pub proof fn law_matrix_text_read_back(rows: Seq<Seq<i64>>, height: nat, width: nat)
    requires
        height >= 1,
        width >= 1,
        rows.len() >= height,
        forall|i: int| 0 <= i < height ==> (#[trigger] rows[i]).len() == width,
    ensures
        matrix_from_text(ascii(matrix_text(rows, height)), height) == Some((rows.take(height as int), width)),
{
    let rs = rows.take(height as int);
    assert forall|i: int| 0 <= i < rs.len() implies (#[trigger] rs[i]).len() >= 1 && rs[i].len() == width by {
        assert(rs[i] == rows[i]);
    }
    lemma_rows_text_flat(rs);
    lemma_chunks_of_flatten(rs, width);
    let v = flatten_rows(rs);
    lemma_joined_read_back(v);
    lemma_chunks_shape(v, height, width);
    assert(chunks(v, height, width) =~= rs);
}

/// The public key read from its three lines of text: the modulus and the
/// height (an `i64`, taken as a `usize` as Rust's `as` does) from the first
/// line, the matrix of coefficients from the second and the right-hand sides
/// from the third; `None` where reading fails.
pub open spec fn equation_from_text(header: Seq<char>, matrix_line: Seq<char>, result_line: Seq<char>) -> Option<
    (i64, nat, (Seq<Seq<i64>>, nat), (Seq<Seq<i64>>, nat)),
> {
    match parse_i64_words(header) {
        Some(hv) => if hv.len() >= 2 {
            let height = (hv[1] as usize) as nat;
            match (matrix_from_text(matrix_line, height), matrix_from_text(result_line, height)) {
                (Some(m), Some(r)) => Some((hv[0], height, m, r)),
                _ => None,
            }
        } else {
            None
        },
        None => None,
    }
}

/// The first line of the public key's text: the modulus and the height.
pub open spec fn equation_header(eq: Equation) -> Seq<u8> {
    decimal(eq.modulus() as int) + space() + decimal(eq.matrix().height() as int)
}

/// The public key written as text reads back as itself: when both
/// matrices have the same height, at least one and at most `i64::MAX`, and
/// their first `height` rows all have their matrix's width, at least one,
/// its three lines read back as the modulus, the height, and the rows and
/// widths of both matrices.
pub proof fn law_equation_text_read_back(eq: Equation)
    requires
        eq.matrix().height() >= 1,
        eq.matrix().height() <= i64::MAX,
        eq.result().height() == eq.matrix().height(),
        eq.matrix().width() >= 1,
        eq.result().width() >= 1,
        eq.matrix().rows().len() >= eq.matrix().height(),
        eq.result().rows().len() >= eq.matrix().height(),
        forall|i: int| 0 <= i < eq.matrix().height() ==> (#[trigger] eq.matrix().rows()[i]).len()
            == eq.matrix().width(),
        forall|i: int| 0 <= i < eq.matrix().height() ==> (#[trigger] eq.result().rows()[i]).len()
            == eq.result().width(),
    ensures
        equation_text(eq) == equation_header(eq) + seq![10u8] + matrix_text(
            eq.matrix().rows(),
            eq.matrix().height(),
        ) + seq![10u8] + matrix_text(eq.result().rows(), eq.result().height()) + seq![10u8],
        equation_from_text(
            ascii(equation_header(eq)),
            ascii(matrix_text(eq.matrix().rows(), eq.matrix().height())),
            ascii(matrix_text(eq.result().rows(), eq.result().height())),
        ) == Some(
            (
                eq.modulus(),
                eq.matrix().height(),
                (eq.matrix().rows().take(eq.matrix().height() as int), eq.matrix().width()),
                (eq.result().rows().take(eq.matrix().height() as int), eq.result().width()),
            ),
        ),
{
    let h = eq.matrix().height();
    let hv = seq![eq.modulus(), h as i64];
    assert(hv.drop_last() =~= seq![eq.modulus()]);
    assert(join_decimal(hv, space()) =~= equation_header(eq)) by {
        let parts = hv.map_values(|x: i64| decimal(x as int));
        assert(parts.drop_last() =~= seq![decimal(eq.modulus() as int)]);
        assert(parts.last() == decimal(h as int));
        assert(join(parts.drop_last(), space()) == decimal(eq.modulus() as int));
        assert(join(parts, space()) == join(parts.drop_last(), space()) + space() + parts.last());
    }
    lemma_joined_read_back(hv);
    assert(((h as i64) as usize) as nat == h);
    law_matrix_text_read_back(eq.matrix().rows(), h, eq.matrix().width());
    law_matrix_text_read_back(eq.result().rows(), h, eq.result().width());
}

/// The public key as text: the modulus and the height on the first line,
/// then the matrix of coefficients and the right-hand sides, each on a line.
pub open spec fn equation_text(eq: Equation) -> Seq<u8> {
    decimal(eq.modulus() as int) + space() + decimal(eq.matrix().height() as int) + seq![10u8]
        + matrix_text(eq.matrix().rows(), eq.matrix().height()) + seq![10u8] + matrix_text(
        eq.result().rows(),
        eq.result().height(),
    ) + seq![10u8]
}

/// The public key as debugging text: both matrices as debugging text and
/// the modulus, each followed by a line break.
pub open spec fn equation_debug_text(eq: Equation) -> Seq<u8> {
    matrix_debug_text(eq.matrix().rows(), eq.matrix().height(), eq.matrix().width()) + seq![10u8]
        + matrix_debug_text(eq.result().rows(), eq.result().height(), eq.result().width()) + seq![
        10u8,
    ] + decimal(eq.modulus() as int) + seq![10u8]
}

impl Equation {
    /// The public key as text (see `equation_text`).
    pub fn to_text(&self) -> (t: Vec<u8>)
        requires
            printable(self.matrix().rows(), self.matrix().height()),
            printable(self.result().rows(), self.result().height()),
        ensures
            t@ == equation_text(*self),
    {
        let mut out: Vec<u8> = Vec::new();
        write_i64(self.modulus, &mut out);
        out.push(32u8);
        assert(self.matrix.height <= u64::MAX);
        push_usize(self.matrix.height, &mut out);
        out.push(10u8);
        self.matrix.write_rows(32u8, &mut out);
        out.push(10u8);
        self.result.write_rows(32u8, &mut out);
        out.push(10u8);
        out
    }

    /// Reads the public key from its three lines of text (see
    /// `equation_from_text`).
    pub fn from_text(header: &str, matrix_line: &str, result_line: &str) -> (r: Option<Equation>)
        ensures
            r is Some <==> equation_from_text(header@, matrix_line@, result_line@) is Some,
            r matches Some(e) ==> {
                let t = equation_from_text(header@, matrix_line@, result_line@)->0;
                &&& e.modulus() == t.0
                &&& e.matrix().height() == t.1
                &&& e.matrix().rows() == (t.2).0
                &&& e.matrix().width() == (t.2).1
                &&& e.result().height() == t.1
                &&& e.result().rows() == (t.3).0
                &&& e.result().width() == (t.3).1
            },
    {
        let hv = match parse_i64_line(header) {
            Some(v) => v,
            None => { return None; },
        };
        if hv.len() < 2 {
            return None;
        }
        let modulus = hv[0];
        let height = hv[1] as usize;
        let matrix = match Matrix::from_text(matrix_line, height) {
            Some(m) => m,
            None => { return None; },
        };
        let result = match Matrix::from_text(result_line, height) {
            Some(m) => m,
            None => { return None; },
        };
        Some(Equation::from_matrices(matrix, result, modulus))
    }

    /// The public key as debugging text (see `equation_debug_text`).
    pub fn to_debug_text(&self) -> (t: Vec<u8>)
        requires
            printable(self.matrix().rows(), self.matrix().height()),
            printable(self.result().rows(), self.result().height()),
        ensures
            t@ == equation_debug_text(*self),
    {
        let mut out = self.matrix.to_debug_text();
        out.push(10u8);
        let r = self.result.to_debug_text();
        let ghost before = out@;
        let n = r.len();
        for j in 0..n
            invariant
                n == r@.len(),
                out@ == before + r@.subrange(0, j as int),
        {
            out.push(r[j]);
            assert(out@ == before + r@.subrange(0, j + 1));
        }
        assert(r@.subrange(0, n as int) == r@);
        out.push(10u8);
        write_i64(self.modulus, &mut out);
        out.push(10u8);
        out
    }
}

fn push_usize(n: usize, out: &mut Vec<u8>)
    ensures
        final(out)@ == old(out)@ + decimal(n as int),
{
    crate::text::write_u64(n as u64, out);
}

impl From<Row> for Matrix {
    /// The matrix of height one whose only row is `row`.
    fn from(row: Row) -> (m: Matrix)
        ensures
            m.rows() == seq![row@],
            m.height() == 1,
            m.width() == row@.len(),
    {
        let width = row.0.len();
        let mut rows: Vec<Row> = Vec::new();
        rows.push(row);
        let m = Matrix { matrix: rows, height: 1, width };
        assert(m.rows() == seq![row@]);
        m
    }
}

impl vstd::std_specs::convert::FromSpecImpl<Row> for Matrix {
    open spec fn obeys_from_spec() -> bool {
        false
    }

    open spec fn from_spec(v: Row) -> Matrix {
        arbitrary()
    }
}

} // verus!
