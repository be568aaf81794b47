//! Key generation: a pseudo-random matrix of coefficients and the
//! right-hand sides that the private key solves, with small errors added.
use vstd::prelude::*;
use crate::arith::{fits_i64, trunc_rem, rem_defined};
use crate::rng::{rng, rng_output, rng_state, Rng};
use super::{
    Matrix, Equation, chunks, lemma_chunks_shape, product, product_in_bounds, product_fits,
    rem_rows, rem_rows_defined,
};

verus! {

/// The seed of the generator that draws the errors.
pub const NOISE_SEED: u64 = 714014738;

/// The `k`-th draw of a generator seeded with `seed`, read as an `i64`.
pub open spec fn draw_i64(seed: u64, k: nat) -> i64 {
    rng_output(seed, k) as i64
}

/// The error added to the right-hand side of row `i`: the `i`-th draw of
/// the error generator modulo 10 (from 0 to 9), subtracted on even rows and
/// added on odd ones.
pub open spec fn noise(i: nat) -> int {
    let v = (rng_output(NOISE_SEED, i) % 10) as int;
    if i % 2 == 1 {
        v
    } else {
        -v
    }
}

/// The rows of `m` with `noise(i)` added to the first entry of each row `i`
/// below `height`.
pub open spec fn add_noise_rows(m: Seq<Seq<i64>>, height: nat) -> Seq<Seq<i64>> {
    Seq::new(
        m.len(),
        |i: int|
            if i < height {
                m[i].update(0, (m[i][0] + noise(i as nat)) as i64)
            } else {
                m[i]
            },
    )
}

/// Whether `add_noise` can add the errors to the first `height` rows of `m`.
pub open spec fn add_noise_defined(m: Seq<Seq<i64>>, height: nat) -> bool {
    &&& height <= m.len()
    &&& forall|i: int|
        0 <= i < height ==> (#[trigger] m[i]).len() >= 1 && fits_i64(m[i][0] + noise(i as nat))
}

/// Adds the errors to the first entry of each of the first `height` rows.
pub fn add_noise(m: &mut Matrix)
    requires
        add_noise_defined(old(m).rows(), old(m).height()),
    ensures
        final(m).rows() == add_noise_rows(old(m).rows(), old(m).height()),
        final(m).height() == old(m).height(),
        final(m).width() == old(m).width(),
        forall|i: int|
            0 <= i < old(m).height() ==> if i % 2 == 0 {
                #[trigger] final(m).rows()[i][0] <= old(m).rows()[i][0]
            } else {
                final(m).rows()[i][0] >= old(m).rows()[i][0]
            },
{
    let mut g: Rng = rng(NOISE_SEED);
    let h = m.get_matrix_height();
    let ghost a = m.rows();
    for i in 0..h
        invariant
            h == m.height(),
            h == old(m).height(),
            a == old(m).rows(),
            add_noise_defined(a, h as nat),
            m.width() == old(m).width(),
            g.state() == rng_state(NOISE_SEED, i as nat),
            m.rows().len() == a.len(),
            forall|k: int| 0 <= k < i ==> #[trigger] m.rows()[k] == add_noise_rows(a, h as nat)[k],
            forall|k: int| i <= k < a.len() ==> #[trigger] m.rows()[k] == a[k],
    {
        let r = g.next();
        assert(r == rng_output(NOISE_SEED, i as nat));
        let v = (r % 10) as i64;
        assert(0 <= v < 10);
        let sign: i64 = if i % 2 == 1 { 1 } else { -1 };
        assert(sign * v == if i % 2 == 1 { v as int } else { -v }) by (nonlinear_arith)
            requires
                sign == if i % 2 == 1 { 1i64 } else { -1i64 },
        ;
        assert(sign * v == noise(i as nat));
        assert(a[i as int].len() >= 1);
        let row = m.index_mut(i);
        let e = row.index_mut(0);
        *e = *e + sign * v;
    }
    assert(m.rows() == add_noise_rows(a, h as nat));
    assert forall|i: int| 0 <= i < h implies if i % 2 == 0 {
        #[trigger] m.rows()[i][0] <= a[i][0]
    } else {
        m.rows()[i][0] >= a[i][0]
    } by {
        assert(m.rows()[i] == a[i].update(0, (a[i][0] + noise(i as nat)) as i64));
    }
}


/// Whether `add_noise` can add the errors to this matrix.
pub fn can_add_noise(m: &Matrix) -> (b: bool)
    ensures
        b == add_noise_defined(m.rows(), m.height()),
{
    let h = m.get_matrix_height();
    let ghost a = m.rows();
    if m.num_rows() < h {
        return false;
    }
    let mut g: Rng = rng(NOISE_SEED);
    for i in 0..h
        invariant
            h == m.height(),
            h <= a.len(),
            a == m.rows(),
            g.state() == rng_state(NOISE_SEED, i as nat),
            forall|k: int|
                0 <= k < i ==> (#[trigger] a[k]).len() >= 1 && fits_i64(a[k][0] + noise(k as nat)),
    {
        let r = g.next();
        assert(r == rng_output(NOISE_SEED, i as nat));
        let v = (r % 10) as i64;
        assert(0 <= v < 10);
        let sign: i64 = if i % 2 == 1 { 1 } else { -1 };
        assert(sign * v == if i % 2 == 1 { v as int } else { -v }) by (nonlinear_arith)
            requires
                sign == if i % 2 == 1 { 1i64 } else { -1i64 },
        ;
        assert(sign * v == noise(i as nat));
        let row = m.index(i);
        if row.len() < 1 {
            return false;
        }
        let x = *row.index(0);
        let t: i128 = (x as i128) + ((sign * v) as i128);
        if t < (i64::MIN as i128) || t > (i64::MAX as i128) {
            assert(!fits_i64(a[i as int][0] + noise(i as nat)));
            return false;
        }
    }
    true
}

/// The `k`-th entry of the matrix of coefficients: the `k`-th draw of the
/// generator, read as an `i64`, modulo `modulus`.
pub open spec fn public_entries(seed: u64, n: nat, modulus: i64) -> Seq<i64> {
    Seq::new(n, |k: int| trunc_rem(draw_i64(seed, k as nat) as int, modulus as int) as i64)
}

/// Whether the remainder that makes each of the first `n` entries is defined.
pub open spec fn public_entries_defined(seed: u64, n: nat, modulus: i64) -> bool {
    forall|k: nat| k < n ==> rem_defined(#[trigger] draw_i64(seed, k) as int, modulus as int)
}

/// The rows of the matrix of coefficients: `height * width` entries, row
/// after row.
pub open spec fn public_rows(seed: u64, height: nat, width: nat, modulus: i64) -> Seq<Seq<i64>> {
    chunks(public_entries(seed, height * width, modulus), height, width)
}

/// The private key read as a matrix of `width` rows.
pub open spec fn private_rows(private_key: Seq<i64>, width: nat) -> Seq<Seq<i64>> {
    chunks(private_key, width, private_key.len() / width)
}

/// The product of the matrix of coefficients with the private key.
pub open spec fn keygen_product(
    private_key: Seq<i64>,
    seed: u64,
    height: nat,
    width: nat,
    modulus: i64,
) -> Seq<Seq<i64>> {
    product(
        public_rows(seed, height, width, modulus),
        private_rows(private_key, width),
        height,
        width,
        private_key.len() / width,
    )
}

/// The right-hand sides: the product modulo `modulus`, with the errors added.
pub open spec fn keygen_result(
    private_key: Seq<i64>,
    seed: u64,
    height: nat,
    width: nat,
    modulus: i64,
) -> Seq<Seq<i64>> {
    add_noise_rows(rem_rows(keygen_product(private_key, seed, height, width, modulus), modulus), height)
}

/// Whether `generate_keys` returns: the sizes are positive and their products
/// fit in `usize`, the key splits into `width` rows, and every remainder and
/// sum formed is defined.
pub open spec fn keygen_defined(
    private_key: Seq<i64>,
    seed: u64,
    height: nat,
    width: nat,
    modulus: i64,
) -> bool {
    &&& height * width <= usize::MAX
    &&& height > 0
    &&& width > 0
    &&& public_entries_defined(seed, height * width, modulus)
    &&& private_key.len() % width == 0
    &&& private_key.len() >= width
    &&& width * width <= usize::MAX
    &&& product_fits(
        public_rows(seed, height, width, modulus),
        private_rows(private_key, width),
        height,
        width,
        private_key.len() / width,
    )
    &&& rem_rows_defined(keygen_product(private_key, seed, height, width, modulus), modulus)
    &&& add_noise_defined(
        rem_rows(keygen_product(private_key, seed, height, width, modulus), modulus),
        height,
    )
}

/// The first `n` entries of the matrix of coefficients, drawn from a
/// generator seeded with `seed`.
fn draw_public_entries(seed: u64, n: usize, modulus: i64) -> (v: Vec<i64>)
    requires
        public_entries_defined(seed, n as nat, modulus),
    ensures
        v@ == public_entries(seed, n as nat, modulus),
{
    let mut g: Rng = rng(seed);
    let mut v: Vec<i64> = Vec::new();
    for k in 0..n
        invariant
            public_entries_defined(seed, n as nat, modulus),
            g.state() == rng_state(seed, k as nat),
            v@ == public_entries(seed, k as nat, modulus),
    {
        let r = g.next();
        assert(r == rng_output(seed, k as nat));
        assert(rem_defined(draw_i64(seed, k as nat) as int, modulus as int));
        v.push((r as i64) % modulus);
        assert(v@ == public_entries(seed, (k + 1) as nat, modulus));
    }
    v
}

/// The drawn entries cut into `height` rows of `width`, and the private
/// key into `width` rows: both cuts are accepted by `from_slice`.
proof fn lemma_key_shapes(entries: Seq<i64>, private_key: Seq<i64>, height: nat, width: nat)
    requires
        height > 0,
        width > 0,
        entries.len() == height * width,
        private_key.len() % width == 0,
        private_key.len() >= width,
    ensures
        entries.len() % height == 0,
        entries.len() >= height,
        entries.len() / height == width,
        chunks(entries, height, width).len() == height,
        forall|i: int| 0 <= i < height ==> (#[trigger] chunks(entries, height, width)[i]).len() == width,
        private_key.len() / width > 0,
        private_key.len() == width * (private_key.len() / width),
        chunks(private_key, width, private_key.len() / width).len() == width,
        forall|i: int|
            0 <= i < width ==> (#[trigger] chunks(private_key, width, private_key.len() / width)[i]).len()
                == private_key.len() / width,
{
    lemma_chunks_shape(entries, height, width);
    vstd::arithmetic::div_mod::lemma_fundamental_div_mod(private_key.len() as int, width as int);
    assert(private_key.len() == width * (private_key.len() / width));
    assert(private_key.len() / width > 0) by (nonlinear_arith)
        requires
            private_key.len() >= width,
            width > 0,
            private_key.len() == width * (private_key.len() / width),
    ;
    lemma_chunks_shape(private_key, width, private_key.len() / width);
}

/// Builds a public key from the private key: a `height` by `width` matrix
/// of pseudo-random coefficients drawn from `seed`, reduced modulo
/// `modulus`, and the right-hand sides `matrix * key` modulo `modulus` with
/// a small error added to each.
pub fn generate_keys(private_key: &[i64], seed: u64, height: usize, width: usize, modulus: i64) -> (e:
    Equation)
    requires
        keygen_defined(private_key@, seed, height as nat, width as nat, modulus),
    ensures
        e.matrix().rows() == public_rows(seed, height as nat, width as nat, modulus),
        e.matrix().height() == height,
        e.matrix().width() == width,
        e.result().rows() == keygen_result(private_key@, seed, height as nat, width as nat, modulus),
        e.result().height() == height,
        e.result().width() == private_key@.len() / (width as nat),
        e.modulus() == modulus,
{
    let n = height * width;
    let entries = draw_public_entries(seed, n, modulus);
    proof {
        lemma_key_shapes(entries@, private_key@, height as nat, width as nat);
    }
    let public_key = Matrix::from_slice(entries.as_slice(), height);
    let key = Matrix::from_slice(private_key, width);
    assert(product_in_bounds(public_key.rows(), key.rows(), height as nat, width as nat, key.width()));
    let prod = public_key.mul(&key);
    let mut result = prod.rem(modulus);
    add_noise(&mut result);
    Equation::from_matrices(public_key, result, modulus)
}

/// Whether `generate_keys` returns on these arguments (see `keygen_defined`).
pub fn can_generate_keys(private_key: &[i64], seed: u64, height: usize, width: usize, modulus: i64) -> (b:
    bool)
    ensures
        b == keygen_defined(private_key@, seed, height as nat, width as nat, modulus),
{
    let n = match height.checked_mul(width) {
        Some(n) => n,
        None => { return false; },
    };
    if height == 0 || width == 0 {
        return false;
    }
    if private_key.len() % width != 0 || private_key.len() < width {
        return false;
    }
    if width.checked_mul(width).is_none() {
        return false;
    }
    let mut g: Rng = rng(seed);
    for k in 0..n
        invariant
            n == height * width,
            g.state() == rng_state(seed, k as nat),
            forall|t: nat| t < k ==> rem_defined(#[trigger] draw_i64(seed, t) as int, modulus as int),
    {
        let r = g.next();
        assert(r == rng_output(seed, k as nat));
        if modulus == 0 || (modulus == -1 && (r as i64) == i64::MIN) {
            assert(!rem_defined(draw_i64(seed, k as nat) as int, modulus as int));
            return false;
        }
    }
    assert(public_entries_defined(seed, n as nat, modulus));
    let entries = draw_public_entries(seed, n, modulus);
    proof {
        lemma_key_shapes(entries@, private_key@, height as nat, width as nat);
    }
    let public_key = Matrix::from_slice(entries.as_slice(), height);
    let key = Matrix::from_slice(private_key, width);
    assert(product_in_bounds(public_key.rows(), key.rows(), height as nat, width as nat, key.width()));
    let prod = match public_key.checked_mul(&key) {
        Some(p) => p,
        None => { return false; },
    };
    if !prod.can_rem(modulus) {
        return false;
    }
    let result = prod.rem(modulus);
    can_add_noise(&result)
}

} // verus!
