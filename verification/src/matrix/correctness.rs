//! Why decryption gives back what encryption hid: with a public key whose
//! right-hand sides are the rows times the private key plus small errors,
//! the value that the private key predicts for a ciphertext row differs
//! from the ciphertext's right-hand side by the sum of a few errors, plus
//! half the modulus for a 1.
use vstd::prelude::*;
use crate::arith::{
    fits_i64, abs, trunc_rem, congruent, lemma_congruent_add, lemma_congruent_trans,
    lemma_congruent_symm, lemma_congruent_mul, lemma_congruent_refl, lemma_trunc_rem_congruent,
    half_toward_zero,
};
use vstd::arithmetic::power2::{pow2, lemma2_to64};
use super::{Equation, Matrix, add_into, add_into_fits, rem_all, rem_all_defined, dot, product, rem_rows};
use super::keygen::{
    noise, public_rows, private_rows, keygen_result, keygen_defined, keygen_product,
    add_noise_rows, public_entries, draw_i64,
};
use super::{chunks, lemma_chunks_shape};
use super::decrypt::{
    decrypt_bit_spec, lemma_decrypt_bit_recovers, bits_to_byte, decrypted_byte,
    decrypt_char_defined, bits_of, bits_read, byte_of, decryptable, predicted,
};
use super::encrypt::{
    window_start, window_len, window_row, window_sum, encrypted_row, encrypted_value,
    encrypt_bit_defined, window_step_ok, encrypter_state, char_bit, encrypt_char_defined,
    encrypted_char_rows, encrypted_char_values,
};

verus! {

/// The sum of the products of the first `n` entries of `row` with those of `key`.
pub open spec fn row_dot(row: Seq<i64>, key: Seq<i64>, n: nat) -> int
    decreases n,
{
    if n == 0 {
        0
    } else {
        row_dot(row, key, (n - 1) as nat) + row[n - 1] * key[n - 1]
    }
}

/// The public key was made with `key` and `errors`: every row of
/// coefficients is as wide as the key, and every right-hand side is
/// congruent modulo the positive modulus to its row times the key plus its
/// error.
pub open spec fn consistent_with_key(eq: Equation, key: Seq<i64>, errors: Seq<int>) -> bool {
    let a = eq.matrix().rows();
    let r = eq.result().rows();
    let w = eq.matrix().width();
    &&& eq.modulus() > 0
    &&& key.len() == w
    &&& forall|i: int| 0 <= i < a.len() && 0 <= i < r.len() ==> #[trigger] equation_made_with_key(eq, key, errors, i)
}

/// Equation `i` of the public key is as wide as `key`, and its right-hand
/// side is congruent to its row times the key plus `errors[i]`.
pub open spec fn equation_made_with_key(eq: Equation, key: Seq<i64>, errors: Seq<int>, i: int) -> bool {
    let a = eq.matrix().rows();
    let r = eq.result().rows();
    let w = eq.matrix().width();
    &&& a[i].len() == w
    &&& r[i].len() >= 1
    &&& i < errors.len()
    &&& congruent(r[i][0] as int, row_dot(a[i], key, w) + errors[i], eq.modulus() as int)
}

/// The sum of the `k` errors from `start` on.
pub open spec fn window_errors(errors: Seq<int>, start: nat, k: nat) -> int
    decreases k,
{
    if k == 0 {
        0
    } else {
        window_errors(errors, start, (k - 1) as nat) + errors[start + k - 1]
    }
}

/// The sum over the `k` rows of `a` from `start` on of each row times the key.
pub open spec fn window_dot(a: Seq<Seq<i64>>, key: Seq<i64>, n: nat, start: nat, k: nat) -> int
    decreases k,
{
    if k == 0 {
        0
    } else {
        window_dot(a, key, n, start, (k - 1) as nat) + row_dot(a[start + k - 1], key, n)
    }
}

proof fn lemma_row_dot_add(a: Seq<i64>, b: Seq<i64>, key: Seq<i64>, n: nat)
    requires
        n <= a.len(),
        n <= b.len(),
        add_into_fits(a, b),
    ensures
        row_dot(add_into(a, b), key, n) == row_dot(a, key, n) + row_dot(b, key, n),
    decreases n,
{
    if n > 0 {
        lemma_row_dot_add(a, b, key, (n - 1) as nat);
        let j = n - 1;
        assert(fits_i64(a[j] + b[j]));
        assert(add_into(a, b)[j] == a[j] + b[j]);
        assert((a[j] + b[j]) * key[j] == a[j] * key[j] + b[j] * key[j]) by (nonlinear_arith);
    }
}

proof fn lemma_row_dot_rem(a: Seq<i64>, key: Seq<i64>, n: nat, q: i64)
    requires
        q > 0,
        n <= a.len(),
    ensures
        congruent(row_dot(rem_all(a, q), key, n), row_dot(a, key, n), q as int),
    decreases n,
{
    if n == 0 {
        lemma_congruent_refl(0, q as int);
    } else {
        lemma_row_dot_rem(a, key, (n - 1) as nat, q);
        let j = n - 1;
        lemma_trunc_rem_congruent(a[j] as int, q as int);
        assert(rem_all(a, q)[j] == trunc_rem(a[j] as int, q as int));
        lemma_congruent_mul(rem_all(a, q)[j] as int, a[j] as int, key[j] as int, q as int);
        lemma_congruent_add(
            row_dot(rem_all(a, q), key, (n - 1) as nat),
            row_dot(a, key, (n - 1) as nat),
            rem_all(a, q)[j] * key[j],
            a[j] * key[j],
            q as int,
        );
    }
}

/// The `k` rows of `a` from `start` on can be added one after the other
/// into a row of `w` zeros: each exists, is at least `w` long, and every sum
/// fits.
pub open spec fn window_addable(a: Seq<Seq<i64>>, start: nat, k: nat, w: nat) -> bool
    decreases k,
{
    k == 0 || {
        let i = start + k - 1;
        &&& window_addable(a, start, (k - 1) as nat, w)
        &&& i < a.len()
        &&& a[i].len() >= w
        &&& add_into_fits(window_row(a, start, (k - 1) as nat, w), a[i])
    }
}

proof fn lemma_window_addable(eq: Equation, key: Seq<i64>, errors: Seq<int>, start: nat, k: nat, j: nat)
    requires
        j <= k,
        consistent_with_key(eq, key, errors),
        forall|i: int| start <= i < start + k ==> #[trigger] window_step_ok(eq, start, i),
    ensures
        window_addable(eq.matrix().rows(), start, j, eq.matrix().width()),
    decreases j,
{
    if j > 0 {
        lemma_window_addable(eq, key, errors, start, k, (j - 1) as nat);
        let i = start + j - 1;
        assert(window_step_ok(eq, start, i));
        assert(equation_made_with_key(eq, key, errors, i));
    }
}

proof fn lemma_window_row_dot(a: Seq<Seq<i64>>, key: Seq<i64>, w: nat, start: nat, k: nat)
    requires
        window_addable(a, start, k, w),
    ensures
        window_row(a, start, k, w).len() == w,
        row_dot(window_row(a, start, k, w), key, w) == window_dot(a, key, w, start, k),
    decreases k,
{
    if k == 0 {
        assert(row_dot(Seq::new(w, |i: int| 0i64), key, w) == 0) by {
            lemma_row_dot_zero(key, w, w);
        }
    } else {
        let km1 = (k - 1) as nat;
        lemma_window_row_dot(a, key, w, start, km1);
        let i = start + k - 1;
        lemma_row_dot_add(window_row(a, start, km1, w), a[i], key, w);
    }
}

proof fn lemma_row_dot_zero(key: Seq<i64>, w: nat, n: nat)
    requires
        n <= w,
    ensures
        row_dot(Seq::new(w, |i: int| 0i64), key, n) == 0,
    decreases n,
{
    if n > 0 {
        lemma_row_dot_zero(key, w, (n - 1) as nat);
    }
}

proof fn lemma_window_sum_congruent(
    eq: Equation,
    key: Seq<i64>,
    errors: Seq<int>,
    start: nat,
    k: nat,
)
    requires
        consistent_with_key(eq, key, errors),
        k == 0 || (start + k <= eq.matrix().rows().len() && start + k <= eq.result().rows().len()),
    ensures
        congruent(
            window_sum(eq.result().rows(), start, k),
            window_dot(eq.matrix().rows(), key, eq.matrix().width(), start, k) + window_errors(
                errors,
                start,
                k,
            ),
            eq.modulus() as int,
        ),
    decreases k,
{
    let q = eq.modulus() as int;
    if k == 0 {
        lemma_congruent_refl(0, q);
    } else {
        lemma_window_sum_congruent(eq, key, errors, start, (k - 1) as nat);
        let i = (start + k - 1) as int;
        let a = eq.matrix().rows();
        let r = eq.result().rows();
        assert(equation_made_with_key(eq, key, errors, i));
        assert(a[i].len() == eq.matrix().width());
        lemma_congruent_add(
            window_sum(r, start, (k - 1) as nat),
            window_dot(a, key, eq.matrix().width(), start, (k - 1) as nat) + window_errors(
                errors,
                start,
                (k - 1) as nat,
            ),
            r[i][0] as int,
            row_dot(a[i], key, eq.matrix().width()) + errors[i],
            q,
        );
    }
}

/// Encrypting a bit keeps the scheme's invariant: for a public key made
/// with `key` and `errors`, the right-hand side that encrypts `bit` minus
/// the encrypted row times the key is congruent, modulo the modulus, to the
/// sum of the errors of the equations used plus `bit` times half the modulus.
pub proof fn lemma_encrypted_bit_congruence(
    eq: Equation,
    key: Seq<i64>,
    errors: Seq<int>,
    s: u64,
    bit: u8,
)
    requires
        consistent_with_key(eq, key, errors),
        encrypt_bit_defined(eq, s, bit),
    ensures
        congruent(
            encrypted_value(eq, s, bit) - row_dot(encrypted_row(eq, s), key, eq.matrix().width()),
            window_errors(errors, window_start(s, eq.matrix().height()), window_len(s)) + bit * (
            eq.modulus() / 2),
            eq.modulus() as int,
        ),
{
    let q = eq.modulus();
    let a = eq.matrix().rows();
    let r = eq.result().rows();
    let w = eq.matrix().width();
    let start = window_start(s, eq.matrix().height());
    let k = window_len(s);
    let wrow = window_row(a, start, k, w);
    let sum = window_sum(r, start, k);
    let dots = window_dot(a, key, w, start, k);
    let errs = window_errors(errors, start, k);
    let h = q / 2;
    assert(half_toward_zero(q as int) == h);
    // The encrypted row times the key is congruent to the sum of the rows times the key.
    lemma_window_addable(eq, key, errors, start, k, k);
    lemma_window_row_dot(a, key, w, start, k);
    lemma_row_dot_rem(wrow, key, w, q);
    assert(encrypted_row(eq, s) == rem_all(wrow, q));
    // The right-hand sides sum to the sum of the rows times the key plus the errors.
    if k > 0 {
        let last = (start + k - 1) as int;
        assert(window_step_ok(eq, start, last));
    }
    lemma_window_sum_congruent(eq, key, errors, start, k);
    // The value is the sum plus bit times half the modulus, reduced.
    let raw = sum + bit * h;
    assert(raw == if bit == 1 { sum + h } else { sum });
    lemma_trunc_rem_congruent(raw, q as int);
    assert(encrypted_value(eq, s, bit) == trunc_rem(raw, q as int));
    let value = encrypted_value(eq, s, bit) as int;
    let rd = row_dot(encrypted_row(eq, s), key, w);
    let lhs = value - rd;
    let k1 = crate::arith::lemma_multiple_of_congruent(value, raw, q as int);
    let k2 = crate::arith::lemma_multiple_of_congruent(sum, dots + errs, q as int);
    let k3 = crate::arith::lemma_multiple_of_congruent(rd, dots, q as int);
    assert(lhs - (errs + bit * h) == (k1 + k2 - k3) * q) by (nonlinear_arith)
        requires
            value - raw == k1 * q,
            sum - (dots + errs) == k2 * q,
            rd - dots == k3 * q,
            raw == sum + bit * h,
            lhs == value - rd,
    ;
    crate::arith::lemma_congruent_by_multiple(lhs, errs + bit * h, q as int, k1 + k2 - k3);
}


/// The private key as a matrix of one column.
pub open spec fn key_column(key: Seq<i64>) -> Seq<Seq<i64>> {
    Seq::new(key.len(), |j: int| seq![key[j]])
}

/// Every error is at most `bound` in absolute value.
pub open spec fn errors_bounded(errors: Seq<int>, bound: int) -> bool {
    forall|i: int| 0 <= i < errors.len() ==> abs(#[trigger] errors[i]) <= bound
}

proof fn lemma_window_errors_bound(
    eq: Equation,
    key: Seq<i64>,
    errors: Seq<int>,
    bound: int,
    start: nat,
    k: nat,
    j: nat,
)
    requires
        j <= k,
        0 <= bound,
        consistent_with_key(eq, key, errors),
        errors_bounded(errors, bound),
        forall|i: int| start <= i < start + k ==> #[trigger] window_step_ok(eq, start, i),
    ensures
        abs(window_errors(errors, start, j)) <= j * bound,
    decreases j,
{
    if j > 0 {
        lemma_window_errors_bound(eq, key, errors, bound, start, k, (j - 1) as nat);
        let i = start + j - 1;
        assert(window_step_ok(eq, start, i));
        assert(equation_made_with_key(eq, key, errors, i));
        assert(abs(errors[i]) <= bound);
        assert((j - 1) * bound + bound == j * bound) by (nonlinear_arith);
    }
}

proof fn lemma_dot_key_column(a: Seq<Seq<i64>>, key: Seq<i64>, i: int, n: nat)
    requires
        n <= key.len(),
    ensures
        dot(a, key_column(key), i, 0, n) == row_dot(a[i], key, n),
    decreases n,
{
    if n > 0 {
        lemma_dot_key_column(a, key, i, (n - 1) as nat);
    }
}

proof fn lemma_bit_at_most_one(byte: u8, sh: u8)
    ensures
        (byte >> sh) & 1u8 <= 1,
{
    assert((byte >> sh) & 1u8 <= 1) by (bit_vector);
}

proof fn lemma_bits_of_byte(byte: u8)
    ensures
        bits_to_byte(Seq::new(8, |k: int| char_bit(byte, k as nat))) == byte,
{
    let bits = Seq::new(8, |k: int| char_bit(byte, k as nat));
    lemma2_to64();
    assert(bits.subrange(0, 8) == bits);
    assert(bits.subrange(0, 1).drop_last() == bits.subrange(0, 0));
    assert(bits_to_byte(bits.subrange(0, 1)) == bits_to_byte(bits.subrange(0, 0)) + bits[0] * pow2(7));
    assert(bits.subrange(0, 2).drop_last() == bits.subrange(0, 1));
    assert(bits_to_byte(bits.subrange(0, 2)) == bits_to_byte(bits.subrange(0, 1)) + bits[1] * pow2(6));
    assert(bits.subrange(0, 3).drop_last() == bits.subrange(0, 2));
    assert(bits_to_byte(bits.subrange(0, 3)) == bits_to_byte(bits.subrange(0, 2)) + bits[2] * pow2(5));
    assert(bits.subrange(0, 4).drop_last() == bits.subrange(0, 3));
    assert(bits_to_byte(bits.subrange(0, 4)) == bits_to_byte(bits.subrange(0, 3)) + bits[3] * pow2(4));
    assert(bits.subrange(0, 5).drop_last() == bits.subrange(0, 4));
    assert(bits_to_byte(bits.subrange(0, 5)) == bits_to_byte(bits.subrange(0, 4)) + bits[4] * pow2(3));
    assert(bits.subrange(0, 6).drop_last() == bits.subrange(0, 5));
    assert(bits_to_byte(bits.subrange(0, 6)) == bits_to_byte(bits.subrange(0, 5)) + bits[5] * pow2(2));
    assert(bits.subrange(0, 7).drop_last() == bits.subrange(0, 6));
    assert(bits_to_byte(bits.subrange(0, 7)) == bits_to_byte(bits.subrange(0, 6)) + bits[6] * pow2(1));
    assert(bits.subrange(0, 8).drop_last() == bits.subrange(0, 7));
    assert(bits_to_byte(bits.subrange(0, 8)) == bits_to_byte(bits.subrange(0, 7)) + bits[7] * pow2(0));
    let b0 = (byte >> 7u8) & 1u8;
    let b1 = (byte >> 6u8) & 1u8;
    let b2 = (byte >> 5u8) & 1u8;
    let b3 = (byte >> 4u8) & 1u8;
    let b4 = (byte >> 3u8) & 1u8;
    let b5 = (byte >> 2u8) & 1u8;
    let b6 = (byte >> 1u8) & 1u8;
    let b7 = (byte >> 0u8) & 1u8;
    assert(bits[0] == b0 && bits[1] == b1 && bits[2] == b2 && bits[3] == b3);
    assert(bits[4] == b4 && bits[5] == b5 && bits[6] == b6 && bits[7] == b7);
    assert(byte == b0 * 128 + b1 * 64 + b2 * 32 + b3 * 16 + b4 * 8 + b5 * 4 + b6 * 2 + b7)
        by (bit_vector)
        requires
            b0 == (byte >> 7u8) & 1u8,
            b1 == (byte >> 6u8) & 1u8,
            b2 == (byte >> 5u8) & 1u8,
            b3 == (byte >> 4u8) & 1u8,
            b4 == (byte >> 3u8) & 1u8,
            b5 == (byte >> 2u8) & 1u8,
            b6 == (byte >> 1u8) & 1u8,
            b7 == (byte >> 0u8) & 1u8,
    ;
}

/// The rows-level form of `law_decrypt_inverts_encrypt`: the eight rows
/// and right-hand sides that encrypt `byte` from state `s`, decrypted with
/// the key as a column (`kh` rows), give `byte` back wherever decryption
/// runs.
pub proof fn lemma_char_record_decrypts(
    eq: Equation,
    key: Seq<i64>,
    errors: Seq<int>,
    bound: int,
    s: u64,
    byte: u8,
    kh: nat,
)
    requires
        consistent_with_key(eq, key, errors),
        errors_bounded(errors, bound),
        0 <= bound,
        2 * (19 * bound) + 1 <= eq.modulus() / 2,
        encrypt_char_defined(eq, s, byte),
        decryptable(
            encrypted_char_rows(eq, s),
            8,
            eq.matrix().width(),
            encrypted_char_values(eq, s, byte),
            key_column(key),
            kh,
            1,
            eq.modulus(),
        ),
    ensures
        byte_of(
            encrypted_char_rows(eq, s),
            8,
            eq.matrix().width(),
            encrypted_char_values(eq, s, byte),
            key_column(key),
            1,
            eq.modulus(),
        ) == byte,
{
    let q = eq.modulus();
    let w = eq.matrix().width();
    let em = encrypted_char_rows(eq, s);
    let er = encrypted_char_values(eq, s, byte);
    let kc = key_column(key);
    let bits = bits_of(em, 8, w, er, kc, 1, q);
    let target = Seq::new(8, |k: int| char_bit(byte, k as nat));
    let p = product(em, kc, 8, w, 1);
    let d = predicted(em, 8, w, kc, 1, q);
    assert(bits_read(8, er) == 8);
    assert forall|k: int| 0 <= k < 8 implies bits[k] == target[k] by {
        let st = encrypter_state(s, k as nat);
        let bit = char_bit(byte, k as nat);
        assert(encrypt_bit_defined(eq, st, bit));
        let row = encrypted_row(eq, st);
        let value = encrypted_value(eq, st, bit);
        let start = window_start(st, eq.matrix().height());
        let cnt = window_len(st);
        lemma_encrypted_bit_congruence(eq, key, errors, st, bit);
        lemma_window_errors_bound(eq, key, errors, bound, start, cnt, cnt);
        let werr = window_errors(errors, start, cnt);
        assert(cnt < 20);
        assert(abs(werr) <= 19 * bound) by (nonlinear_arith)
            requires
                abs(werr) <= cnt * bound,
                cnt < 20,
                0 <= bound,
        ;
        // What the key predicts for row k.
        assert(em[k] == row);
        lemma_dot_key_column(em, key, k, w);
        let x = dot(em, kc, k, 0, w);
        assert(x == row_dot(row, key, w));
        if w > 0 {
            assert(em[k][(w - 1) as int] == em[k][(w - 1) as int]);
            assert(kc[(w - 1) as int][0] == kc[(w - 1) as int][0]);
            assert(fits_i64(x));
        }
        assert(p[k][0] == x as i64);
        assert(fits_i64(x));
        lemma_trunc_rem_congruent(x, q as int);
        assert(d[k][0] == trunc_rem(x, q as int));
        let ans = d[k][0] as int;
        assert(er[k][0] == value);
        // value - ans is congruent to the errors plus the bit times half the modulus.
        let k1 = crate::arith::lemma_multiple_of_congruent(ans, x, q as int);
        let k2 = crate::arith::lemma_multiple_of_congruent(
            value - x,
            werr + bit * (q / 2),
            q as int,
        );
        assert((value - ans) - (werr + bit * (q / 2)) == (k2 - k1) * q) by (nonlinear_arith)
            requires
                ans - x == k1 * q,
                (value - x) - (werr + bit * (q / 2)) == k2 * q,
        ;
        crate::arith::lemma_congruent_by_multiple(
            value - ans,
            werr + bit * (q / 2),
            q as int,
            k2 - k1,
        );
        lemma_bit_at_most_one(byte, (7 - k) as u8);
        lemma_decrypt_bit_recovers(ans, value as int, q as int, werr, 19 * bound, bit);
    }
    assert(bits == target);
    lemma_bits_of_byte(byte);
}

/// Decryption gives back what encryption hid. For a public key made with
/// `key` and errors of absolute value at most `bound`, where
/// `2 * (19 * bound) + 1` is at most half the modulus: a character encrypted
/// from any generator state (the rows and right-hand sides that
/// `encrypt_char` returns) and decrypted with the key as a one-column matrix
/// (whenever `decrypt_char` can run on them) yields the first byte of the
/// character's UTF-8 encoding.
pub proof fn law_decrypt_inverts_encrypt(
    eq: Equation,
    key: Seq<i64>,
    errors: Seq<int>,
    bound: int,
    s: u64,
    byte: u8,
    encrypt_matrix: Matrix,
    encrypt_result: Matrix,
    priv_key: Matrix,
)
    requires
        consistent_with_key(eq, key, errors),
        errors_bounded(errors, bound),
        0 <= bound,
        2 * (19 * bound) + 1 <= eq.modulus() / 2,
        encrypt_char_defined(eq, s, byte),
        encrypt_matrix.rows() == encrypted_char_rows(eq, s),
        encrypt_matrix.height() == 8,
        encrypt_matrix.width() == eq.matrix().width(),
        encrypt_result.rows() == encrypted_char_values(eq, s, byte),
        priv_key.rows() == key_column(key),
        priv_key.width() == 1,
        decrypt_char_defined(encrypt_matrix, encrypt_result, priv_key, eq.modulus()),
    ensures
        decrypted_byte(encrypt_matrix, encrypt_result, priv_key, eq.modulus()) == byte,
{
    lemma_char_record_decrypts(eq, key, errors, bound, s, byte, priv_key.height());
}

/// The errors that `generate_keys` adds, one per equation.
pub open spec fn noise_errors(height: nat) -> Seq<int> {
    Seq::new(height, |i: int| noise(i as nat))
}

proof fn lemma_noise_bound(i: nat)
    ensures
        abs(noise(i)) <= 9,
{
}

/// The private key as `generate_keys` cuts it, one entry per row, is the key as a column.
pub proof fn lemma_private_rows_column(key: Seq<i64>)
    requires
        key.len() > 0,
    ensures
        private_rows(key, key.len()) == key_column(key),
{
    lemma_chunks_shape(key, key.len(), 1);
    assert forall|j: int| 0 <= j < key.len() implies #[trigger] private_rows(key, key.len())[j]
        == key_column(key)[j] by {
        assert(private_rows(key, key.len())[j] == key.subrange(j * 1, j * 1 + 1));
        assert(key.subrange(j, j + 1) == seq![key[j]]);
    }
    assert(private_rows(key, key.len()) == key_column(key));
}

/// Keys made by `generate_keys` from a private key of `width` entries (one
/// column) with a positive modulus are made with that key: every
/// right-hand side is congruent to its row times the key plus an error of
/// absolute value at most 9.
pub proof fn law_generated_keys_consistent(
    private_key: Seq<i64>,
    seed: u64,
    height: nat,
    modulus: i64,
    eq: Equation,
)
    requires
        keygen_defined(private_key, seed, height, private_key.len(), modulus),
        modulus > 0,
        eq.matrix().rows() == public_rows(seed, height, private_key.len(), modulus),
        eq.matrix().width() == private_key.len(),
        eq.result().rows() == keygen_result(private_key, seed, height, private_key.len(), modulus),
        eq.modulus() == modulus,
    ensures
        consistent_with_key(eq, private_key, noise_errors(height)),
        errors_bounded(noise_errors(height), 9),
{
    let w = private_key.len();
    let a = eq.matrix().rows();
    let r = eq.result().rows();
    let errors = noise_errors(height);
    let entries = public_entries(seed, height * w, modulus);
    lemma_chunks_shape(entries, height, w);
    lemma_private_rows_column(private_key);
    let p = keygen_product(private_key, seed, height, w, modulus);
    assert forall|i: int| 0 <= i < a.len() && 0 <= i < r.len() implies #[trigger] equation_made_with_key(
        eq,
        private_key,
        errors,
        i,
    ) by {
        assert(a[i].len() == w);
        lemma_dot_key_column(a, private_key, i, w);
        let x = dot(a, private_rows(private_key, w), i, 0, w);
        assert(x == row_dot(a[i], private_key, w));
        assert(a[i][(w - 1) as int] == a[i][(w - 1) as int]);
        assert(private_rows(private_key, w)[(w - 1) as int][0] == private_rows(private_key, w)[(
        w - 1) as int][0]);
        assert(fits_i64(x));
        assert(p[i][0] == x as i64);
        let red = rem_rows(p, modulus);
        assert(super::keygen::add_noise_defined(red, height));
        assert(red[i].len() >= 1 && fits_i64(red[i][0] + noise(i as nat)));
        assert(red[i][0] == trunc_rem(x, modulus as int));
        assert(r[i][0] == red[i][0] + noise(i as nat));
        lemma_trunc_rem_congruent(x, modulus as int);
        let k = crate::arith::lemma_multiple_of_congruent(trunc_rem(x, modulus as int), x, modulus as int);
        assert(r[i][0] - (row_dot(a[i], private_key, w) + errors[i]) == k * modulus);
        crate::arith::lemma_congruent_by_multiple(
            r[i][0] as int,
            row_dot(a[i], private_key, w) + errors[i],
            modulus as int,
            k,
        );
    }
    assert forall|i: int| 0 <= i < errors.len() implies abs(#[trigger] errors[i]) <= 9 by {
        lemma_noise_bound(i as nat);
    }
}

/// Keys made by `generate_keys` decrypt what they encrypt: for a private
/// key of `width` entries and a modulus of at least 686 (so that twice 19
/// errors of at most 9, plus one, stay within half the modulus), a
/// character encrypted from any generator state and decrypted with the
/// private key as a one-column matrix yields the first byte of its UTF-8
/// encoding, whenever both steps can run.
pub proof fn law_generated_keys_decrypt_what_they_encrypt(
    private_key: Seq<i64>,
    seed: u64,
    height: nat,
    modulus: i64,
    eq: Equation,
    s: u64,
    byte: u8,
    encrypt_matrix: Matrix,
    encrypt_result: Matrix,
    priv_key: Matrix,
)
    requires
        keygen_defined(private_key, seed, height, private_key.len(), modulus),
        modulus >= 686,
        eq.matrix().rows() == public_rows(seed, height, private_key.len(), modulus),
        eq.matrix().width() == private_key.len(),
        eq.result().rows() == keygen_result(private_key, seed, height, private_key.len(), modulus),
        eq.modulus() == modulus,
        encrypt_char_defined(eq, s, byte),
        encrypt_matrix.rows() == encrypted_char_rows(eq, s),
        encrypt_matrix.height() == 8,
        encrypt_matrix.width() == eq.matrix().width(),
        encrypt_result.rows() == encrypted_char_values(eq, s, byte),
        priv_key.rows() == key_column(private_key),
        priv_key.width() == 1,
        decrypt_char_defined(encrypt_matrix, encrypt_result, priv_key, modulus),
    ensures
        decrypted_byte(encrypt_matrix, encrypt_result, priv_key, modulus) == byte,
{
    law_generated_keys_consistent(private_key, seed, height, modulus, eq);
    law_decrypt_inverts_encrypt(
        eq,
        private_key,
        noise_errors(height),
        9,
        s,
        byte,
        encrypt_matrix,
        encrypt_result,
        priv_key,
    );
}

} // verus!
