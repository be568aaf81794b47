//! Keys made from a master password never overflow: for a private key of
//! bytes and a modulus of at most a million, generating the public key,
//! encrypting any bit with it and decrypting every record it encrypts all
//! stay within `i64`, whatever the key's length (up to what the machine
//! can index).
use vstd::prelude::*;
use crate::arith::{fits_i64, trunc_rem, abs, half_toward_zero, rem_defined};
use super::{Equation, chunks, dot, product, product_fits, lemma_chunk_index, lemma_chunks_shape};
use super::keygen::{
    keygen_defined, public_rows, public_entries, public_entries_defined, private_rows, keygen_product,
    keygen_result, noise, draw_i64,
};
use super::correctness::{key_column, lemma_private_rows_column};
use super::encrypt::{
    encrypt_bit_defined, window_step_ok, window_row, window_sum, window_start, window_len,
    lemma_window_row_len,
};
use super::{add_into, add_into_fits, rem_all_defined, rem_rows, rem_all, product_defined, rem_rows_defined};
use super::encrypt::{
    encrypt_char_defined, char_encryptable, field_encryptable, account_encryptable, encrypter_state,
    char_bit, encrypted_char_rows, encrypted_char_values, encrypted_row, encrypted_value, first_byte,
    account_ciphertext, ENCRYPT_SEED,
};
use super::decrypt::{decryptable, decrypt_bit_defined, predicted, bits_read, account_text};
use super::account::{
    record_decryptable, records_decryptable, lines_well_formed, terminated_lines,
    law_generated_account_reads_back,
};
use crate::text::ascii;
use crate::FIELD;
use vstd::utf8::is_ascii_chars;

verus! {

/// Whether every entry of `key` is a byte value.
pub open spec fn byte_key(key: Seq<i64>) -> bool {
    forall|i: int| 0 <= i < key.len() ==> 0 <= #[trigger] key[i] <= 255
}

/// Whether the public key `eq` is what `generate_keys(key, seed, height,
/// key.len(), modulus)` returns.
pub open spec fn made_by_generate_keys(eq: Equation, key: Seq<i64>, seed: u64, height: nat, modulus: i64) -> bool {
    &&& eq.matrix().rows() == public_rows(seed, height, key.len(), modulus)
    &&& eq.matrix().height() == height
    &&& eq.matrix().width() == key.len()
    &&& eq.result().rows() == keygen_result(key, seed, height, key.len(), modulus)
    &&& eq.result().height() == height
    &&& eq.result().width() == 1
    &&& eq.modulus() == modulus
}

proof fn lemma_trunc_rem_small(x: int, m: int)
    requires
        m > 0,
    ensures
        abs(trunc_rem(x, m)) < m,
{
}

proof fn lemma_width_small(w: nat)
    requires
        w * w <= usize::MAX,
    ensures
        w < 0x1_0000_0000,
{
    if w >= 0x1_0000_0000 {
        assert(w * w >= 0x1_0000_0000 * 0x1_0000_0000) by (nonlinear_arith)
            requires
                w >= 0x1_0000_0000,
        ;
    }
}

/// A sum of `n` products of entries at most `x` and `y` in absolute value is
/// at most `n * x * y` in absolute value.
proof fn lemma_dot_bound(a: Seq<Seq<i64>>, b: Seq<Seq<i64>>, i: int, j: int, n: nat, x: int, y: int)
    requires
        0 <= x,
        0 <= y,
        forall|k: int| 0 <= k < n ==> abs(#[trigger] a[i][k] as int) <= x,
        forall|k: int| 0 <= k < n ==> abs(#[trigger] b[k][j] as int) <= y,
    ensures
        abs(dot(a, b, i, j, n)) <= n * (x * y),
    decreases n,
{
    if n > 0 {
        lemma_dot_bound(a, b, i, j, (n - 1) as nat, x, y);
        let p = a[i][n - 1] * b[n - 1][j];
        let u = a[i][n - 1] as int;
        let v = b[(n - 1) as int][j] as int;
        assert(abs(u * v) <= x * y) by (nonlinear_arith)
            requires
                abs(u) <= x,
                abs(v) <= y,
                0 <= x,
                0 <= y,
        ;
        assert((n - 1) * (x * y) + x * y == n * (x * y)) by (nonlinear_arith);
    }
}

/// A product of `h` rows of `w` entries at most `x` (a million at most) in
/// absolute value with a column of bytes forms only `i64` values.
proof fn lemma_product_fits_bytes(a: Seq<Seq<i64>>, key: Seq<i64>, h: nat, w: nat, x: int)
    requires
        0 <= x <= 1_000_000,
        w < 0x1_0000_0000,
        key.len() == w,
        byte_key(key),
        forall|i: int, k: int| 0 <= i < h && 0 <= k < w ==> abs(#[trigger] a[i][k] as int) <= x,
    ensures
        product_fits(a, key_column(key), h, w, 1),
        forall|i: int|
            0 <= i < h ==> abs(#[trigger] dot(a, key_column(key), i, 0, w)) <= 255_000_000 * 0x1_0000_0000,
{
    let b = key_column(key);
    assert forall|i: int, k: int| 0 <= i < h && 0 <= k <= w implies abs(
        #[trigger] dot(a, b, i, 0, k as nat),
    ) <= 255_000_000 * 0x1_0000_0000 by {
        assert forall|t: int| 0 <= t < k implies abs(#[trigger] b[t][0] as int) <= 255 by {
            assert(b[t][0] == key[t]);
        }
        lemma_dot_bound(a, b, i, 0, k as nat, x, 255);
        assert(k * (x * 255) <= 0x1_0000_0000 * 255_000_000) by (nonlinear_arith)
            requires
                0 <= k <= 0x1_0000_0000,
                0 <= x <= 1_000_000,
        ;
    }
    assert forall|i: int, j: int, k: int|
        #![trigger a[i][k], b[k][j]]
        0 <= i < h && 0 <= j < 1 && 0 <= k < w implies fits_i64(a[i][k] * b[k][j]) && fits_i64(
            dot(a, b, i, j, (k + 1) as nat),
        ) by {
        assert(b[k][j] == key[k]);
        let u = a[i][k] as int;
        let v = key[k] as int;
        assert(abs(u * v) <= 1_000_000 * 255) by (nonlinear_arith)
            requires
                abs(u) <= x,
                0 <= v <= 255,
                x <= 1_000_000,
        ;
        assert(abs(dot(a, b, i, 0, (k + 1) as nat)) <= 255_000_000 * 0x1_0000_0000);
    }
}

/// The entries of a public key's matrix are less than the modulus in
/// absolute value, its `height` rows all `width` long.
proof fn lemma_public_rows_small(seed: u64, height: nat, width: nat, modulus: i64)
    requires
        height > 0,
        width > 0,
        modulus > 0,
    ensures
        public_rows(seed, height, width, modulus).len() == height,
        forall|i: int| 0 <= i < height ==> (#[trigger] public_rows(seed, height, width, modulus)[i]).len() == width,
        forall|i: int, k: int|
            0 <= i < height && 0 <= k < width ==> abs(
                #[trigger] public_rows(seed, height, width, modulus)[i][k] as int,
            ) < modulus,
{
    let v = public_entries(seed, height * width, modulus);
    lemma_chunks_shape(v, height, width);
    assert forall|i: int, k: int| 0 <= i < height && 0 <= k < width implies abs(
        #[trigger] public_rows(seed, height, width, modulus)[i][k] as int,
    ) < modulus by {
        lemma_chunk_index(i, k, height as int, width as int);
        assert(public_rows(seed, height, width, modulus)[i][k] == v[i * width + k]);
        lemma_trunc_rem_small(draw_i64(seed, (i * width + k) as nat) as int, modulus as int);
    }
}

/// Keys can be generated from any master password: for a private key of
/// bytes of any length `w >= 1` (with `height * w` and `w * w` within
/// `usize`), any seed, any positive height and a modulus from 1 to a
/// million, `generate_keys` returns (`keygen_defined` holds), so
/// `can_generate_keys` answers `true`.
pub proof fn law_keys_from_any_byte_key(key: Seq<i64>, seed: u64, height: nat, modulus: i64)
    requires
        byte_key(key),
        key.len() >= 1,
        height >= 1,
        height * key.len() <= usize::MAX,
        key.len() * key.len() <= usize::MAX,
        1 <= modulus <= 1_000_000,
    ensures
        keygen_defined(key, seed, height, key.len(), modulus),
{
    let w = key.len();
    lemma_width_small(w);
    let a = public_rows(seed, height, w, modulus);
    lemma_public_rows_small(seed, height, w, modulus);
    lemma_private_rows_column(key);
    vstd::arithmetic::div_mod::lemma_div_by_self(w as int);
    vstd::arithmetic::div_mod::lemma_mod_self_0(w as int);
    assert(private_rows(key, w) == key_column(key));
    assert forall|i: int, k: int| 0 <= i < height && 0 <= k < w implies abs(#[trigger] a[i][k] as int)
        <= modulus - 1 by {}
    lemma_product_fits_bytes(a, key, height, w, (modulus - 1) as int);
    assert(public_entries_defined(seed, height * w, modulus));
    let p = keygen_product(key, seed, height, w, modulus);
    assert(p == product(a, key_column(key), height, w, 1));
    let red = super::rem_rows(p, modulus);
    assert forall|i: int| 0 <= i < p.len() implies super::rem_all_defined(#[trigger] p[i], modulus) by {}
    assert forall|i: int| 0 <= i < height implies (#[trigger] red[i]).len() >= 1 && fits_i64(
        red[i][0] + noise(i as nat),
    ) by {
        lemma_trunc_rem_small(p[i][0] as int, modulus as int);
        assert(abs(noise(i as nat)) <= 9);
    }
}

/// The right-hand sides of a generated public key: `height` rows of one
/// entry, less than the modulus plus 9 in absolute value.
proof fn lemma_result_rows_small(key: Seq<i64>, seed: u64, height: nat, modulus: i64)
    requires
        keygen_defined(key, seed, height, key.len(), modulus),
        key.len() >= 1,
        modulus >= 1,
    ensures
        keygen_result(key, seed, height, key.len(), modulus).len() == height,
        forall|i: int|
            0 <= i < height ==> (#[trigger] keygen_result(key, seed, height, key.len(), modulus)[i]).len()
                == 1 && abs(keygen_result(key, seed, height, key.len(), modulus)[i][0] as int) <= modulus + 8,
{
    let w = key.len();
    vstd::arithmetic::div_mod::lemma_div_by_self(w as int);
    let p = keygen_product(key, seed, height, w, modulus);
    let red = rem_rows(p, modulus);
    let r = keygen_result(key, seed, height, w, modulus);
    assert forall|i: int| 0 <= i < height implies (#[trigger] r[i]).len() == 1 && abs(r[i][0] as int)
        <= modulus + 8 by {
        assert(red[i].len() >= 1 && fits_i64(red[i][0] + noise(i as nat)));
        lemma_trunc_rem_small(p[i][0] as int, modulus as int);
        assert(abs(noise(i as nat)) <= 9);
        assert(r[i] == red[i].update(0, (red[i][0] + noise(i as nat)) as i64));
    }
}

/// A window of `k` rows of entries at most `x` in absolute value sums to a
/// row of `w` entries at most `k * x`.
proof fn lemma_window_row_small(a: Seq<Seq<i64>>, start: nat, k: nat, w: nat, x: int)
    requires
        0 <= x,
        k * x <= i64::MAX,
        forall|t: int| 0 <= t < k ==> (#[trigger] a[start + t]).len() == w,
        forall|t: int, c: int| 0 <= t < k && 0 <= c < w ==> abs(#[trigger] a[start + t][c] as int) <= x,
    ensures
        window_row(a, start, k, w).len() == w,
        forall|c: int| 0 <= c < w ==> abs(#[trigger] window_row(a, start, k, w)[c] as int) <= k * x,
    decreases k,
{
    lemma_window_row_len(a, start, k, w);
    if k > 0 {
        let k1 = (k - 1) as nat;
        assert(k1 * x <= k * x) by (nonlinear_arith)
            requires
                k1 < k,
                0 <= x,
        ;
        assert forall|t: int| 0 <= t < k1 implies (#[trigger] a[start + t]).len() == w by {}
        lemma_window_row_small(a, start, k1, w, x);
        let prev = window_row(a, start, k1, w);
        let row = a[start + (k1 as int)];
        assert(row == a[start + (k1 as int)]);
        assert forall|c: int| 0 <= c < w implies abs(#[trigger] window_row(a, start, k, w)[c] as int) <= k
            * x by {
            assert(abs(row[c] as int) <= x);
            assert(abs(prev[c] as int) <= k1 * x);
            assert(k1 * x + x == k * x) by (nonlinear_arith)
                requires
                    k1 + 1 == k,
            ;
        }
    }
}

/// The first entries of `k` rows, each at most `x` in absolute value, sum
/// to at most `k * x`.
proof fn lemma_window_sum_small(r: Seq<Seq<i64>>, start: nat, k: nat, x: int)
    requires
        0 <= x,
        forall|t: int| 0 <= t < k ==> (#[trigger] r[start + t]).len() >= 1 && abs(r[start + t][0] as int) <= x,
    ensures
        abs(window_sum(r, start, k)) <= k * x,
    decreases k,
{
    if k > 0 {
        let k1 = (k - 1) as nat;
        assert forall|t: int| 0 <= t < k1 implies (#[trigger] r[start + t]).len() >= 1 && abs(
            r[start + t][0] as int,
        ) <= x by {}
        lemma_window_sum_small(r, start, k1, x);
        assert(r[start + k - 1] == r[start + (k1 as int)]);
        assert(k1 * x + x == k * x) by (nonlinear_arith)
            requires
                k1 + 1 == k,
        ;
    }
}

/// Any bit can be encrypted with a key generated from a master password:
/// for a public key made by `generate_keys` from a private key of bytes of
/// any length (as `law_keys_from_any_byte_key` admits), a height of at least
/// 35 (so that every run of equations that a draw picks exists) and a
/// modulus from 1 to a million, encrypting a 0 or a 1 succeeds from every
/// generator state (`encrypt_bit_defined` holds), so `BitEncrypter::can_call`
/// answers `true`.
pub proof fn law_generated_keys_encrypt_any_bit(
    key: Seq<i64>,
    seed: u64,
    height: nat,
    modulus: i64,
    eq: Equation,
    s: u64,
    bit: u8,
)
    requires
        byte_key(key),
        key.len() >= 1,
        height >= 35,
        height * key.len() <= usize::MAX,
        key.len() * key.len() <= usize::MAX,
        1 <= modulus <= 1_000_000,
        made_by_generate_keys(eq, key, seed, height, modulus),
        bit <= 1,
    ensures
        encrypt_bit_defined(eq, s, bit),
{
    let w = key.len();
    law_keys_from_any_byte_key(key, seed, height, modulus);
    lemma_public_rows_small(seed, height, w, modulus);
    lemma_result_rows_small(key, seed, height, modulus);
    let a = eq.matrix().rows();
    let r = eq.result().rows();
    let start = window_start(s, height);
    let count = window_len(s);
    assert(start < height / 2);
    assert(count < 20);
    assert(start + count <= height);
    let x = (modulus - 1) as int;
    assert forall|i: int| start <= i < start + count implies #[trigger] window_step_ok(eq, start, i) by {
        let k = (i - start) as nat;
        assert forall|t: int| 0 <= t < k implies (#[trigger] a[start + t]).len() == w by {}
        assert forall|t: int, c: int| 0 <= t < k && 0 <= c < w implies abs(#[trigger] a[start + t][c] as int)
            <= x by {}
        assert(k * x <= 20 * 1_000_000) by (nonlinear_arith)
            requires
                k < 20,
                0 <= x <= 1_000_000,
        ;
        lemma_window_row_small(a, start, k, w, x);
        let prev = window_row(a, start, k, w);
        assert forall|c: int| 0 <= c < prev.len() && c < a[i].len() implies fits_i64(prev[c] + a[i][c]) by {
            assert(abs(prev[c] as int) <= k * x);
            assert(abs(a[start + (k as int)][c] as int) <= x);
        }
        assert(add_into_fits(prev, a[i]));
        assert forall|t: int| 0 <= t < k + 1 implies (#[trigger] r[start + t]).len() >= 1 && abs(
            r[start + t][0] as int,
        ) <= modulus + 8 by {}
        lemma_window_sum_small(r, start, k + 1, modulus + 8);
        assert((k + 1) * (modulus + 8) <= 20 * 1_000_008) by (nonlinear_arith)
            requires
                k + 1 <= 20,
                0 <= modulus + 8 <= 1_000_008,
        ;
    }
    assert forall|t: int| 0 <= t < count implies (#[trigger] r[start + t]).len() >= 1 && abs(
        r[start + t][0] as int,
    ) <= modulus + 8 by {}
    lemma_window_sum_small(r, start, count, modulus + 8);
    assert(count * (modulus + 8) <= 20 * 1_000_008) by (nonlinear_arith)
        requires
            count < 20,
            0 <= modulus + 8 <= 1_000_008,
    ;
    assert(rem_all_defined(window_row(a, start, count, w), modulus));
}

proof fn lemma_char_bit_small(byte: u8, k: nat)
    requires
        k < 8,
    ensures
        char_bit(byte, k) <= 1,
{
    let sh = (7 - k) as u8;
    assert((byte >> sh) & 1u8 <= 1) by (bit_vector);
}

/// Any account can be encrypted with a key generated from a master
/// password: under the conditions of `law_generated_keys_encrypt_any_bit`,
/// every character of any user name and any password, however long, can
/// be encrypted in turn (`account_encryptable` holds), so
/// `encrypt_account` returns the stored text.
pub proof fn law_generated_keys_encrypt_any_account(
    key: Seq<i64>,
    seed: u64,
    height: nat,
    modulus: i64,
    eq: Equation,
    user: Seq<char>,
    pass: Seq<char>,
)
    requires
        byte_key(key),
        key.len() >= 1,
        height >= 35,
        height * key.len() <= usize::MAX,
        key.len() * key.len() <= usize::MAX,
        1 <= modulus <= 1_000_000,
        made_by_generate_keys(eq, key, seed, height, modulus),
    ensures
        account_encryptable(eq, user, pass),
{
    assert forall|st: u64, byte: u8| #[trigger] encrypt_char_defined(eq, st, byte) by {
        assert forall|k: nat| k < 8 implies #[trigger] encrypt_bit_defined(
            eq,
            encrypter_state(st, k),
            char_bit(byte, k),
        ) by {
            lemma_char_bit_small(byte, k);
            law_generated_keys_encrypt_any_bit(key, seed, height, modulus, eq, encrypter_state(st, k), char_bit(byte, k));
        }
    }
    let s2 = encrypter_state(ENCRYPT_SEED, 8 * user.len());
    assert forall|t: int| 0 <= t < user.len() implies #[trigger] char_encryptable(eq, ENCRYPT_SEED, user, t) by {
        assert(encrypt_char_defined(eq, encrypter_state(ENCRYPT_SEED, (8 * t) as nat), first_byte(seq![user[t]])));
    }
    assert forall|t: int| 0 <= t < pass.len() implies #[trigger] char_encryptable(eq, s2, pass, t) by {
        assert(encrypt_char_defined(eq, encrypter_state(s2, (8 * t) as nat), first_byte(seq![pass[t]])));
    }
}

/// The eight rows and right-hand sides that encrypt a byte from state `st`
/// with a generated key decrypt with the private key without overflow.
proof fn lemma_record_decryptable(
    key: Seq<i64>,
    seed: u64,
    height: nat,
    modulus: i64,
    eq: Equation,
    st: u64,
    byte: u8,
)
    requires
        byte_key(key),
        key.len() >= 1,
        height >= 35,
        height * key.len() <= usize::MAX,
        key.len() * key.len() <= usize::MAX,
        1 <= modulus <= 1_000_000,
        made_by_generate_keys(eq, key, seed, height, modulus),
    ensures
        decryptable(
            encrypted_char_rows(eq, st),
            8,
            key.len(),
            encrypted_char_values(eq, st, byte),
            key_column(key),
            key.len(),
            1,
            modulus,
        ),
{
    let w = key.len();
    lemma_width_small(w);
    let em = encrypted_char_rows(eq, st);
    let er = encrypted_char_values(eq, st, byte);
    let kc = key_column(key);
    assert forall|i: int, c: int| 0 <= i < 8 && 0 <= c < w implies abs(#[trigger] em[i][c] as int) <= modulus
        - 1 by {
        let sti = encrypter_state(st, i as nat);
        lemma_window_row_len(eq.matrix().rows(), window_start(sti, height), window_len(sti), w);
        let raw = window_row(eq.matrix().rows(), window_start(sti, height), window_len(sti), w);
        assert(em[i] == rem_all(raw, modulus));
        lemma_trunc_rem_small(raw[c] as int, modulus as int);
    }
    assert forall|i: int| 0 <= i < 8 implies (#[trigger] em[i]).len() == w by {
        let sti = encrypter_state(st, i as nat);
        lemma_window_row_len(eq.matrix().rows(), window_start(sti, height), window_len(sti), w);
    }
    lemma_product_fits_bytes(em, key, 8, w, (modulus - 1) as int);
    let p = product(em, kc, 8, w, 1);
    assert(product_defined(em, 8, w, kc, w, 1));
    assert(rem_rows_defined(p, modulus));
    let d = predicted(em, 8, w, kc, 1, modulus);
    assert(bits_read(8, er) == 8);
    assert forall|i: int| 0 <= i < bits_read(8, er) implies (#[trigger] er[i]).len() >= 1 && decrypt_bit_defined(
        d[i][0] as int,
        er[i][0] as int,
        modulus as int,
    ) by {
        lemma_trunc_rem_small(p[i][0] as int, modulus as int);
        let sti = encrypter_state(st, i as nat);
        let bit = char_bit(byte, i as nat);
        let sum = window_sum(eq.result().rows(), window_start(sti, height), window_len(sti));
        let raw = if bit == 1 { sum + half_toward_zero(modulus as int) } else { sum };
        lemma_trunc_rem_small(raw, modulus as int);
        assert(er[i][0] == encrypted_value(eq, sti, bit));
        assert(abs(er[i][0] as int) < modulus);
        assert(abs(d[i][0] as int) < modulus);
        let val = abs(er[i][0] - d[i][0]) % (modulus as int);
        assert(0 <= val < modulus);
    }
}

/// Every record that a generated key encrypts decrypts with the private key
/// without overflow: under the conditions of
/// `law_generated_keys_encrypt_any_bit`, the records of any characters,
/// encrypted in turn from any generator state, can all be decrypted
/// (`records_decryptable` holds), so `can_decrypt_char` answers `true` on
/// each of them.
pub proof fn law_generated_keys_decrypt_every_record(
    key: Seq<i64>,
    seed: u64,
    height: nat,
    modulus: i64,
    eq: Equation,
    s: u64,
    chars: Seq<char>,
)
    requires
        byte_key(key),
        key.len() >= 1,
        height >= 35,
        height * key.len() <= usize::MAX,
        key.len() * key.len() <= usize::MAX,
        1 <= modulus <= 1_000_000,
        made_by_generate_keys(eq, key, seed, height, modulus),
    ensures
        records_decryptable(eq, s, chars, key, chars.len()),
{
    assert forall|t: int| 0 <= t < chars.len() implies #[trigger] record_decryptable(eq, s, chars, key, t) by {
        let st = encrypter_state(s, (8 * t) as nat);
        lemma_record_decryptable(key, seed, height, modulus, eq, st, first_byte(seq![chars[t]]));
    }
}

/// Every account stored with a key generated from a master password reads
/// back: for a private key of bytes of any length, any seed, a height of at
/// least 35 and a modulus from 686 to a million (the program uses height
/// 100 and modulus 2521), an account of ASCII user name and password of
/// any length stored with the public key (`encrypt_account`, which
/// succeeds) has lines that decrypt with the private key
/// (`decrypt_account`) to the chosen field.
pub proof fn law_generated_keys_store_every_account(
    key: Seq<i64>,
    seed: u64,
    height: nat,
    modulus: i64,
    eq: Equation,
    user: Seq<char>,
    pass: Seq<char>,
    lines: Seq<Seq<char>>,
    field: FIELD,
)
    requires
        byte_key(key),
        key.len() >= 1,
        height >= 35,
        height * key.len() <= usize::MAX,
        key.len() * key.len() <= usize::MAX,
        686 <= modulus <= 1_000_000,
        made_by_generate_keys(eq, key, seed, height, modulus),
        is_ascii_chars(user),
        is_ascii_chars(pass),
        user.len() <= usize::MAX,
        pass.len() <= usize::MAX,
        lines_well_formed(lines),
        terminated_lines(lines) == ascii(account_ciphertext(eq, user, pass)),
    ensures
        account_encryptable(eq, user, pass),
        account_text(lines, key, field) == Some(
            match field {
                FIELD::USERNAME => user,
                FIELD::PASSWORD => pass,
            },
        ),
{
    law_keys_from_any_byte_key(key, seed, height, modulus);
    law_generated_keys_encrypt_any_account(key, seed, height, modulus, eq, user, pass);
    law_generated_keys_decrypt_every_record(key, seed, height, modulus, eq, ENCRYPT_SEED, user);
    law_generated_keys_decrypt_every_record(
        key,
        seed,
        height,
        modulus,
        eq,
        encrypter_state(ENCRYPT_SEED, 8 * user.len()),
        pass,
    );
    law_generated_account_reads_back(key, seed, height, modulus, eq, user, pass, lines, field);
}

} // verus!
