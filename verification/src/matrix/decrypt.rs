//! Decryption with the private key: each bit is read off from how far the
//! ciphertext lies from what the key predicts.
use vstd::prelude::*;
use vstd::utf8::{valid_utf8, decode_utf8};
use vstd::arithmetic::power2::{pow2, lemma2_to64};
use crate::arith::{
    fits_i64, abs, half_toward_zero, trunc_rem, rem_defined, congruent, lemma_multiple_of_congruent,
    lemma_congruent_by_multiple, lemma_mod_of_small,
};
use super::{
    Matrix, product, product_defined, rem_all, rem_rows, rem_rows_defined, chunks, matrix_from_text,
};
use crate::text::{parse_i64_spec, parse_usize_spec, parse_i64_str, parse_usize_str};
use crate::FIELD;

verus! {

#[verifier::external_type_specification]
#[verifier::external_body]
pub struct ExFromUtf8Error(std::string::FromUtf8Error);

/// `String::from_utf8` of std: the bytes as a `String` when they are valid
/// UTF-8, and an error otherwise. The contract claims that the result is
/// `Ok` exactly for valid UTF-8, and that the string then holds the decoded
/// characters, as std's documentation says.
#[verifier::external_body]
fn string_from_utf8(bytes: Vec<u8>) -> (r: Result<String, std::string::FromUtf8Error>)
    ensures
        r is Ok <==> valid_utf8(bytes@),
        r matches Ok(s) ==> s@ == decode_utf8(bytes@),
{
    String::from_utf8(bytes)
}

/// A single byte is valid UTF-8 exactly when it is ASCII, and then it
/// decodes to the character with that code.
pub proof fn lemma_single_byte_utf8(b: u8)
    ensures
        valid_utf8(seq![b]) <==> b < 0x80,
        b < 0x80 ==> decode_utf8(seq![b]) == seq![b as char],
{
    let s = seq![b];
    assert(s.subrange(1, 1) =~= Seq::<u8>::empty());
    if b < 0x80 {
        assert(valid_utf8(s.subrange(1, 1)));
        assert(decode_utf8(s.subrange(1, 1)) =~= Seq::<char>::empty());
        assert(b & 0x7Fu8 == b) by (bit_vector)
            requires
                b < 0x80u8,
        ;
        assert(vstd::utf8::decode_first_scalar(s) == b as u32);
    }
}

/// The distance of `val` from zero on the circle of integers modulo
/// `modulus`, as the decryption measures it.
pub open spec fn distance_from_zero(modulus: int, val: int) -> int {
    if modulus - val <= val {
        modulus - val
    } else {
        val
    }
}

/// The bit that a ciphertext value `v` carries, given the value `ans` that
/// the private key predicts: 0 when the difference, reduced modulo
/// `modulus`, lies closer to zero than to half the modulus, and 1 otherwise.
pub open spec fn decrypt_bit_spec(ans: int, v: int, modulus: int) -> u8 {
    let val = abs(v - ans) % modulus;
    if distance_from_zero(modulus, val) < abs(half_toward_zero(modulus) - val) {
        0
    } else {
        1
    }
}

/// Whether `decrypt_bit` returns: every difference and absolute value it
/// forms is an `i64` and the modulus is not zero.
pub open spec fn decrypt_bit_defined(ans: int, v: int, modulus: int) -> bool {
    let val = abs(v - ans) % modulus;
    &&& fits_i64(v - ans)
    &&& v - ans != i64::MIN
    &&& modulus != 0
    &&& fits_i64(modulus - val)
    &&& fits_i64(half_toward_zero(modulus) - val)
    &&& half_toward_zero(modulus) - val != i64::MIN
}

/// The bit that the ciphertext value `v` carries, given the value `ans`
/// that the private key predicts.
pub fn decrypt_bit(ans: i64, v: i64, modulus: i64) -> (b: u8)
    requires
        decrypt_bit_defined(ans as int, v as int, modulus as int),
    ensures
        b == decrypt_bit_spec(ans as int, v as int, modulus as int),
{
    let d = v - ans;
    let a = if d < 0 { -d } else { d };
    let val = a % modulus;
    let dist_from_0 = if modulus - val <= val { modulus - val } else { val };
    let mid = modulus / 2 - val;
    let dist_from_mid = if mid < 0 { -mid } else { mid };
    if dist_from_0 < dist_from_mid {
        0
    } else {
        1
    }
}


/// Decryption of a bit is correct when the noise is small: if the ciphertext
/// value `v` minus the predicted value `ans` is congruent modulo a positive
/// `q` to `x` plus `bit` times half of `q`, and `|x| <= bound` with
/// `2 * bound + 1 <= q / 2`, then the bit read is `bit`.
pub proof fn lemma_decrypt_bit_recovers(ans: int, v: int, q: int, x: int, bound: int, bit: u8)
    requires
        q > 0,
        bit <= 1,
        0 <= bound,
        2 * bound + 1 <= q / 2,
        -bound <= x <= bound,
        congruent(v - ans, x + bit * (q / 2), q),
    ensures
        decrypt_bit_spec(ans, v, q) == bit,
{
    let h = q / 2;
    assert(q == 2 * h || q == 2 * h + 1);
    assert(half_toward_zero(q) == h);
    let y = v - ans;
    let t = x + bit * h;
    assert(-q < t < q);
    let u = if y >= 0 { t } else { -t };
    let k = lemma_multiple_of_congruent(y, t, q);
    assert(abs(y) - u == (if y >= 0 { k } else { -k }) * q) by (nonlinear_arith)
        requires
            y - t == k * q,
            u == if y >= 0 { t } else { -t },
    ;
    lemma_congruent_by_multiple(abs(y), u, q, if y >= 0 { k } else { -k });
    lemma_mod_of_small(abs(y), u, q);
    let val = abs(y) % q;
    assert(val == if u >= 0 { u } else { u + q });
}

/// The byte whose bits, from the most significant down, are `bits`
/// (each 0 or 1, at most eight of them); missing low bits are 0.
pub open spec fn bits_to_byte(bits: Seq<u8>) -> int
    decreases bits.len(),
{
    if bits.len() == 0 {
        0
    } else {
        bits_to_byte(bits.drop_last()) + bits.last() * pow2((7 - (bits.len() - 1)) as nat)
    }
}

/// The rows that decryption compares with the ciphertext: the ciphertext
/// matrix (rows `em`, `eh` by `ew`) times the private key (rows `k`, width
/// `kw`), modulo `modulus`.
pub open spec fn predicted(em: Seq<Seq<i64>>, eh: nat, ew: nat, k: Seq<Seq<i64>>, kw: nat, modulus: i64) -> Seq<
    Seq<i64>,
> {
    rem_rows(product(em, k, eh, ew, kw), modulus)
}

/// The number of bits read: one for each pair of a predicted row and a
/// right-hand side.
pub open spec fn bits_read(eh: nat, er: Seq<Seq<i64>>) -> nat {
    if eh <= er.len() {
        eh
    } else {
        er.len()
    }
}

/// The bits that decryption reads, the first one the most significant, for
/// a ciphertext with rows `em` (`eh` by `ew`) and right-hand sides `er`.
pub open spec fn bits_of(
    em: Seq<Seq<i64>>,
    eh: nat,
    ew: nat,
    er: Seq<Seq<i64>>,
    k: Seq<Seq<i64>>,
    kw: nat,
    modulus: i64,
) -> Seq<u8> {
    let d = predicted(em, eh, ew, k, kw, modulus);
    Seq::new(
        bits_read(eh, er),
        |i: int| decrypt_bit_spec(d[i][0] as int, er[i][0] as int, modulus as int),
    )
}

/// The byte that decryption reads.
pub open spec fn byte_of(
    em: Seq<Seq<i64>>,
    eh: nat,
    ew: nat,
    er: Seq<Seq<i64>>,
    k: Seq<Seq<i64>>,
    kw: nat,
    modulus: i64,
) -> u8 {
    bits_to_byte(bits_of(em, eh, ew, er, k, kw, modulus)) as u8
}

/// Whether decryption runs: the product with the key (`kh` by `kw`) and the
/// remainders are defined, there are at most eight bits to read, and each
/// bit can be read.
pub open spec fn decryptable(
    em: Seq<Seq<i64>>,
    eh: nat,
    ew: nat,
    er: Seq<Seq<i64>>,
    k: Seq<Seq<i64>>,
    kh: nat,
    kw: nat,
    modulus: i64,
) -> bool {
    let d = predicted(em, eh, ew, k, kw, modulus);
    &&& product_defined(em, eh, ew, k, kh, kw)
    &&& rem_rows_defined(product(em, k, eh, ew, kw), modulus)
    &&& bits_read(eh, er) <= 8
    &&& forall|i: int|
        0 <= i < bits_read(eh, er) ==> (#[trigger] er[i]).len() >= 1 && decrypt_bit_defined(
            d[i][0] as int,
            er[i][0] as int,
            modulus as int,
        )
}

/// The rows that `decrypt_char` compares with the ciphertext.
pub open spec fn predicted_rows(encrypt_matrix: Matrix, priv_key: Matrix, modulus: i64) -> Seq<
    Seq<i64>,
> {
    predicted(
        encrypt_matrix.rows(),
        encrypt_matrix.height(),
        encrypt_matrix.width(),
        priv_key.rows(),
        priv_key.width(),
        modulus,
    )
}

/// The number of bits that `decrypt_char` reads.
pub open spec fn decrypted_len(encrypt_matrix: Matrix, encrypt_result: Matrix) -> nat {
    bits_read(encrypt_matrix.height(), encrypt_result.rows())
}

/// The bits that `decrypt_char` reads, the first one the most significant.
pub open spec fn decrypted_bits(
    encrypt_matrix: Matrix,
    encrypt_result: Matrix,
    priv_key: Matrix,
    modulus: i64,
) -> Seq<u8> {
    bits_of(
        encrypt_matrix.rows(),
        encrypt_matrix.height(),
        encrypt_matrix.width(),
        encrypt_result.rows(),
        priv_key.rows(),
        priv_key.width(),
        modulus,
    )
}

/// The byte that `decrypt_char` reads.
pub open spec fn decrypted_byte(
    encrypt_matrix: Matrix,
    encrypt_result: Matrix,
    priv_key: Matrix,
    modulus: i64,
) -> u8 {
    bits_to_byte(decrypted_bits(encrypt_matrix, encrypt_result, priv_key, modulus)) as u8
}

/// Whether `decrypt_char` returns (see `decryptable`).
pub open spec fn decrypt_char_defined(
    encrypt_matrix: Matrix,
    encrypt_result: Matrix,
    priv_key: Matrix,
    modulus: i64,
) -> bool {
    decryptable(
        encrypt_matrix.rows(),
        encrypt_matrix.height(),
        encrypt_matrix.width(),
        encrypt_result.rows(),
        priv_key.rows(),
        priv_key.height(),
        priv_key.width(),
        modulus,
    )
}

proof fn lemma_fold_step(acc: u8, b: u8, i: u8)
    requires
        b <= 1,
        i < 8,
        acc & (0xffu8 >> i) == 0,
    ensures
        acc ^ ((b << 7u8) >> i) == acc + b * (128u8 >> i),
        (acc ^ ((b << 7u8) >> i)) & (0xffu8 >> ((i + 1) as u8)) == 0,
{
    assert(acc ^ ((b << 7u8) >> i) == acc + b * (128u8 >> i)) by (bit_vector)
        requires
            b <= 1,
            i < 8,
            acc & (0xffu8 >> i) == 0,
    ;
    assert((acc ^ ((b << 7u8) >> i)) & (0xffu8 >> ((i + 1) as u8)) == 0) by (bit_vector)
        requires
            b <= 1,
            i < 8,
            acc & (0xffu8 >> i) == 0,
    ;
}

proof fn lemma_high_bit_weight(i: u8)
    requires
        i < 8,
    ensures
        (128u8 >> i) == pow2((7 - i) as nat),
{
    lemma2_to64();
    assert(i == 0 ==> (128u8 >> i) == 128) by (bit_vector);
    assert(i == 1 ==> (128u8 >> i) == 64) by (bit_vector);
    assert(i == 2 ==> (128u8 >> i) == 32) by (bit_vector);
    assert(i == 3 ==> (128u8 >> i) == 16) by (bit_vector);
    assert(i == 4 ==> (128u8 >> i) == 8) by (bit_vector);
    assert(i == 5 ==> (128u8 >> i) == 4) by (bit_vector);
    assert(i == 6 ==> (128u8 >> i) == 2) by (bit_vector);
    assert(i == 7 ==> (128u8 >> i) == 1) by (bit_vector);
}

/// Decrypts one character: multiplies the ciphertext matrix by the private
/// key, reduces modulo `modulus`, reads one bit from each row against the
/// ciphertext's right-hand side, the first row giving the most significant
/// bit, and reads the byte as UTF-8.
pub fn decrypt_char(encrypt_matrix: Matrix, encrypt_result: Matrix, priv_key: &Matrix, modulus: i64) -> (r:
    Result<String, std::string::FromUtf8Error>)
    requires
        decrypt_char_defined(encrypt_matrix, encrypt_result, *priv_key, modulus),
    ensures
        r is Ok <==> decrypted_byte(encrypt_matrix, encrypt_result, *priv_key, modulus) < 0x80,
        r matches Ok(s) ==> s@ == seq![
            decrypted_byte(encrypt_matrix, encrypt_result, *priv_key, modulus) as char,
        ],
{
    let ghost p = product(
        encrypt_matrix.rows(),
        priv_key.rows(),
        encrypt_matrix.height(),
        encrypt_matrix.width(),
        priv_key.width(),
    );
    let ghost d = predicted_rows(encrypt_matrix, *priv_key, modulus);
    let ghost bits = decrypted_bits(encrypt_matrix, encrypt_result, *priv_key, modulus);
    let mut decrypt_result = encrypt_matrix.mul(priv_key);
    let m = modulus;
    let reduce = |x: &i64| -> (y: i64)
        requires
            rem_defined(*x as int, m as int),
        ensures
            y == trunc_rem(*x as int, m as int),
    {
        *x % m
    };
    decrypt_result.map(reduce);
    let n = if decrypt_result.num_rows() <= encrypt_result.num_rows() {
        decrypt_result.num_rows()
    } else {
        encrypt_result.num_rows()
    };
    assert(n == decrypted_len(encrypt_matrix, encrypt_result));
    let mut acc: u8 = 0;
    assert(acc & (0xffu8 >> 0u8) == 0) by (bit_vector)
        requires
            acc == 0,
    ;
    for i in 0..n
        invariant
            n == bits.len(),
            n <= 8,
            bits == decrypted_bits(encrypt_matrix, encrypt_result, *priv_key, modulus),
            d == predicted_rows(encrypt_matrix, *priv_key, modulus),
            decrypt_char_defined(encrypt_matrix, encrypt_result, *priv_key, modulus),
            decrypt_result.rows().len() == p.len(),
            n <= p.len(),
            n <= encrypt_result.rows().len(),
            forall|k: int|
                0 <= k < n ==> (#[trigger] decrypt_result.rows()[k]).len() >= 1
                    && decrypt_result.rows()[k][0] == d[k][0],
            acc == bits_to_byte(bits.subrange(0, i as int)),
            acc & (0xffu8 >> (i as u8)) == 0,
    {
        let dv = *decrypt_result.index(i).index(0);
        let rv = *encrypt_result.index(i).index(0);
        let b = decrypt_bit(dv, rv, modulus);
        assert(b == bits[i as int]);
        proof {
            lemma_fold_step(acc, b, i as u8);
            lemma_high_bit_weight(i as u8);
            assert(bits.subrange(0, i + 1).drop_last() == bits.subrange(0, i as int));
        }
        acc = acc ^ ((b << 7u8) >> (i as u8));
    }
    assert(bits.subrange(0, n as int) == bits);
    let mut v: Vec<u8> = Vec::new();
    v.push(acc);
    proof {
        lemma_single_byte_utf8(acc);
        assert(v@ == seq![acc]);
    }
    string_from_utf8(v)
}


/// Whether `decrypt_bit` returns on these values (see `decrypt_bit_defined`).
pub fn can_decrypt_bit(ans: i64, v: i64, modulus: i64) -> (b: bool)
    ensures
        b == decrypt_bit_defined(ans as int, v as int, modulus as int),
{
    let d: i128 = (v as i128) - (ans as i128);
    if d <= (i64::MIN as i128) || d > (i64::MAX as i128) || modulus == 0 {
        return false;
    }
    let d64 = d as i64;
    let a = if d64 < 0 { -d64 } else { d64 };
    let val = a % modulus;
    let x: i128 = (modulus as i128) - (val as i128);
    if x < (i64::MIN as i128) || x > (i64::MAX as i128) {
        return false;
    }
    let y: i128 = ((modulus / 2) as i128) - (val as i128);
    if y <= (i64::MIN as i128) || y > (i64::MAX as i128) {
        return false;
    }
    true
}

/// Whether `decrypt_char` returns on these arguments (see `decryptable`).
pub fn can_decrypt_char(encrypt_matrix: &Matrix, encrypt_result: &Matrix, priv_key: &Matrix, modulus: i64) -> (b:
    bool)
    ensures
        b == decrypt_char_defined(*encrypt_matrix, *encrypt_result, *priv_key, modulus),
{
    let p = match encrypt_matrix.checked_mul(priv_key) {
        Some(p) => p,
        None => { return false; },
    };
    if !p.can_rem(modulus) {
        return false;
    }
    let d = p.rem(modulus);
    let ghost dr = predicted_rows(*encrypt_matrix, *priv_key, modulus);
    assert(d.rows() == dr);
    let n = if d.num_rows() <= encrypt_result.num_rows() {
        d.num_rows()
    } else {
        encrypt_result.num_rows()
    };
    assert(n == decrypted_len(*encrypt_matrix, *encrypt_result));
    if n > 8 {
        return false;
    }
    assert forall|k: int| 0 <= k < dr.len() implies (#[trigger] dr[k]).len() == priv_key.width() by {
        assert(dr[k] == rem_all(product(encrypt_matrix.rows(), priv_key.rows(), encrypt_matrix.height(), encrypt_matrix.width(), priv_key.width())[k], modulus));
    }
    for i in 0..n
        invariant
            n == decrypted_len(*encrypt_matrix, *encrypt_result),
            n <= dr.len(),
            n <= encrypt_result.rows().len(),
            d.rows() == dr,
            dr == predicted_rows(*encrypt_matrix, *priv_key, modulus),
            encrypt_matrix.mul_defined(priv_key),
            forall|k: int| 0 <= k < dr.len() ==> (#[trigger] dr[k]).len() == priv_key.width(),
            forall|k: int|
                0 <= k < i ==> (#[trigger] encrypt_result.rows()[k]).len() >= 1 && decrypt_bit_defined(
                    dr[k][0] as int,
                    encrypt_result.rows()[k][0] as int,
                    modulus as int,
                ),
    {
        let r = encrypt_result.index(i);
        if r.len() < 1 {
            assert(encrypt_result.rows()[i as int].len() < 1);
            assert(!decrypt_char_defined(*encrypt_matrix, *encrypt_result, *priv_key, modulus));
            return false;
        }
        assert(dr[i as int].len() >= 1);
        let ans = *d.index(i).index(0);
        let v = *r.index(0);
        if !can_decrypt_bit(ans, v, modulus) {
            assert(!decrypt_bit_defined(dr[i as int][0] as int, encrypt_result.rows()[i as int][0] as int, modulus as int));
            return false;
        }
    }
    true
}

/// The lines of a text, as characters.
pub open spec fn lines_view(lines: Seq<String>) -> Seq<Seq<char>> {
    lines.map_values(|l: String| l@)
}

/// The character that record `t` of a field decrypts to: the ciphertext
/// matrix on line `pos + 2 * t` and its right-hand sides on the next line,
/// both read with height 8, decrypted with the key (rows `k`, `kh` by `kw`);
/// `None` when a line is missing, unreadable or does not decrypt to ASCII.
pub open spec fn record_char(
    lines: Seq<Seq<char>>,
    pos: nat,
    t: nat,
    k: Seq<Seq<i64>>,
    kh: nat,
    kw: nat,
    modulus: i64,
) -> Option<char> {
    let l = pos + 2 * t;
    if l + 1 < lines.len() {
        match (matrix_from_text(lines[l as int], 8), matrix_from_text(lines[l + 1 as int], 8)) {
            (Some(em), Some(er)) => {
                let byte = byte_of(em.0, 8, em.1, er.0, k, kw, modulus);
                if decryptable(em.0, 8, em.1, er.0, k, kh, kw, modulus) && byte < 0x80 {
                    Some(byte as char)
                } else {
                    None
                }
            },
            _ => None,
        }
    } else {
        None
    }
}

/// The characters that the first `count` records from line `pos` on decrypt to.
pub open spec fn records_text(
    lines: Seq<Seq<char>>,
    pos: nat,
    count: nat,
    k: Seq<Seq<i64>>,
    kh: nat,
    kw: nat,
    modulus: i64,
) -> Option<Seq<char>>
    decreases count,
{
    if count == 0 {
        Some(seq![])
    } else {
        match records_text(lines, pos, (count - 1) as nat, k, kh, kw, modulus) {
            Some(prev) => match record_char(lines, pos, (count - 1) as nat, k, kh, kw, modulus) {
                Some(c) => Some(prev.push(c)),
                None => None,
            },
            None => None,
        }
    }
}

/// A field read from line `start` on: the number of records on its first
/// line, then that many records; its text and the line after it.
pub open spec fn field_text(
    lines: Seq<Seq<char>>,
    start: nat,
    k: Seq<Seq<i64>>,
    kh: nat,
    kw: nat,
    modulus: i64,
) -> Option<(Seq<char>, nat)> {
    if start < lines.len() {
        match parse_usize_spec(lines[start as int]) {
            Some(count) => match records_text(lines, start + 1, count as nat, k, kh, kw, modulus) {
                Some(t) => Some((t, (start + 1 + 2 * count) as nat)),
                None => None,
            },
            None => None,
        }
    } else {
        None
    }
}

proof fn lemma_records_none(
    lines: Seq<Seq<char>>,
    pos: nat,
    j: nat,
    c: nat,
    k: Seq<Seq<i64>>,
    kh: nat,
    kw: nat,
    modulus: i64,
)
    requires
        j <= c,
        records_text(lines, pos, j, k, kh, kw, modulus) is None,
    ensures
        records_text(lines, pos, c, k, kh, kw, modulus) is None,
    decreases c - j,
{
    if j < c {
        lemma_records_none(lines, pos, j + 1, c, k, kh, kw, modulus);
    }
}

/// Decrypts the field that starts at line `start`: returns its text and
/// the line after it (see `field_text`).
pub fn decrypt_field(lines: &Vec<String>, start: usize, private_key: &Matrix, modulus: i64) -> (r: Option<
    (String, usize),
>)
    ensures
        r is Some <==> field_text(
            lines_view(lines@),
            start as nat,
            private_key.rows(),
            private_key.height(),
            private_key.width(),
            modulus,
        ) is Some,
        r matches Some(p) ==> {
            let f = field_text(
                lines_view(lines@),
                start as nat,
                private_key.rows(),
                private_key.height(),
                private_key.width(),
                modulus,
            )->0;
            p.0@ == f.0 && p.1 == f.1
        },
{
    let ghost lv = lines_view(lines@);
    let ghost k = private_key.rows();
    let ghost kh = private_key.height();
    let ghost kw = private_key.width();
    if start >= lines.len() {
        return None;
    }
    assert(lv[start as int] == lines@[start as int]@);
    let count = match parse_usize_str(lines[start].as_str()) {
        Some(c) => c,
        None => { return None; },
    };
    let mut out = String::new();
    let mut l = start + 1;
    for t in 0..count
        invariant
            lv == lines_view(lines@),
            k == private_key.rows(),
            kh == private_key.height(),
            kw == private_key.width(),
            l == start + 1 + 2 * t,
            l <= lines@.len(),
            start < lines@.len(),
            parse_usize_spec(lv[start as int]) == Some(count),
            records_text(lv, (start + 1) as nat, t as nat, k, kh, kw, modulus) == Some(out@),
    {
        if l >= lines.len() || l >= lines.len() - 1 {
            assert(record_char(lv, (start + 1) as nat, t as nat, k, kh, kw, modulus) is None);
            assert(records_text(lv, (start + 1) as nat, (t + 1) as nat, k, kh, kw, modulus) is None);
            proof {
                lemma_records_none(lv, (start + 1) as nat, (t + 1) as nat, count as nat, k, kh, kw, modulus);
            }
            assert(records_text(lv, (start + 1) as nat, count as nat, k, kh, kw, modulus) is None);
            assert(parse_usize_spec(lv[start as int]) == Some(count));
            return None;
        }
        assert(lv[l as int] == lines@[l as int]@);
        assert(lv[l + 1] == lines@[l + 1]@);
        let em = Matrix::from_text(lines[l].as_str(), 8);
        let er = Matrix::from_text(lines[l + 1].as_str(), 8);
        let (em, er) = match (em, er) {
            (Some(a), Some(b)) => (a, b),
            _ => {
                assert(record_char(lv, (start + 1) as nat, t as nat, k, kh, kw, modulus) is None);
                proof {
                    lemma_records_none(lv, (start + 1) as nat, (t + 1) as nat, count as nat, k, kh, kw, modulus);
                }
                return None;
            },
        };
        if !can_decrypt_char(&em, &er, private_key, modulus) {
            assert(record_char(lv, (start + 1) as nat, t as nat, k, kh, kw, modulus) is None);
            proof {
                lemma_records_none(lv, (start + 1) as nat, (t + 1) as nat, count as nat, k, kh, kw, modulus);
            }
            return None;
        }
        let ghost byte = decrypted_byte(em, er, *private_key, modulus);
        match decrypt_char(em, er, private_key, modulus) {
            Ok(s) => {
                out.append(s.as_str());
                assert(record_char(lv, (start + 1) as nat, t as nat, k, kh, kw, modulus) == Some(byte as char));
            },
            Err(_) => {
                assert(record_char(lv, (start + 1) as nat, t as nat, k, kh, kw, modulus) is None);
                proof {
                    lemma_records_none(lv, (start + 1) as nat, (t + 1) as nat, count as nat, k, kh, kw, modulus);
                }
                return None;
            },
        }
        l = l + 2;
    }
    Some((out, l))
}


/// What an account's text decrypts to with the private key, for the chosen
/// field: the modulus on the first line, then the user name field and the
/// password field (see `field_text`), both of which must decrypt; the key
/// is read as a matrix of one column. `None` where decryption fails.
pub open spec fn account_text(lines: Seq<Seq<char>>, private_key: Seq<i64>, field: FIELD) -> Option<
    Seq<char>,
> {
    let n = private_key.len();
    if n > 0 && lines.len() > 0 {
        match parse_i64_spec(lines[0]) {
            Some(modulus) => {
                let k = chunks(private_key, n, 1);
                match field_text(lines, 1, k, n, 1, modulus) {
                    Some(user) => match field_text(lines, user.1, k, n, 1, modulus) {
                        Some(pass) => Some(
                            match field {
                                FIELD::USERNAME => user.0,
                                FIELD::PASSWORD => pass.0,
                            },
                        ),
                        None => None,
                    },
                    None => None,
                }
            },
            None => None,
        }
    } else {
        None
    }
}

/// Decrypts the chosen field of an account from the lines of its text
/// (see `account_text`).
pub fn decrypt_account(lines: &Vec<String>, private_key: &[i64], field: FIELD) -> (r: Option<String>)
    ensures
        r is Some <==> account_text(lines_view(lines@), private_key@, field) is Some,
        r matches Some(t) ==> t@ == account_text(lines_view(lines@), private_key@, field)->0,
{
    let n = private_key.len();
    if n == 0 || lines.len() == 0 {
        return None;
    }
    proof {
        super::lemma_chunks_shape(private_key@, n as nat, 1);
    }
    let key = Matrix::from_slice(private_key, n);
    assert(lines_view(lines@)[0] == lines@[0]@);
    let modulus = match parse_i64_str(lines[0].as_str()) {
        Some(m) => m,
        None => { return None; },
    };
    let (user, next) = match decrypt_field(lines, 1, &key, modulus) {
        Some(p) => p,
        None => { return None; },
    };
    let (pass, _) = match decrypt_field(lines, next, &key, modulus) {
        Some(p) => p,
        None => { return None; },
    };
    match field {
        FIELD::USERNAME => Some(user),
        FIELD::PASSWORD => Some(pass),
    }
}

} // verus!
