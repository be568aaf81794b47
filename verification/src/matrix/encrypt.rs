//! Encryption with the public key: each bit becomes the sum of a few
//! consecutive equations, with half the modulus added to the right-hand
//! side for a 1.
use vstd::prelude::*;
use crate::arith::{fits_i64, trunc_rem, rem_defined, half_toward_zero};
use crate::rng::{rng, rng_state, lfsr_steps, bit_reverse, lemma_rng_state_add, Rng};
use vstd::utf8::encode_utf8;
use super::{
    Matrix, Row, Equation, add_into, add_into_fits, rem_all, rem_all_defined, matrix_text, printable,
};
use crate::text::{decimal, write_i64, write_u64};
use crate::text::chars_of;

verus! {

/// The seed of the generator that picks the equations to add.
pub const ENCRYPT_SEED: u64 = 17709312065;

/// The first of the equations summed for a bit, when the generator is in
/// state `s`: the first draw modulo half the height.
pub open spec fn window_start(s: u64, height: nat) -> nat {
    (bit_reverse(s) as nat) % (height / 2)
}

/// The number of equations summed for a bit, when the generator is in
/// state `s`: the second draw modulo 20.
pub open spec fn window_len(s: u64) -> nat {
    (bit_reverse(lfsr_steps(s, 64)) as nat) % 20
}

/// A row of `width` zeros with the `k` rows of `a` from `start` on added
/// into it one after the other.
pub open spec fn window_row(a: Seq<Seq<i64>>, start: nat, k: nat, width: nat) -> Seq<i64>
    decreases k,
{
    if k == 0 {
        Seq::new(width, |i: int| 0i64)
    } else {
        add_into(window_row(a, start, (k - 1) as nat, width), a[start + k - 1])
    }
}

/// The sum of the first entries of the `k` rows of `r` from `start` on.
pub open spec fn window_sum(r: Seq<Seq<i64>>, start: nat, k: nat) -> int
    decreases k,
{
    if k == 0 {
        0
    } else {
        window_sum(r, start, (k - 1) as nat) + r[start + k - 1][0]
    }
}

/// The row that encrypts a bit with the generator in state `s`.
pub open spec fn encrypted_row(eq: Equation, s: u64) -> Seq<i64> {
    let start = window_start(s, eq.matrix().height());
    rem_all(
        window_row(eq.matrix().rows(), start, window_len(s), eq.matrix().width()),
        eq.modulus(),
    )
}

/// The right-hand side that encrypts `bit` with the generator in state `s`:
/// the sum of the right-hand sides of the chosen equations, plus half the
/// modulus for a 1, modulo the modulus.
pub open spec fn encrypted_value(eq: Equation, s: u64, bit: u8) -> i64 {
    let sum = window_sum(eq.result().rows(), window_start(s, eq.matrix().height()), window_len(s));
    if bit == 1 {
        trunc_rem(sum + half_toward_zero(eq.modulus() as int), eq.modulus() as int) as i64
    } else {
        trunc_rem(sum, eq.modulus() as int) as i64
    }
}

/// Whether equation `i` can be added while summing the run of equations
/// that starts at `start`: it exists, and the sums stay in `i64`.
pub open spec fn window_step_ok(eq: Equation, start: nat, i: int) -> bool {
    let a = eq.matrix().rows();
    let r = eq.result().rows();
    let w = eq.matrix().width();
    &&& i < a.len()
    &&& i < r.len()
    &&& r[i].len() >= 1
    &&& add_into_fits(window_row(a, start, (i - start) as nat, w), a[i])
    &&& fits_i64(window_sum(r, start, (i - start + 1) as nat))
}

/// Whether encrypting `bit` with the generator in state `s` succeeds: the
/// bit is 0 or 1, the height is at least two, the chosen equations exist
/// and every sum and remainder formed is defined.
pub open spec fn encrypt_bit_defined(eq: Equation, s: u64, bit: u8) -> bool {
    let a = eq.matrix().rows();
    let r = eq.result().rows();
    let w = eq.matrix().width();
    let m = eq.modulus();
    let start = window_start(s, eq.matrix().height());
    let count = window_len(s);
    &&& bit <= 1
    &&& eq.matrix().height() / 2 > 0
    &&& forall|i: int| start <= i < start + count ==> #[trigger] window_step_ok(eq, start, i)
    &&& rem_all_defined(window_row(a, start, count, w), m)
    &&& bit == 1 ==> fits_i64(window_sum(r, start, count) + half_toward_zero(m as int))
        && rem_defined(window_sum(r, start, count) + half_toward_zero(m as int), m as int)
    &&& bit == 0 ==> rem_defined(window_sum(r, start, count), m as int)
}

/// Encrypts bits with a public key; it draws from its own generator, so
/// that successive bits use different equations.
pub struct BitEncrypter<'a> {
    equation: &'a Equation,
    rng: Rng,
}

impl<'a> BitEncrypter<'a> {
    /// The public key it encrypts with.
    pub closed spec fn equation(&self) -> Equation {
        *self.equation
    }

    /// The state of its generator.
    pub closed spec fn state(&self) -> u64 {
        self.rng.state()
    }

    /// Encrypts one bit: picks a run of consecutive equations with two
    /// draws, sums them, and returns the summed row and right-hand side
    /// modulo the modulus, with half the modulus added for a 1.
    pub fn call(&mut self, bit: u8) -> (out: (Row, i64))
        requires
            encrypt_bit_defined(old(self).equation(), old(self).state(), bit),
        ensures
            out.0@ == encrypted_row(old(self).equation(), old(self).state()),
            out.1 == encrypted_value(old(self).equation(), old(self).state(), bit),
            final(self).equation() == old(self).equation(),
            final(self).state() == rng_state(old(self).state(), 2),
    {
        let ghost s = self.rng.state();
        let eq = self.equation;
        let ghost a = eq.matrix().rows();
        let ghost r = eq.result().rows();
        let modulus = eq.get_modulus();
        let half = eq.get_height() / 2;
        let r1 = self.rng.next();
        let start = (r1 % (half as u64)) as usize;
        assert(start == window_start(s, eq.matrix().height()));
        let w = eq.get_width();
        let mut row = Row::new_zeroed(w);
        let mut equals_to: i64 = 0;
        let r2 = self.rng.next();
        let count = (r2 % 20) as usize;
        assert(count == window_len(s));
        assert(self.rng.state() == rng_state(s, 2)) by {
            reveal_with_fuel(rng_state, 3);
        }
        let end = start + count;
        let matrix = eq.get_matrix();
        let result = eq.get_result();
        for i in start..end
            invariant
                start == window_start(s, eq.matrix().height()),
                end == start + window_len(s),
                a == eq.matrix().rows(),
                r == eq.result().rows(),
                *matrix == eq.matrix(),
                *result == eq.result(),
                w == eq.matrix().width(),
                encrypt_bit_defined(*eq, s, bit),
                row@ == window_row(a, start as nat, (i - start) as nat, w as nat),
                equals_to == window_sum(r, start as nat, (i - start) as nat),
        {
            assert(window_step_ok(*eq, start as nat, i as int));
            assert(add_into_fits(window_row(a, start as nat, (i - start) as nat, w as nat), a[i as int]));
            assert(fits_i64(window_sum(r, start as nat, (i - start + 1) as nat)));
            row.add_assign(matrix.index(i));
            equals_to = equals_to + *result.index(i).index(0);
        }
        row.rem_assign(modulus);
        if bit == 1 {
            (row, (equals_to + modulus / 2) % modulus)
        } else {
            (row, equals_to % modulus)
        }
    }
}

impl<'a> BitEncrypter<'a> {
    /// Whether `call` can encrypt `bit` now (see `encrypt_bit_defined`).
    pub fn can_call(&self, bit: u8) -> (b: bool)
        ensures
            b == encrypt_bit_defined(self.equation(), self.state(), bit),
    {
        let ghost s = self.state();
        let eq = self.equation;
        let ghost a = eq.matrix().rows();
        let ghost r = eq.result().rows();
        let modulus = eq.get_modulus();
        let half = eq.get_height() / 2;
        if bit > 1 || half == 0 {
            return false;
        }
        let mut g = rng(self.rng.state_value());
        let r1 = g.next();
        let start = (r1 % (half as u64)) as usize;
        let r2 = g.next();
        let count = (r2 % 20) as usize;
        assert(start == window_start(s, eq.matrix().height()));
        assert(count == window_len(s));
        let w = eq.get_width();
        let mut row = Row::new_zeroed(w);
        let mut sum: i64 = 0;
        let end = start + count;
        let matrix = eq.get_matrix();
        let result = eq.get_result();
        for i in start..end
            invariant
                start == window_start(s, eq.matrix().height()),
                end == start + window_len(s),
                a == eq.matrix().rows(),
                r == eq.result().rows(),
                *matrix == eq.matrix(),
                *result == eq.result(),
                w == eq.matrix().width(),
                s == self.state(),
                *eq == self.equation(),
                forall|k: int| start <= k < i ==> #[trigger] window_step_ok(*eq, start as nat, k),
                row@ == window_row(a, start as nat, (i - start) as nat, w as nat),
                sum == window_sum(r, start as nat, (i - start) as nat),
        {
            if i >= matrix.num_rows() || i >= result.num_rows() {
                assert(!window_step_ok(*eq, start as nat, i as int));
                return false;
            }
            let rr = result.index(i);
            if rr.len() < 1 {
                assert(!window_step_ok(*eq, start as nat, i as int));
                return false;
            }
            let ai = matrix.index(i);
            if !row.can_add(ai) {
                assert(!window_step_ok(*eq, start as nat, i as int));
                return false;
            }
            let t: i128 = (sum as i128) + (*rr.index(0) as i128);
            if t < (i64::MIN as i128) || t > (i64::MAX as i128) {
                assert(!window_step_ok(*eq, start as nat, i as int));
                return false;
            }
            row.add_assign(ai);
            sum = t as i64;
            assert(window_step_ok(*eq, start as nat, i as int));
        }
        if !row.can_rem(modulus) {
            return false;
        }
        if bit == 1 {
            let t: i128 = (sum as i128) + ((modulus / 2) as i128);
            if t < (i64::MIN as i128) || t > (i64::MAX as i128) {
                return false;
            }
            let t64 = t as i64;
            if modulus == 0 || (t64 == i64::MIN && modulus == -1) {
                return false;
            }
        } else {
            if modulus == 0 || (sum == i64::MIN && modulus == -1) {
                return false;
            }
        }
        true
    }
}

/// Whether `encrypt_char` can encrypt `char` with `bit_encrypt` now: the
/// text is not empty and each of the eight bits can be encrypted in turn.
pub fn can_encrypt_char(char: &String, bit_encrypt: &BitEncrypter) -> (b: bool)
    ensures
        b == (char@.len() > 0 && encrypt_char_defined(
            bit_encrypt.equation(),
            bit_encrypt.state(),
            first_byte(char@),
        )),
{
    let bytes = char.as_str().as_bytes();
    assert(bytes@ == encode_utf8(char@));
    if bytes.len() == 0 {
        assert(char@.len() == 0) by {
            if char@.len() > 0 {
                assert(encode_utf8(char@).len() > 0);
            }
        }
        return false;
    }
    assert(char@.len() > 0);
    let byte = bytes[0];
    assert(byte == first_byte(char@));
    can_encrypt_byte(byte, bit_encrypt)
}

/// A bit encrypter for `equation`, its generator freshly seeded.
pub fn encrypt_bit(equation: &Equation) -> (e: BitEncrypter)
    ensures
        e.equation() == *equation,
        e.state() == ENCRYPT_SEED,
{
    BitEncrypter { equation, rng: rng(ENCRYPT_SEED) }
}


/// The state of a bit encrypter after `k` bits, from state `s`: each bit
/// takes two draws.
pub open spec fn encrypter_state(s: u64, k: nat) -> u64 {
    rng_state(s, 2 * k)
}

/// Bit `k` of `byte`, counting from the most significant (`k < 8`).
pub open spec fn char_bit(byte: u8, k: nat) -> u8 {
    (byte >> ((7 - k) as u8)) & 1u8
}

/// Whether the eight bits of `byte` can be encrypted one after the other
/// from generator state `s`.
pub open spec fn encrypt_char_defined(eq: Equation, s: u64, byte: u8) -> bool {
    forall|k: nat| k < 8 ==> #[trigger] encrypt_bit_defined(eq, encrypter_state(s, k), char_bit(byte, k))
}

/// The rows that encrypt the eight bits of a byte from generator state `s`.
pub open spec fn encrypted_char_rows(eq: Equation, s: u64) -> Seq<Seq<i64>> {
    Seq::new(8, |k: int| encrypted_row(eq, encrypter_state(s, k as nat)))
}

/// The right-hand sides, one per row, that encrypt the eight bits of `byte`
/// from generator state `s`.
pub open spec fn encrypted_char_values(eq: Equation, s: u64, byte: u8) -> Seq<Seq<i64>> {
    Seq::new(8, |k: int| seq![encrypted_value(eq, encrypter_state(s, k as nat), char_bit(byte, k as nat))])
}

/// The first byte of the UTF-8 encoding of `char`.
pub open spec fn first_byte(char: Seq<char>) -> u8 {
    encode_utf8(char)[0]
}

/// Encrypts a character, one bit of the first byte of its UTF-8 encoding
/// per row, the most significant first: returns the eight rows and the
/// column of their right-hand sides.
pub fn encrypt_char(equation: &Equation, char: String, bit_encrypt: &mut BitEncrypter) -> (out: (
    Matrix,
    Matrix,
))
    requires
        char@.len() > 0,
        encrypt_char_defined(old(bit_encrypt).equation(), old(bit_encrypt).state(), first_byte(char@)),
    ensures
        out.0.rows() == encrypted_char_rows(old(bit_encrypt).equation(), old(bit_encrypt).state()),
        out.0.height() == 8,
        out.0.width() == equation.matrix().width(),
        out.1.rows() == encrypted_char_values(
            old(bit_encrypt).equation(),
            old(bit_encrypt).state(),
            first_byte(char@),
        ),
        out.1.height() == 8,
        out.1.width() == 1,
        final(bit_encrypt).equation() == old(bit_encrypt).equation(),
        final(bit_encrypt).state() == encrypter_state(old(bit_encrypt).state(), 8),
{
    let bytes = char.as_str().as_bytes();
    assert(bytes@ == encode_utf8(char@));
    assert(bytes@.len() > 0);
    encrypt_byte(equation, bytes[0], bit_encrypt)
}

fn encrypt_byte(equation: &Equation, byte: u8, bit_encrypt: &mut BitEncrypter) -> (out: (Matrix, Matrix))
    requires
        encrypt_char_defined(old(bit_encrypt).equation(), old(bit_encrypt).state(), byte),
    ensures
        out.0.rows() == encrypted_char_rows(old(bit_encrypt).equation(), old(bit_encrypt).state()),
        out.0.height() == 8,
        out.0.width() == equation.matrix().width(),
        out.1.rows() == encrypted_char_values(old(bit_encrypt).equation(), old(bit_encrypt).state(), byte),
        out.1.height() == 8,
        out.1.width() == 1,
        final(bit_encrypt).equation() == old(bit_encrypt).equation(),
        final(bit_encrypt).state() == encrypter_state(old(bit_encrypt).state(), 8),
{
    let ghost eq = bit_encrypt.equation();
    let ghost s = bit_encrypt.state();
    let mut new_matrix = Matrix::matrix_builder(8, equation.get_width());
    let mut result = Matrix::matrix_builder(8, 1);
    for k in 0..8u8
        invariant
            bit_encrypt.equation() == eq,
            bit_encrypt.state() == encrypter_state(s, k as nat),
            encrypt_char_defined(eq, s, byte),
            new_matrix.rows() == encrypted_char_rows(eq, s).subrange(0, k as int),
            new_matrix.height() == 8,
            new_matrix.width() == equation.matrix().width(),
            result.rows() == encrypted_char_values(eq, s, byte).subrange(0, k as int),
            result.height() == 8,
            result.width() == 1,
    {
        let i: u8 = 7 - k;
        let bit = ((byte & (1u8 << i)) << (7 - i)) >> 7u8;
        assert(bit == (byte >> i) & 1u8) by (bit_vector)
            requires
                i < 8,
                bit == ((byte & (1u8 << i)) << ((7 - i) as u8)) >> 7u8,
        ;
        assert(bit == char_bit(byte, k as nat));
        assert(encrypt_bit_defined(eq, encrypter_state(s, k as nat), char_bit(byte, k as nat)));
        let (row, encrypt_value) = bit_encrypt.call(bit);
        proof {
            lemma_rng_state_add(s, 2 * k as nat, 2);
        }
        new_matrix.push_row(row);
        result.push_value(encrypt_value);
        assert(new_matrix.rows() == encrypted_char_rows(eq, s).subrange(0, k + 1));
        assert(result.rows() == encrypted_char_values(eq, s, byte).subrange(0, k + 1));
    }
    (new_matrix, result)
}

/// The first byte of the UTF-8 encoding of `c`.
fn leading_utf8_byte(c: char) -> (b: u8)
    ensures
        b == first_byte(seq![c]),
{
    let x = c as u32;
    assert(encode_utf8(seq![c]) == vstd::utf8::encode_scalar(c as u32) + encode_utf8(
        seq![c].drop_first(),
    ));
    if x <= 0x7F {
        (x & 0x7F) as u8
    } else if x <= 0x7FF {
        0xC0 | ((x >> 6) & 0x1F) as u8
    } else if x <= 0xFFFF {
        0xE0 | ((x >> 12) & 0x0F) as u8
    } else {
        0xF0 | ((x >> 18) & 0x7) as u8
    }
}

/// Every row that a window sum forms has `w` entries.
pub proof fn lemma_window_row_len(a: Seq<Seq<i64>>, start: nat, k: nat, w: nat)
    ensures
        window_row(a, start, k, w).len() == w,
    decreases k,
{
    if k > 0 {
        lemma_window_row_len(a, start, (k - 1) as nat, w);
    }
}

/// Whether character `t` of `chars` can be encrypted, the generator
/// starting from state `s` at the first character.
pub open spec fn char_encryptable(eq: Equation, s: u64, chars: Seq<char>, t: int) -> bool {
    encrypt_char_defined(eq, encrypter_state(s, (8 * t) as nat), first_byte(seq![chars[t]]))
}

/// Whether every character of `chars` can be encrypted in turn from state `s`.
pub open spec fn field_encryptable(eq: Equation, s: u64, chars: Seq<char>) -> bool {
    forall|t: int| 0 <= t < chars.len() ==> #[trigger] char_encryptable(eq, s, chars, t)
}

/// The text that encrypts the characters of `chars` in turn from state
/// `s`: for each, the eight encrypted rows on one line and their right-hand
/// sides on the next.
pub open spec fn field_records(eq: Equation, s: u64, chars: Seq<char>) -> Seq<u8>
    decreases chars.len(),
{
    if chars.len() == 0 {
        seq![]
    } else {
        let t = chars.len() - 1;
        let st = encrypter_state(s, (8 * t) as nat);
        field_records(eq, s, chars.drop_last()) + matrix_text(encrypted_char_rows(eq, st), 8) + seq![
            10u8,
        ] + matrix_text(encrypted_char_values(eq, st, first_byte(seq![chars.last()])), 8) + seq![
            10u8,
        ]
    }
}

/// The stored form of an account: the modulus, then for the user name and
/// then the password the length of its UTF-8 encoding followed by its
/// encrypted characters, each part on its own lines; the generator runs on
/// from the user name into the password.
pub open spec fn account_ciphertext(eq: Equation, user: Seq<char>, pass: Seq<char>) -> Seq<u8> {
    let s2 = encrypter_state(ENCRYPT_SEED, 8 * user.len());
    decimal(eq.modulus() as int) + seq![10u8] + decimal(encode_utf8(user).len() as int) + seq![10u8]
        + field_records(eq, ENCRYPT_SEED, user) + decimal(encode_utf8(pass).len() as int) + seq![
        10u8,
    ] + field_records(eq, s2, pass)
}

/// Whether an account can be encrypted: the rows are at least one wide and
/// every character of both fields can be encrypted in turn.
pub open spec fn account_encryptable(eq: Equation, user: Seq<char>, pass: Seq<char>) -> bool {
    &&& eq.matrix().width() >= 1
    &&& field_encryptable(eq, ENCRYPT_SEED, user)
    &&& field_encryptable(eq, encrypter_state(ENCRYPT_SEED, 8 * user.len()), pass)
}

fn append(out: &mut Vec<u8>, more: &Vec<u8>)
    ensures
        final(out)@ == old(out)@ + more@,
{
    let n = more.len();
    for j in 0..n
        invariant
            n == more@.len(),
            out@ == old(out)@ + more@.subrange(0, j as int),
    {
        out.push(more[j]);
        assert(out@ == old(out)@ + more@.subrange(0, j + 1));
    }
    assert(more@.subrange(0, n as int) == more@);
}

/// Whether the first byte `byte` of a character can be encrypted with the
/// encrypter's generator in its current state (see `encrypt_char_defined`).
fn can_encrypt_byte(byte: u8, bit_encrypt: &BitEncrypter) -> (b: bool)
    ensures
        b == encrypt_char_defined(bit_encrypt.equation(), bit_encrypt.state(), byte),
{
    let ghost eq = bit_encrypt.equation();
    let ghost s = bit_encrypt.state();
    let mut probe = BitEncrypter { equation: bit_encrypt.equation, rng: rng(bit_encrypt.rng.state_value()) };
    for k in 0..8u8
        invariant
            eq == bit_encrypt.equation(),
            s == bit_encrypt.state(),
            probe.equation() == eq,
            probe.state() == encrypter_state(s, k as nat),
            forall|j: nat| j < k ==> #[trigger] encrypt_bit_defined(eq, encrypter_state(s, j), char_bit(byte, j)),
    {
        let i: u8 = 7 - k;
        let bit = ((byte & (1u8 << i)) << (7 - i)) >> 7u8;
        assert(bit == (byte >> i) & 1u8) by (bit_vector)
            requires
                i < 8,
                bit == ((byte & (1u8 << i)) << ((7 - i) as u8)) >> 7u8,
        ;
        assert(bit == char_bit(byte, k as nat));
        if !probe.can_call(bit) {
            assert(!encrypt_bit_defined(eq, encrypter_state(s, k as nat), char_bit(byte, k as nat)));
            return false;
        }
        let _ = probe.call(bit);
        proof {
            lemma_rng_state_add(s, 2 * k as nat, 2);
        }
    }
    true
}

fn write_field(equation: &Equation, text: &str, bit_encrypt: &mut BitEncrypter, out: &mut Vec<u8>) -> (ok:
    bool)
    requires
        old(bit_encrypt).equation() == *equation,
        equation.matrix().width() >= 1,
    ensures
        ok == field_encryptable(*equation, old(bit_encrypt).state(), text@),
        ok ==> final(out)@ == old(out)@ + decimal(encode_utf8(text@).len() as int) + seq![10u8]
            + field_records(*equation, old(bit_encrypt).state(), text@),
        ok ==> final(bit_encrypt).state() == encrypter_state(old(bit_encrypt).state(), 8 * text@.len()),
        final(bit_encrypt).equation() == *equation,
{
    let ghost s = bit_encrypt.state();
    let bytes = text.as_bytes();
    write_u64(bytes.len() as u64, out);
    out.push(10u8);
    let ghost head = out@;
    let chars = chars_of(text);
    let n = chars.len();
    for t in 0..n
        invariant
            n == text@.len(),
            chars@ == text@,
            s == old(bit_encrypt).state(),
            bit_encrypt.equation() == *equation,
            equation.matrix().width() >= 1,
            bit_encrypt.state() == encrypter_state(s, (8 * t) as nat),
            forall|j: int| 0 <= j < t ==> #[trigger] char_encryptable(*equation, s, text@, j),
            out@ == head + field_records(*equation, s, text@.take(t as int)),
    {
        let c = chars[t];
        let byte = leading_utf8_byte(c);
        assert(text@[t as int] == c);
        if !can_encrypt_byte(byte, bit_encrypt) {
            assert(!char_encryptable(*equation, s, text@, t as int));
            return false;
        }
        assert(char_encryptable(*equation, s, text@, t as int));
        let ghost st = bit_encrypt.state();
        let (m, r) = encrypt_byte(equation, byte, bit_encrypt);
        proof {
            lemma_rng_state_add(s, (16 * t) as nat, 16);
            assert forall|i: int| 0 <= i < 8 implies (#[trigger] m.rows()[i]).len() >= 1 by {
                lemma_window_row_len(
                    equation.matrix().rows(),
                    window_start(encrypter_state(st, i as nat), equation.matrix().height()),
                    window_len(encrypter_state(st, i as nat)),
                    equation.matrix().width(),
                );
            }
            assert forall|i: int| 0 <= i < 8 implies (#[trigger] r.rows()[i]).len() >= 1 by {}
        }
        let mt = m.to_text();
        let rt = r.to_text();
        append(out, &mt);
        out.push(10u8);
        append(out, &rt);
        out.push(10u8);
        proof {
            assert(text@.take(t + 1).drop_last() == text@.take(t as int));
            assert(text@.take(t + 1).last() == c);
        }
    }
    assert(text@.take(n as int) == text@);
    true
}

/// Encrypts an account's user name and password with the public key: the
/// stored text (see `account_ciphertext`), or `None` when the encryption
/// cannot be carried out (see `account_encryptable`).
pub fn encrypt_account(equation: &Equation, username: &str, password: &str) -> (r: Option<Vec<u8>>)
    ensures
        r is Some <==> account_encryptable(*equation, username@, password@),
        r matches Some(t) ==> t@ == account_ciphertext(*equation, username@, password@),
{
    if equation.get_width() < 1 {
        return None;
    }
    let mut out: Vec<u8> = Vec::new();
    write_i64(equation.get_modulus(), &mut out);
    out.push(10u8);
    let mut enc = encrypt_bit(equation);
    if !write_field(equation, username, &mut enc, &mut out) {
        return None;
    }
    if !write_field(equation, password, &mut enc, &mut out) {
        return None;
    }
    Some(out)
}

} // verus!
