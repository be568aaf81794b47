//! An account stored by `encrypt_account` reads back through
//! `decrypt_account`: the lines of the stored text decrypt, with the key
//! that the public key was made with, to the user name and the password
//! that were stored.
use vstd::prelude::*;
use vstd::utf8::encode_utf8;
use crate::text::{
    ascii, decimal, join, space, no_white_space, is_white_space, lemma_ascii_append,
    lemma_decimal_read_back, lemma_usize_read_back, lemma_decimal_no_white_space, join_decimal,
};
use vstd::utf8::{is_ascii_chars, is_ascii_chars_encode_utf8};
use super::{
    Equation, matrix_text, row_text, law_matrix_text_read_back, chunks, lemma_chunks_shape,
    equation_text, equation_header, equation_from_text, law_equation_text_read_back,
};
use super::encrypt::{
    ENCRYPT_SEED, encrypter_state, encrypted_char_rows, encrypted_char_values, first_byte,
    field_records, account_ciphertext, char_encryptable, field_encryptable, account_encryptable,
    lemma_window_row_len, window_start, window_len,
};
use super::decrypt::{record_char, records_text, field_text, account_text, decryptable, byte_of};
use super::correctness::{
    consistent_with_key, errors_bounded, key_column, lemma_char_record_decrypts,
    law_generated_keys_consistent, noise_errors,
};
use super::keygen::{keygen_defined, public_rows, keygen_result, public_entries};
use crate::FIELD;
use crate::rng::lemma_rng_state_add;

verus! {

// ---------------------------------------------------------------------------
// Lines of a text
// ---------------------------------------------------------------------------

/// Whether `t` holds no line feed.
pub open spec fn no_line_feed(t: Seq<char>) -> bool {
    forall|i: int| 0 <= i < t.len() ==> t[i] != '\n'
}

/// Whether no line of `lines` holds a line feed.
pub open spec fn lines_well_formed(lines: Seq<Seq<char>>) -> bool {
    forall|i: int| 0 <= i < lines.len() ==> no_line_feed(#[trigger] lines[i])
}

/// The text made of `lines`, each followed by a line feed.
pub open spec fn terminated_lines(lines: Seq<Seq<char>>) -> Seq<char>
    decreases lines.len(),
{
    if lines.len() == 0 {
        seq![]
    } else {
        terminated_lines(lines.drop_last()) + lines.last() + seq!['\n']
    }
}

/// The text of two runs of lines is the text of the first then that of
/// the second.
pub proof fn lemma_terminated_append(a: Seq<Seq<char>>, b: Seq<Seq<char>>)
    ensures
        terminated_lines(a + b) == terminated_lines(a) + terminated_lines(b),
    decreases b.len(),
{
    if b.len() == 0 {
        assert(a + b =~= a);
        assert(terminated_lines(a) + terminated_lines(b) =~= terminated_lines(a));
    } else {
        lemma_terminated_append(a, b.drop_last());
        assert((a + b).drop_last() =~= a + b.drop_last());
        assert((a + b).last() == b.last());
        assert(terminated_lines(a + b) =~= terminated_lines(a) + terminated_lines(b));
    }
}

proof fn lemma_terminated_ends(lines: Seq<Seq<char>>)
    requires
        lines.len() > 0,
    ensures
        terminated_lines(lines).len() > 0,
        terminated_lines(lines).last() == '\n',
{
}

/// A text splits into lines in one way only: two runs of lines without
/// line feeds that make the same text are the same.
pub proof fn lemma_lines_unique(a: Seq<Seq<char>>, b: Seq<Seq<char>>)
    requires
        lines_well_formed(a),
        lines_well_formed(b),
        terminated_lines(a) == terminated_lines(b),
    ensures
        a == b,
    decreases a.len(),
{
    if a.len() == 0 {
        if b.len() > 0 {
            lemma_terminated_ends(b);
        }
        assert(a =~= b);
    } else {
        if b.len() == 0 {
            lemma_terminated_ends(a);
        }
        let t = terminated_lines(a);
        let ta = terminated_lines(a.drop_last());
        let tb = terminated_lines(b.drop_last());
        let la = a.last();
        let lb = b.last();
        assert(t == ta + la + seq!['\n']);
        assert(t == tb + lb + seq!['\n']);
        assert(ta.len() + la.len() == tb.len() + lb.len());
        assert(no_line_feed(la)) by {
            assert(a[a.len() - 1] == la);
        }
        assert(no_line_feed(lb)) by {
            assert(b[b.len() - 1] == lb);
        }
        if la.len() < lb.len() {
            lemma_terminated_ends(a.drop_last());
            let p = ta.len() - 1;
            assert(t[p] == ta[p]);
            assert(t[p] == lb[p - tb.len()]);
            assert(false);
        }
        if lb.len() < la.len() {
            lemma_terminated_ends(b.drop_last());
            let p = tb.len() - 1;
            assert(t[p] == tb[p]);
            assert(t[p] == la[p - ta.len()]);
            assert(false);
        }
        assert(la =~= lb) by {
            assert forall|i: int| 0 <= i < la.len() implies la[i] == lb[i] by {
                assert(t[ta.len() + i] == la[i]);
                assert(t[tb.len() + i] == lb[i]);
            }
        }
        assert(ta =~= tb) by {
            assert forall|i: int| 0 <= i < ta.len() implies ta[i] == tb[i] by {
                assert(t[i] == ta[i]);
                assert(t[i] == tb[i]);
            }
        }
        assert(lines_well_formed(a.drop_last())) by {
            assert forall|i: int| 0 <= i < a.drop_last().len() implies no_line_feed(
                #[trigger] a.drop_last()[i],
            ) by {
                assert(a.drop_last()[i] == a[i]);
            }
        }
        assert(lines_well_formed(b.drop_last())) by {
            assert forall|i: int| 0 <= i < b.drop_last().len() implies no_line_feed(
                #[trigger] b.drop_last()[i],
            ) by {
                assert(b.drop_last()[i] == b[i]);
            }
        }
        lemma_lines_unique(a.drop_last(), b.drop_last());
        assert(a =~= b) by {
            assert forall|i: int| 0 <= i < a.len() implies a[i] == b[i] by {
                if i < a.len() - 1 {
                    assert(a[i] == a.drop_last()[i]);
                    assert(b[i] == b.drop_last()[i]);
                }
            }
        }
    }
}

// ---------------------------------------------------------------------------
// The lines of a stored account
// ---------------------------------------------------------------------------

/// The lines that encrypt the characters of `chars` in turn from state
/// `s`: for each, the line of its eight encrypted rows and the line of
/// their right-hand sides.
pub open spec fn record_lines(eq: Equation, s: u64, chars: Seq<char>) -> Seq<Seq<char>>
    decreases chars.len(),
{
    if chars.len() == 0 {
        seq![]
    } else {
        let t = chars.len() - 1;
        let st = encrypter_state(s, (8 * t) as nat);
        record_lines(eq, s, chars.drop_last()) + seq![
            ascii(matrix_text(encrypted_char_rows(eq, st), 8)),
            ascii(matrix_text(encrypted_char_values(eq, st, first_byte(seq![chars.last()])), 8)),
        ]
    }
}

/// The lines of the stored form of an account (see `account_ciphertext`):
/// the modulus, the length of the user name, its records, the length of
/// the password and its records.
pub open spec fn account_lines(eq: Equation, user: Seq<char>, pass: Seq<char>) -> Seq<Seq<char>> {
    let s2 = encrypter_state(ENCRYPT_SEED, 8 * user.len());
    seq![ascii(decimal(eq.modulus() as int)), ascii(decimal(encode_utf8(user).len() as int))]
        + record_lines(eq, ENCRYPT_SEED, user) + seq![ascii(decimal(encode_utf8(pass).len() as int))]
        + record_lines(eq, s2, pass)
}

proof fn lemma_record_lines_text(eq: Equation, s: u64, chars: Seq<char>)
    ensures
        terminated_lines(record_lines(eq, s, chars)) == ascii(field_records(eq, s, chars)),
    decreases chars.len(),
{
    if chars.len() > 0 {
        let t = chars.len() - 1;
        let st = encrypter_state(s, (8 * t) as nat);
        let m = matrix_text(encrypted_char_rows(eq, st), 8);
        let v = matrix_text(encrypted_char_values(eq, st, first_byte(seq![chars.last()])), 8);
        lemma_record_lines_text(eq, s, chars.drop_last());
        let pair = seq![ascii(m), ascii(v)];
        lemma_terminated_append(record_lines(eq, s, chars.drop_last()), pair);
        assert(pair.drop_last() =~= seq![ascii(m)]);
        lemma_one_line(ascii(m));
        assert(terminated_lines(pair) == terminated_lines(seq![ascii(m)]) + ascii(v) + seq!['\n']);
        assert(terminated_lines(pair) =~= ascii(m) + seq!['\n'] + ascii(v) + seq!['\n']);
        let fr = field_records(eq, s, chars.drop_last());
        lemma_ascii_append(fr, m);
        lemma_ascii_append(fr + m, seq![10u8]);
        lemma_ascii_append(fr + m + seq![10u8], v);
        lemma_ascii_append(fr + m + seq![10u8] + v, seq![10u8]);
        assert(ascii(seq![10u8]) =~= seq!['\n']);
        assert(ascii(field_records(eq, s, chars)) =~= ascii(fr) + ascii(m) + seq!['\n'] + ascii(v)
            + seq!['\n']);
    }
}

proof fn lemma_one_line(l: Seq<char>)
    ensures
        terminated_lines(seq![l]) == l + seq!['\n'],
{
    let e = Seq::<Seq<char>>::empty();
    assert(seq![l].drop_last() =~= e);
    assert(terminated_lines(e) =~= Seq::<char>::empty());
    assert(terminated_lines(seq![l]) == terminated_lines(e) + l + seq!['\n']);
    assert(Seq::<char>::empty() + l =~= l);
}

/// The lines of a stored account, each followed by a line feed, make up
/// its stored text.
pub proof fn lemma_account_lines_text(eq: Equation, user: Seq<char>, pass: Seq<char>)
    ensures
        terminated_lines(account_lines(eq, user, pass)) == ascii(account_ciphertext(eq, user, pass)),
{
    let s2 = encrypter_state(ENCRYPT_SEED, 8 * user.len());
    let l0 = ascii(decimal(eq.modulus() as int));
    let l1 = ascii(decimal(encode_utf8(user).len() as int));
    let l2 = ascii(decimal(encode_utf8(pass).len() as int));
    let ru = record_lines(eq, ENCRYPT_SEED, user);
    let rp = record_lines(eq, s2, pass);
    let head = seq![l0, l1];
    lemma_terminated_append(head, ru);
    lemma_terminated_append(head + ru, seq![l2]);
    lemma_terminated_append(head + ru + seq![l2], rp);
    lemma_one_line(l2);
    assert(head.drop_last() =~= seq![l0]);
    lemma_one_line(l0);
    assert(terminated_lines(head) =~= l0 + seq!['\n'] + l1 + seq!['\n']);
    lemma_record_lines_text(eq, ENCRYPT_SEED, user);
    lemma_record_lines_text(eq, s2, pass);
    let d0 = decimal(eq.modulus() as int);
    let d1 = decimal(encode_utf8(user).len() as int);
    let d2 = decimal(encode_utf8(pass).len() as int);
    let fu = field_records(eq, ENCRYPT_SEED, user);
    let fp = field_records(eq, s2, pass);
    let nl = seq![10u8];
    assert(ascii(nl) =~= seq!['\n']);
    lemma_ascii_append(d0, nl);
    lemma_ascii_append(d0 + nl, d1);
    lemma_ascii_append(d0 + nl + d1, nl);
    lemma_ascii_append(d0 + nl + d1 + nl, fu);
    lemma_ascii_append(d0 + nl + d1 + nl + fu, d2);
    lemma_ascii_append(d0 + nl + d1 + nl + fu + d2, nl);
    lemma_ascii_append(d0 + nl + d1 + nl + fu + d2 + nl, fp);
    assert(account_ciphertext(eq, user, pass) == d0 + nl + d1 + nl + fu + d2 + nl + fp);
    assert(terminated_lines(account_lines(eq, user, pass)) =~= ascii(account_ciphertext(eq, user, pass)));
}

proof fn lemma_no_line_feed_append(a: Seq<char>, b: Seq<char>)
    requires
        no_line_feed(a),
        no_line_feed(b),
    ensures
        no_line_feed(a + b),
{
    assert forall|i: int| 0 <= i < (a + b).len() implies (a + b)[i] != '\n' by {
        if i < a.len() {
            assert((a + b)[i] == a[i]);
        } else {
            assert((a + b)[i] == b[i - a.len()]);
        }
    }
}

proof fn lemma_decimal_no_line_feed(x: int)
    ensures
        no_line_feed(ascii(decimal(x))),
{
    lemma_decimal_no_white_space(x);
    let t = ascii(decimal(x));
    assert forall|i: int| 0 <= i < t.len() implies t[i] != '\n' by {
        assert(!is_white_space(t[i]));
    }
}

proof fn lemma_join_no_line_feed(parts: Seq<Seq<u8>>, sep: Seq<u8>)
    requires
        forall|i: int| 0 <= i < parts.len() ==> no_line_feed(ascii(#[trigger] parts[i])),
        no_line_feed(ascii(sep)),
    ensures
        no_line_feed(ascii(join(parts, sep))),
    decreases parts.len(),
{
    if parts.len() == 0 {
        assert(ascii(join(parts, sep)) =~= Seq::<char>::empty());
    } else if parts.len() == 1 {
        assert(no_line_feed(ascii(parts[0])));
    } else {
        let init = parts.drop_last();
        assert forall|i: int| 0 <= i < init.len() implies no_line_feed(ascii(#[trigger] init[i])) by {
            assert(init[i] == parts[i]);
        }
        lemma_join_no_line_feed(init, sep);
        assert(no_line_feed(ascii(parts[parts.len() - 1])));
        let j = join(init, sep);
        lemma_ascii_append(j, sep);
        lemma_ascii_append(j + sep, parts.last());
        lemma_no_line_feed_append(ascii(j), ascii(sep));
        lemma_no_line_feed_append(ascii(j) + ascii(sep), ascii(parts.last()));
    }
}

proof fn lemma_space_no_line_feed()
    ensures
        no_line_feed(ascii(space())),
{
    assert(ascii(space()) =~= seq![' ']);
}

proof fn lemma_matrix_text_no_line_feed(rows: Seq<Seq<i64>>, height: nat)
    ensures
        no_line_feed(ascii(matrix_text(rows, height))),
{
    lemma_space_no_line_feed();
    let parts = rows.take(height as int).map_values(|r: Seq<i64>| row_text(r));
    assert forall|i: int| 0 <= i < parts.len() implies no_line_feed(ascii(#[trigger] parts[i])) by {
        let r = rows.take(height as int)[i];
        let ps = r.map_values(|x: i64| decimal(x as int));
        assert forall|j: int| 0 <= j < ps.len() implies no_line_feed(ascii(#[trigger] ps[j])) by {
            lemma_decimal_no_line_feed(r[j] as int);
        }
        lemma_join_no_line_feed(ps, space());
        assert(parts[i] == join_decimal(r, space()));
    }
    lemma_join_no_line_feed(parts, space());
}

proof fn lemma_record_lines_well_formed(eq: Equation, s: u64, chars: Seq<char>)
    ensures
        lines_well_formed(record_lines(eq, s, chars)),
        record_lines(eq, s, chars).len() == 2 * chars.len(),
    decreases chars.len(),
{
    if chars.len() > 0 {
        let t = chars.len() - 1;
        let st = encrypter_state(s, (8 * t) as nat);
        let init = record_lines(eq, s, chars.drop_last());
        let m = ascii(matrix_text(encrypted_char_rows(eq, st), 8));
        let v = ascii(matrix_text(encrypted_char_values(eq, st, first_byte(seq![chars.last()])), 8));
        lemma_record_lines_well_formed(eq, s, chars.drop_last());
        lemma_matrix_text_no_line_feed(encrypted_char_rows(eq, st), 8);
        lemma_matrix_text_no_line_feed(encrypted_char_values(eq, st, first_byte(seq![chars.last()])), 8);
        let all = record_lines(eq, s, chars);
        assert forall|i: int| 0 <= i < all.len() implies no_line_feed(#[trigger] all[i]) by {
            if i < init.len() {
                assert(all[i] == init[i]);
            } else if i == init.len() {
                assert(all[i] == m);
            } else {
                assert(all[i] == v);
            }
        }
    }
}

/// No line of a stored account holds a line feed.
pub proof fn lemma_account_lines_well_formed(eq: Equation, user: Seq<char>, pass: Seq<char>)
    ensures
        lines_well_formed(account_lines(eq, user, pass)),
{
    let s2 = encrypter_state(ENCRYPT_SEED, 8 * user.len());
    lemma_decimal_no_line_feed(eq.modulus() as int);
    lemma_decimal_no_line_feed(encode_utf8(user).len() as int);
    lemma_decimal_no_line_feed(encode_utf8(pass).len() as int);
    lemma_record_lines_well_formed(eq, ENCRYPT_SEED, user);
    lemma_record_lines_well_formed(eq, s2, pass);
    let ru = record_lines(eq, ENCRYPT_SEED, user);
    let rp = record_lines(eq, s2, pass);
    let all = account_lines(eq, user, pass);
    assert forall|i: int| 0 <= i < all.len() implies no_line_feed(#[trigger] all[i]) by {
        if i >= 2 && i < 2 + ru.len() {
            assert(all[i] == ru[i - 2]);
        } else if i >= 3 + ru.len() {
            assert(all[i] == rp[i - 3 - ru.len()]);
        }
    }
}

// ---------------------------------------------------------------------------
// Reading the lines back
// ---------------------------------------------------------------------------

/// Whether the record of character `t` of `chars`, encrypted from state
/// `s`, can be decrypted with `key` as a column (see `decryptable`).
pub open spec fn record_decryptable(eq: Equation, s: u64, chars: Seq<char>, key: Seq<i64>, t: int) -> bool {
    let st = encrypter_state(s, (8 * t) as nat);
    decryptable(
        encrypted_char_rows(eq, st),
        8,
        eq.matrix().width(),
        encrypted_char_values(eq, st, first_byte(seq![chars[t]])),
        key_column(key),
        key.len(),
        1,
        eq.modulus(),
    )
}

/// Whether the records of the first `count` characters of `chars`,
/// encrypted in turn from state `s`, can be decrypted with `key`.
pub open spec fn records_decryptable(eq: Equation, s: u64, chars: Seq<char>, key: Seq<i64>, count: nat) -> bool {
    forall|t: int| 0 <= t < count ==> #[trigger] record_decryptable(eq, s, chars, key, t)
}

proof fn lemma_record_lines_index(eq: Equation, s: u64, chars: Seq<char>, t: int)
    requires
        0 <= t < chars.len(),
    ensures
        record_lines(eq, s, chars).len() == 2 * chars.len(),
        record_lines(eq, s, chars)[2 * t] == ascii(
            matrix_text(encrypted_char_rows(eq, encrypter_state(s, (8 * t) as nat)), 8),
        ),
        record_lines(eq, s, chars)[2 * t + 1] == ascii(
            matrix_text(
                encrypted_char_values(eq, encrypter_state(s, (8 * t) as nat), first_byte(seq![chars[t]])),
                8,
            ),
        ),
    decreases chars.len(),
{
    lemma_record_lines_well_formed(eq, s, chars);
    lemma_record_lines_well_formed(eq, s, chars.drop_last());
    if t < chars.len() - 1 {
        lemma_record_lines_index(eq, s, chars.drop_last(), t);
        assert(chars.drop_last()[t] == chars[t]);
    }
}

proof fn lemma_ascii_char(c: char)
    requires
        is_ascii_chars(seq![c]),
    ensures
        first_byte(seq![c]) == c as u8,
        (c as u8) < 0x80,
        ((c as u8) as char) == c,
{
    is_ascii_chars_encode_utf8(seq![c]);
    assert(seq![c][0] == c);
}

/// The record of character `t` read back from lines `pos + 2 * t` and
/// `pos + 2 * t + 1`.
proof fn lemma_record_char_reads_back(
    lines: Seq<Seq<char>>,
    pos: nat,
    eq: Equation,
    s: u64,
    chars: Seq<char>,
    key: Seq<i64>,
    errors: Seq<int>,
    bound: int,
    t: int,
)
    requires
        consistent_with_key(eq, key, errors),
        errors_bounded(errors, bound),
        0 <= bound,
        2 * (19 * bound) + 1 <= eq.modulus() / 2,
        eq.matrix().width() >= 1,
        is_ascii_chars(chars),
        0 <= t < chars.len(),
        char_encryptable(eq, s, chars, t),
        pos + 2 * chars.len() <= lines.len(),
        forall|j: int| 0 <= j < 2 * chars.len() ==> lines[pos + j] == #[trigger] record_lines(eq, s, chars)[j],
    ensures
        record_char(lines, pos, t as nat, key_column(key), key.len(), 1, eq.modulus()) == if record_decryptable(
            eq,
            s,
            chars,
            key,
            t,
        ) {
            Some(chars[t])
        } else {
            None::<char>
        },
{
    let w = eq.matrix().width();
    let q = eq.modulus();
    let st = encrypter_state(s, (8 * t) as nat);
    let c = chars[t];
    let fb = first_byte(seq![c]);
    let em = encrypted_char_rows(eq, st);
    let er = encrypted_char_values(eq, st, fb);
    lemma_record_lines_index(eq, s, chars, t);
    assert(lines[pos + 2 * t] == record_lines(eq, s, chars)[2 * t]);
    assert(lines[pos + (2 * t + 1)] == record_lines(eq, s, chars)[2 * t + 1]);
    assert forall|i: int| 0 <= i < 8 implies (#[trigger] em[i]).len() == w by {
        let sti = encrypter_state(st, i as nat);
        lemma_window_row_len(eq.matrix().rows(), window_start(sti, eq.matrix().height()), window_len(sti), w);
    }
    assert forall|i: int| 0 <= i < 8 implies (#[trigger] er[i]).len() == 1 by {}
    law_matrix_text_read_back(em, 8, w);
    law_matrix_text_read_back(er, 8, 1);
    assert(em.take(8) =~= em);
    assert(er.take(8) =~= er);
    assert(is_ascii_chars(seq![c])) by {
        assert(seq![c][0] == c);
        assert(chars[t] == c);
    }
    lemma_ascii_char(c);
    if record_decryptable(eq, s, chars, key, t) {
        lemma_char_record_decrypts(eq, key, errors, bound, st, fb, key.len());
        assert(byte_of(em, 8, w, er, key_column(key), 1, q) == fb);
    }
}

proof fn lemma_records_read_back(
    lines: Seq<Seq<char>>,
    pos: nat,
    eq: Equation,
    s: u64,
    chars: Seq<char>,
    key: Seq<i64>,
    errors: Seq<int>,
    bound: int,
    count: nat,
)
    requires
        consistent_with_key(eq, key, errors),
        errors_bounded(errors, bound),
        0 <= bound,
        2 * (19 * bound) + 1 <= eq.modulus() / 2,
        eq.matrix().width() >= 1,
        is_ascii_chars(chars),
        count <= chars.len(),
        field_encryptable(eq, s, chars),
        pos + 2 * chars.len() <= lines.len(),
        forall|j: int| 0 <= j < 2 * chars.len() ==> lines[pos + j] == #[trigger] record_lines(eq, s, chars)[j],
    ensures
        records_text(lines, pos, count, key_column(key), key.len(), 1, eq.modulus()) == if records_decryptable(
            eq,
            s,
            chars,
            key,
            count,
        ) {
            Some(chars.take(count as int))
        } else {
            None::<Seq<char>>
        },
    decreases count,
{
    if count == 0 {
        assert(chars.take(0) =~= Seq::<char>::empty());
    } else {
        let c1 = (count - 1) as nat;
        lemma_records_read_back(lines, pos, eq, s, chars, key, errors, bound, c1);
        assert(char_encryptable(eq, s, chars, c1 as int));
        lemma_record_char_reads_back(lines, pos, eq, s, chars, key, errors, bound, c1 as int);
        if records_decryptable(eq, s, chars, key, count) {
            assert(record_decryptable(eq, s, chars, key, c1 as int));
            assert(records_decryptable(eq, s, chars, key, c1)) by {
                assert forall|t: int| 0 <= t < c1 implies #[trigger] record_decryptable(eq, s, chars, key, t) by {
                    assert(record_decryptable(eq, s, chars, key, t));
                }
            }
            assert(chars.take(c1 as int).push(chars[c1 as int]) =~= chars.take(count as int));
        } else {
            if records_decryptable(eq, s, chars, key, c1) {
                assert(!record_decryptable(eq, s, chars, key, c1 as int)) by {
                    if record_decryptable(eq, s, chars, key, c1 as int) {
                        assert forall|t: int| 0 <= t < count implies #[trigger] record_decryptable(eq, s, chars, key, t) by {
                            if t < c1 {
                                assert(record_decryptable(eq, s, chars, key, t));
                            }
                        }
                    }
                }
            }
        }
    }
}

proof fn lemma_key_as_column(key: Seq<i64>)
    requires
        key.len() > 0,
    ensures
        chunks(key, key.len(), 1) == key_column(key),
{
    lemma_chunks_shape(key, key.len(), 1);
    assert forall|j: int| 0 <= j < key.len() implies #[trigger] chunks(key, key.len(), 1)[j] == key_column(key)[j] by {
        assert(key.subrange(j, j + 1) =~= seq![key[j]]);
    }
    assert(chunks(key, key.len(), 1) =~= key_column(key));
}

proof fn lemma_field_reads_back(
    lines: Seq<Seq<char>>,
    start: nat,
    eq: Equation,
    s: u64,
    chars: Seq<char>,
    key: Seq<i64>,
    errors: Seq<int>,
    bound: int,
)
    requires
        consistent_with_key(eq, key, errors),
        errors_bounded(errors, bound),
        0 <= bound,
        2 * (19 * bound) + 1 <= eq.modulus() / 2,
        eq.matrix().width() >= 1,
        is_ascii_chars(chars),
        chars.len() <= usize::MAX,
        field_encryptable(eq, s, chars),
        start + 1 + 2 * chars.len() <= lines.len(),
        lines[start as int] == ascii(decimal(chars.len() as int)),
        forall|j: int|
            0 <= j < 2 * chars.len() ==> lines[(start + 1) + j] == #[trigger] record_lines(eq, s, chars)[j],
    ensures
        field_text(lines, start, key_column(key), key.len(), 1, eq.modulus()) == if records_decryptable(
            eq,
            s,
            chars,
            key,
            chars.len(),
        ) {
            Some((chars, (start + 1 + 2 * chars.len()) as nat))
        } else {
            None::<(Seq<char>, nat)>
        },
{
    lemma_usize_read_back(chars.len() as usize);
    lemma_records_read_back(lines, start + 1, eq, s, chars, key, errors, bound, chars.len());
    assert(chars.take(chars.len() as int) =~= chars);
}

/// A stored account reads back. For a public key made with `key` and
/// errors of absolute value at most `bound`, where `2 * (19 * bound) + 1`
/// is at most half the modulus, and a user name and a password of ASCII
/// characters that can be encrypted: the lines of the stored text (those
/// without line feeds that, each followed by one, make up the text)
/// decrypt with the key to the chosen field, and to nothing exactly when
/// some record of either field cannot be decrypted (an `i64` overflow).
#[verifier::rlimit(30)]
pub proof fn law_stored_account_reads_back(
    eq: Equation,
    key: Seq<i64>,
    errors: Seq<int>,
    bound: int,
    user: Seq<char>,
    pass: Seq<char>,
    lines: Seq<Seq<char>>,
    field: FIELD,
)
    requires
        consistent_with_key(eq, key, errors),
        errors_bounded(errors, bound),
        0 <= bound,
        2 * (19 * bound) + 1 <= eq.modulus() / 2,
        account_encryptable(eq, user, pass),
        is_ascii_chars(user),
        is_ascii_chars(pass),
        user.len() <= usize::MAX,
        pass.len() <= usize::MAX,
        lines_well_formed(lines),
        terminated_lines(lines) == ascii(account_ciphertext(eq, user, pass)),
    ensures
        account_text(lines, key, field) == if records_decryptable(eq, ENCRYPT_SEED, user, key, user.len())
            && records_decryptable(
            eq,
            encrypter_state(ENCRYPT_SEED, 8 * user.len()),
            pass,
            key,
            pass.len(),
        ) {
            Some(
                match field {
                    FIELD::USERNAME => user,
                    FIELD::PASSWORD => pass,
                },
            )
        } else {
            None::<Seq<char>>
        },
{
    let s2 = encrypter_state(ENCRYPT_SEED, 8 * user.len());
    let q = eq.modulus();
    let n = key.len();
    let al = account_lines(eq, user, pass);
    lemma_account_lines_text(eq, user, pass);
    lemma_account_lines_well_formed(eq, user, pass);
    lemma_lines_unique(lines, al);
    let ru = record_lines(eq, ENCRYPT_SEED, user);
    let rp = record_lines(eq, s2, pass);
    lemma_record_lines_well_formed(eq, ENCRYPT_SEED, user);
    lemma_record_lines_well_formed(eq, s2, pass);
    let nu = user.len();
    let np = pass.len();
    assert(lines.len() == 3 + 2 * nu + 2 * np);
    is_ascii_chars_encode_utf8(user);
    is_ascii_chars_encode_utf8(pass);
    assert(lines[0] == ascii(decimal(q as int)));
    assert(lines[1] == ascii(decimal(nu as int)));
    assert(lines[2 + 2 * nu as int] == ascii(decimal(np as int)));
    assert forall|j: int| 0 <= j < 2 * nu implies lines[2 + j] == #[trigger] ru[j] by {
        assert(lines[2 + j] == al[2 + j]);
    }
    assert forall|j: int| 0 <= j < 2 * np implies lines[(3 + 2 * nu) + j] == #[trigger] rp[j] by {
        assert(lines[(3 + 2 * nu) + j] == al[(3 + 2 * nu) + j]);
    }
    lemma_field_reads_back(lines, 1, eq, ENCRYPT_SEED, user, key, errors, bound);
    lemma_field_reads_back(lines, (2 + 2 * nu) as nat, eq, s2, pass, key, errors, bound);
    lemma_decimal_read_back(q);
    lemma_key_as_column(key);
}

/// An account stored with a public key made by `generate_keys` reads
/// back with the private key it was made from: for a modulus of at least
/// 686 and a user name and a password of ASCII characters that can be
/// encrypted, the lines of the stored text decrypt to the chosen field,
/// and to nothing exactly when some record cannot be decrypted.
pub proof fn law_generated_account_reads_back(
    private_key: Seq<i64>,
    seed: u64,
    height: nat,
    modulus: i64,
    eq: Equation,
    user: Seq<char>,
    pass: Seq<char>,
    lines: Seq<Seq<char>>,
    field: FIELD,
)
    requires
        keygen_defined(private_key, seed, height, private_key.len(), modulus),
        modulus >= 686,
        eq.matrix().rows() == public_rows(seed, height, private_key.len(), modulus),
        eq.matrix().width() == private_key.len(),
        eq.result().rows() == keygen_result(private_key, seed, height, private_key.len(), modulus),
        eq.modulus() == modulus,
        account_encryptable(eq, user, pass),
        is_ascii_chars(user),
        is_ascii_chars(pass),
        user.len() <= usize::MAX,
        pass.len() <= usize::MAX,
        lines_well_formed(lines),
        terminated_lines(lines) == ascii(account_ciphertext(eq, user, pass)),
    ensures
        account_text(lines, private_key, field) == if records_decryptable(
            eq,
            ENCRYPT_SEED,
            user,
            private_key,
            user.len(),
        ) && records_decryptable(
            eq,
            encrypter_state(ENCRYPT_SEED, 8 * user.len()),
            pass,
            private_key,
            pass.len(),
        ) {
            Some(
                match field {
                    FIELD::USERNAME => user,
                    FIELD::PASSWORD => pass,
                },
            )
        } else {
            None::<Seq<char>>
        },
{
    law_generated_keys_consistent(private_key, seed, height, modulus, eq);
    law_stored_account_reads_back(eq, private_key, noise_errors(height), 9, user, pass, lines, field);
}

/// The generator state of a bit encrypter that started in state `s`, after
/// `k` calls of `encrypt_char` (each moves it on by eight bits).
pub open spec fn state_after_chars(s: u64, k: nat) -> u64
    decreases k,
{
    if k == 0 {
        s
    } else {
        encrypter_state(state_after_chars(s, (k - 1) as nat), 8)
    }
}

proof fn lemma_state_after_chars(s: u64, k: nat)
    ensures
        state_after_chars(s, k) == encrypter_state(s, 8 * k),
    decreases k,
{
    if k > 0 {
        lemma_state_after_chars(s, (k - 1) as nat);
        lemma_rng_state_add(s, 2 * (8 * (k - 1)) as nat, 16);
    }
}

/// The line of a stored account that holds the rows of the `k`-th
/// character of the user name followed by the password.
pub open spec fn record_line(user_len: nat, k: nat) -> nat {
    if k < user_len {
        2 + 2 * k
    } else {
        3 + 2 * k
    }
}

/// One encrypter runs through a whole account: the `k`-th record stored
/// (counting the characters of the user name, then those of the password)
/// holds, as text, the rows and the right-hand sides that the `k`-th call
/// of `encrypt_char` returns on a bit encrypter fresh from `encrypt_bit`,
/// its state having run on through all the calls before.
pub proof fn law_stored_records_follow_one_encrypter(
    eq: Equation,
    user: Seq<char>,
    pass: Seq<char>,
    lines: Seq<Seq<char>>,
    k: nat,
)
    requires
        lines_well_formed(lines),
        terminated_lines(lines) == ascii(account_ciphertext(eq, user, pass)),
        k < user.len() + pass.len(),
    ensures
        ({
            let st = state_after_chars(ENCRYPT_SEED, k);
            let c = (user + pass)[k as int];
            &&& record_line(user.len(), k) + 1 < lines.len()
            &&& lines[record_line(user.len(), k) as int] == ascii(
                matrix_text(encrypted_char_rows(eq, st), 8),
            )
            &&& lines[record_line(user.len(), k) + 1int] == ascii(
                matrix_text(encrypted_char_values(eq, st, first_byte(seq![c])), 8),
            )
        }),
{
    let s2 = encrypter_state(ENCRYPT_SEED, 8 * user.len());
    let al = account_lines(eq, user, pass);
    lemma_account_lines_text(eq, user, pass);
    lemma_account_lines_well_formed(eq, user, pass);
    lemma_lines_unique(lines, al);
    let ru = record_lines(eq, ENCRYPT_SEED, user);
    let rp = record_lines(eq, s2, pass);
    lemma_record_lines_well_formed(eq, ENCRYPT_SEED, user);
    lemma_record_lines_well_formed(eq, s2, pass);
    lemma_state_after_chars(ENCRYPT_SEED, k);
    let nu = user.len() as int;
    let ki = k as int;
    if ki < nu {
        lemma_record_lines_index(eq, ENCRYPT_SEED, user, ki);
        assert(lines[2 + 2 * ki] == ru[2 * ki]);
        assert(lines[2 + 2 * ki + 1] == ru[2 * ki + 1]);
        assert((user + pass)[ki] == user[ki]);
    } else {
        let t = ki - nu;
        lemma_record_lines_index(eq, s2, pass, t);
        lemma_rng_state_add(ENCRYPT_SEED, (2 * (8 * nu)) as nat, (2 * (8 * t)) as nat);
        assert(encrypter_state(s2, (8 * t) as nat) == encrypter_state(ENCRYPT_SEED, 8 * k));
        assert(lines[3 + 2 * ki] == al[(3 + 2 * nu) + 2 * t]);
        assert(lines[3 + 2 * ki] == rp[2 * t]);
        assert(lines[3 + 2 * ki + 1] == al[(3 + 2 * nu) + (2 * t + 1)]);
        assert(lines[3 + 2 * ki + 1] == rp[2 * t + 1]);
        assert((user + pass)[ki] == pass[t]);
    }
}

/// The three lines of a public key's text.
proof fn lemma_key_lines(eq: Equation, key_lines: Seq<Seq<char>>)
    requires
        lines_well_formed(key_lines),
        terminated_lines(key_lines) == ascii(equation_text(eq)),
    ensures
        key_lines == seq![
            ascii(equation_header(eq)),
            ascii(matrix_text(eq.matrix().rows(), eq.matrix().height())),
            ascii(matrix_text(eq.result().rows(), eq.result().height())),
        ],
{
    let h = ascii(equation_header(eq));
    let m = ascii(matrix_text(eq.matrix().rows(), eq.matrix().height()));
    let r = ascii(matrix_text(eq.result().rows(), eq.result().height()));
    let three = seq![h, m, r];
    lemma_decimal_no_line_feed(eq.modulus() as int);
    lemma_decimal_no_line_feed(eq.matrix().height() as int);
    lemma_space_no_line_feed();
    let d0 = decimal(eq.modulus() as int);
    let d1 = decimal(eq.matrix().height() as int);
    lemma_ascii_append(d0, space());
    lemma_ascii_append(d0 + space(), d1);
    lemma_no_line_feed_append(ascii(d0), ascii(space()));
    lemma_no_line_feed_append(ascii(d0) + ascii(space()), ascii(d1));
    lemma_matrix_text_no_line_feed(eq.matrix().rows(), eq.matrix().height());
    lemma_matrix_text_no_line_feed(eq.result().rows(), eq.result().height());
    assert(lines_well_formed(three));
    let nl = seq![10u8];
    let hb = equation_header(eq);
    let mb = matrix_text(eq.matrix().rows(), eq.matrix().height());
    let rb = matrix_text(eq.result().rows(), eq.result().height());
    assert(equation_text(eq) =~= hb + nl + mb + nl + rb + nl);
    lemma_ascii_append(hb, nl);
    lemma_ascii_append(hb + nl, mb);
    lemma_ascii_append(hb + nl + mb, nl);
    lemma_ascii_append(hb + nl + mb + nl, rb);
    lemma_ascii_append(hb + nl + mb + nl + rb, nl);
    assert(ascii(nl) =~= seq!['\n']);
    assert(three.drop_last() =~= seq![h, m]);
    assert(seq![h, m].drop_last() =~= seq![h]);
    lemma_one_line(h);
    assert(terminated_lines(seq![h, m]) == terminated_lines(seq![h]) + m + seq!['\n']);
    assert(terminated_lines(three) == terminated_lines(seq![h, m]) + r + seq!['\n']);
    assert(ascii(equation_text(eq)) == h + seq!['\n'] + m + seq!['\n'] + r + seq!['\n']);
    assert(terminated_lines(three) =~= ascii(equation_text(eq)));
    lemma_lines_unique(key_lines, three);
}

/// Keys written, read back and used to store an account give the account
/// back with the private key. For a public key `eq` made by `generate_keys`
/// (modulus at least 686, height at most `i64::MAX`), written as text
/// (`Equation::to_text`), whose first three lines are read back into
/// `read` (as `Equation::from_text` does), and a user name and a password
/// of ASCII characters stored with `read` (`encrypt_account`): the lines of
/// the stored text decrypt with the private key (`decrypt_account`) to the
/// chosen field, and to nothing exactly when some record cannot be
/// decrypted.
pub proof fn law_keys_and_account_read_back(
    private_key: Seq<i64>,
    seed: u64,
    height: nat,
    modulus: i64,
    eq: Equation,
    key_lines: Seq<Seq<char>>,
    read: Equation,
    user: Seq<char>,
    pass: Seq<char>,
    lines: Seq<Seq<char>>,
    field: FIELD,
)
    requires
        keygen_defined(private_key, seed, height, private_key.len(), modulus),
        modulus >= 686,
        height <= i64::MAX,
        eq.matrix().rows() == public_rows(seed, height, private_key.len(), modulus),
        eq.matrix().height() == height,
        eq.matrix().width() == private_key.len(),
        eq.result().rows() == keygen_result(private_key, seed, height, private_key.len(), modulus),
        eq.result().height() == height,
        eq.result().width() == 1,
        eq.modulus() == modulus,
        key_lines.len() >= 3,
        lines_well_formed(key_lines.take(3)),
        terminated_lines(key_lines.take(3)) == ascii(equation_text(eq)),
        equation_from_text(key_lines[0], key_lines[1], key_lines[2]) is Some,
        ({
            let t = equation_from_text(key_lines[0], key_lines[1], key_lines[2])->0;
            &&& read.modulus() == t.0
            &&& read.matrix().height() == t.1
            &&& read.matrix().rows() == (t.2).0
            &&& read.matrix().width() == (t.2).1
            &&& read.result().height() == t.1
            &&& read.result().rows() == (t.3).0
            &&& read.result().width() == (t.3).1
        }),
        account_encryptable(read, user, pass),
        is_ascii_chars(user),
        is_ascii_chars(pass),
        user.len() <= usize::MAX,
        pass.len() <= usize::MAX,
        lines_well_formed(lines),
        terminated_lines(lines) == ascii(account_ciphertext(read, user, pass)),
    ensures
        account_text(lines, private_key, field) == if records_decryptable(
            read,
            ENCRYPT_SEED,
            user,
            private_key,
            user.len(),
        ) && records_decryptable(
            read,
            encrypter_state(ENCRYPT_SEED, 8 * user.len()),
            pass,
            private_key,
            pass.len(),
        ) {
            Some(
                match field {
                    FIELD::USERNAME => user,
                    FIELD::PASSWORD => pass,
                },
            )
        } else {
            None::<Seq<char>>
        },
{
    let w = private_key.len();
    lemma_key_lines(eq, key_lines.take(3));
    assert(key_lines[0] == key_lines.take(3)[0]);
    assert(key_lines[1] == key_lines.take(3)[1]);
    assert(key_lines[2] == key_lines.take(3)[2]);
    let a = eq.matrix().rows();
    let r = eq.result().rows();
    lemma_chunks_shape(public_entries(seed, height * w, modulus), height, w);
    assert(w / w == 1) by {
        vstd::arithmetic::div_mod::lemma_div_by_self(w as int);
    }
    assert forall|i: int| 0 <= i < height implies (#[trigger] r[i]).len() == 1 by {}
    law_equation_text_read_back(eq);
    assert(a.take(height as int) =~= a);
    assert(r.take(height as int) =~= r);
    law_generated_account_reads_back(private_key, seed, height, modulus, read, user, pass, lines, field);
}

} // verus!
