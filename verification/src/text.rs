//! The text form of keys and ciphertexts: integers in decimal, separated
//! by spaces, one matrix per line.
use vstd::prelude::*;
use crate::arith::fits_i64;

verus! {

// ---------------------------------------------------------------------------
// Writing
// ---------------------------------------------------------------------------

/// The decimal digits of `n`, most significant first, as ASCII bytes.
pub open spec fn digits_of(n: nat) -> Seq<u8>
    decreases n,
{
    if n < 10 {
        seq![(48 + n) as u8]
    } else {
        digits_of(n / 10) + seq![(48 + n % 10) as u8]
    }
}

/// `x` in decimal, with a leading `-` when negative, as ASCII bytes.
pub open spec fn decimal(x: int) -> Seq<u8> {
    if x < 0 {
        seq![45u8] + digits_of((-x) as nat)
    } else {
        digits_of(x as nat)
    }
}

/// The parts one after the other with `sep` between each two.
pub open spec fn join(parts: Seq<Seq<u8>>, sep: Seq<u8>) -> Seq<u8>
    decreases parts.len(),
{
    if parts.len() == 0 {
        seq![]
    } else if parts.len() == 1 {
        parts[0]
    } else {
        join(parts.drop_last(), sep) + sep + parts.last()
    }
}

/// The values in decimal, separated by `sep`.
pub open spec fn join_decimal(values: Seq<i64>, sep: Seq<u8>) -> Seq<u8> {
    join(values.map_values(|x: i64| decimal(x as int)), sep)
}

/// A single space.
pub open spec fn space() -> Seq<u8> {
    seq![32u8]
}

fn push_digits(n: u64, out: &mut Vec<u8>)
    ensures
        final(out)@ == old(out)@ + digits_of(n as nat),
    decreases n,
{
    if n >= 10 {
        push_digits(n / 10, out);
    }
    out.push(48u8 + (n % 10) as u8);
    assert(out@ == old(out)@ + digits_of(n as nat));
}

/// Appends `x` in decimal.
pub fn write_i64(x: i64, out: &mut Vec<u8>)
    ensures
        final(out)@ == old(out)@ + decimal(x as int),
{
    if x < 0 {
        out.push(45u8);
        let n: u64 = if x == i64::MIN {
            0x8000_0000_0000_0000u64
        } else {
            (-x) as u64
        };
        push_digits(n, out);
        assert(out@ == old(out)@ + decimal(x as int));
    } else {
        push_digits(x as u64, out);
    }
}

/// Appends `n` in decimal.
pub fn write_u64(n: u64, out: &mut Vec<u8>)
    ensures
        final(out)@ == old(out)@ + decimal(n as int),
{
    push_digits(n, out);
}

/// Appends the values in decimal, separated by `sep`.
pub fn write_joined(values: &[i64], sep: &[u8], out: &mut Vec<u8>)
    ensures
        final(out)@ == old(out)@ + join_decimal(values@, sep@),
{
    let n = values.len();
    let ghost parts = values@.map_values(|x: i64| decimal(x as int));
    for i in 0..n
        invariant
            n == values@.len(),
            parts == values@.map_values(|x: i64| decimal(x as int)),
            out@ == old(out)@ + join(parts.subrange(0, i as int), sep@),
    {
        let ghost before = out@;
        if i > 0 {
            let m = sep.len();
            for j in 0..m
                invariant
                    m == sep@.len(),
                    out@ == before + sep@.subrange(0, j as int),
            {
                out.push(sep[j]);
                assert(out@ == before + sep@.subrange(0, j + 1));
            }
            assert(sep@.subrange(0, m as int) == sep@);
        }
        write_i64(values[i], out);
        proof {
            let pre = parts.subrange(0, i as int);
            let post = parts.subrange(0, i + 1);
            assert(post.drop_last() == pre);
            assert(post.last() == decimal(values@[i as int] as int));
            if i == 0 {
                assert(post.len() == 1);
                assert(join(pre, sep@) == Seq::<u8>::empty());
            }
        }
    }
    assert(parts.subrange(0, n as int) == parts);
}

// ---------------------------------------------------------------------------
// Reading
// ---------------------------------------------------------------------------

/// Unicode white space, as `char::is_whitespace` defines it.
pub open spec fn is_white_space(c: char) -> bool {
    ||| '\u{9}' <= c <= '\u{d}'
    ||| c == ' '
    ||| c == '\u{85}'
    ||| c == '\u{a0}'
    ||| c == '\u{1680}'
    ||| '\u{2000}' <= c <= '\u{200a}'
    ||| c == '\u{2028}'
    ||| c == '\u{2029}'
    ||| c == '\u{202f}'
    ||| c == '\u{205f}'
    ||| c == '\u{3000}'
}

/// Whether `c` is white space.
pub fn white_space(c: char) -> (b: bool)
    ensures
        b == is_white_space(c),
{
    ('\u{9}' <= c && c <= '\u{d}') || c == ' ' || c == '\u{85}' || c == '\u{a0}' || c == '\u{1680}'
        || ('\u{2000}' <= c && c <= '\u{200a}') || c == '\u{2028}' || c == '\u{2029}' || c
        == '\u{202f}' || c == '\u{205f}' || c == '\u{3000}'
}

/// Splitting `s` at white space, from the left: the words completed so far
/// and the word being read (empty right after white space).
pub open spec fn split_state(s: Seq<char>) -> (Seq<Seq<char>>, Seq<char>)
    decreases s.len(),
{
    if s.len() == 0 {
        (seq![], seq![])
    } else {
        let (done, cur) = split_state(s.drop_last());
        if is_white_space(s.last()) {
            if cur.len() > 0 {
                (done.push(cur), seq![])
            } else {
                (done, seq![])
            }
        } else {
            (done, cur.push(s.last()))
        }
    }
}

/// The words of `s`: its maximal runs of characters that are not white
/// space, in order.
pub open spec fn words(s: Seq<char>) -> Seq<Seq<char>> {
    let (done, cur) = split_state(s);
    if cur.len() > 0 {
        done.push(cur)
    } else {
        done
    }
}

/// Whether `c` is an ASCII decimal digit.
pub open spec fn is_digit(c: char) -> bool {
    '0' <= c <= '9'
}

/// Whether every character of `d` is a decimal digit.
pub open spec fn all_digits(d: Seq<char>) -> bool {
    forall|i: int| 0 <= i < d.len() ==> is_digit(#[trigger] d[i])
}

/// The number that the decimal digits `d` write.
pub open spec fn digits_value(d: Seq<char>) -> int
    decreases d.len(),
{
    if d.len() == 0 {
        0
    } else {
        digits_value(d.drop_last()) * 10 + (d.last() as int - 48)
    }
}

/// The integer that `t` writes, as `str::parse` reads one: an optional `+`
/// (or `-` when `signed`) followed by at least one decimal digit.
pub open spec fn parse_int(t: Seq<char>, signed: bool) -> Option<int> {
    if t.len() > 0 && (t[0] == '+' || (signed && t[0] == '-')) {
        let d = t.drop_first();
        if d.len() > 0 && all_digits(d) {
            Some(
                if t[0] == '-' {
                    -digits_value(d)
                } else {
                    digits_value(d)
                },
            )
        } else {
            None
        }
    } else if t.len() > 0 && all_digits(t) {
        Some(digits_value(t))
    } else {
        None
    }
}

/// `t` read as an `i64`, as `str::parse::<i64>` reads it.
pub open spec fn parse_i64_spec(t: Seq<char>) -> Option<i64> {
    match parse_int(t, true) {
        Some(v) => if fits_i64(v) {
            Some(v as i64)
        } else {
            None
        },
        None => None,
    }
}

/// `t` read as a `usize`, as `str::parse::<usize>` reads it.
pub open spec fn parse_usize_spec(t: Seq<char>) -> Option<usize> {
    match parse_int(t, false) {
        Some(v) => if 0 <= v <= usize::MAX {
            Some(v as usize)
        } else {
            None
        },
        None => None,
    }
}

/// The words of `s` read as `i64`s, or `None` when one of them is not one.
pub open spec fn parse_i64_words(s: Seq<char>) -> Option<Seq<i64>> {
    let w = words(s);
    if forall|i: int| 0 <= i < w.len() ==> #[trigger] parse_i64_spec(w[i]) is Some {
        Some(Seq::new(w.len(), |i: int| parse_i64_spec(w[i])->0))
    } else {
        None
    }
}

proof fn lemma_digits_value_grows(d: Seq<char>, c: char)
    requires
        is_digit(c),
        digits_value(d) >= 0,
    ensures
        digits_value(d.push(c)) >= digits_value(d),
        digits_value(d.push(c)) == digits_value(d) * 10 + (c as int - 48),
{
    assert(d.push(c).drop_last() == d);
}

proof fn lemma_digits_value_nonneg(d: Seq<char>)
    requires
        all_digits(d),
    ensures
        digits_value(d) >= 0,
    decreases d.len(),
{
    if d.len() > 0 {
        lemma_digits_value_nonneg(d.drop_last());
        assert(is_digit(d[d.len() - 1]));
    }
}

/// The characters of `s`.
pub fn chars_of(s: &str) -> (v: Vec<char>)
    ensures
        v@ == s@,
{
    let mut v: Vec<char> = Vec::new();
    for c in it: s.chars()
        invariant
            it.seq() == s@,
            v@ == s@.take(it.index() as int),
    {
        v.push(c);
    }
    assert(v@ == s@);
    v
}


/// Splits `s` into its words.
pub fn split_words(s: &[char]) -> (w: Vec<Vec<char>>)
    ensures
        w@.map_values(|v: Vec<char>| v@) == words(s@),
{
    let mut done: Vec<Vec<char>> = Vec::new();
    let mut cur: Vec<char> = Vec::new();
    let n = s.len();
    for i in 0..n
        invariant
            n == s@.len(),
            (done@.map_values(|v: Vec<char>| v@), cur@) == split_state(s@.take(i as int)),
    {
        let c = s[i];
        assert(s@.take(i + 1).drop_last() == s@.take(i as int));
        assert(s@.take(i + 1).last() == c);
        if white_space(c) {
            if cur.len() > 0 {
                let mut fresh: Vec<char> = Vec::new();
                std::mem::swap(&mut fresh, &mut cur);
                done.push(fresh);
                assert(done@.map_values(|v: Vec<char>| v@) == split_state(s@.take(i + 1)).0);
            }
        } else {
            cur.push(c);
        }
    }
    assert(s@.take(n as int) == s@);
    if cur.len() > 0 {
        done.push(cur);
        assert(done@.map_values(|v: Vec<char>| v@) == words(s@));
    }
    done
}

/// A bound above every value that an `i64` or a `usize` reads.
pub open spec fn read_cap() -> int {
    0x1_0000_0000_0000_0000
}

/// Reads the decimal digits of `t` from `from` on: whether they are all
/// digits, and their value, or `read_cap() + 1` when it is larger than that.
fn read_digits(t: &[char], from: usize) -> (r: (bool, u128))
    requires
        from <= t@.len(),
    ensures
        r.0 == all_digits(t@.subrange(from as int, t@.len() as int)),
        r.0 ==> r.1 == if digits_value(t@.subrange(from as int, t@.len() as int)) <= read_cap() {
            digits_value(t@.subrange(from as int, t@.len() as int))
        } else {
            read_cap() + 1
        },
{
    let n = t.len();
    let mut acc: u128 = 0;
    let cap: u128 = 0x1_0000_0000_0000_0000;
    for i in from..n
        invariant
            n == t@.len(),
            from <= i <= n,
            cap == read_cap(),
            all_digits(t@.subrange(from as int, i as int)),
            digits_value(t@.subrange(from as int, i as int)) >= 0,
            acc == if digits_value(t@.subrange(from as int, i as int)) <= read_cap() {
                digits_value(t@.subrange(from as int, i as int))
            } else {
                read_cap() + 1
            },
    {
        let c = t[i];
        let ghost pre = t@.subrange(from as int, i as int);
        assert(t@.subrange(from as int, i + 1) == pre.push(c));
        if c < '0' || c > '9' {
            assert(!is_digit(t@.subrange(from as int, n as int)[i - from]));
            return (false, 0);
        }
        proof {
            lemma_digits_value_grows(pre, c);
        }
        let d = (c as u32 - 48) as u128;
        let next = acc * 10 + d;
        acc = if next > cap {
            cap + 1
        } else {
            next
        };
    }
    assert(t@.subrange(from as int, n as int) == t@.subrange(from as int, t@.len() as int));
    (true, acc)
}

/// Reads a word as an `i64`, as `str::parse::<i64>` does.
pub fn parse_i64_word(t: &[char]) -> (r: Option<i64>)
    ensures
        r == parse_i64_spec(t@),
{
    if t.len() == 0 {
        return None;
    }
    let first = t[0];
    if first == '+' || first == '-' {
        if t.len() == 1 {
            return None;
        }
        let (ok, v) = read_digits(t, 1);
        assert(t@.subrange(1, t@.len() as int) == t@.drop_first());
        if !ok {
            return None;
        }
        proof {
            lemma_digits_value_nonneg(t@.drop_first());
        }
        if first == '-' {
            if v > 0x8000_0000_0000_0000u128 {
                return None;
            }
            let x: i128 = -(v as i128);
            Some(x as i64)
        } else {
            if v > 0x7fff_ffff_ffff_ffffu128 {
                return None;
            }
            Some(v as i64)
        }
    } else {
        let (ok, v) = read_digits(t, 0);
        assert(t@.subrange(0, t@.len() as int) == t@);
        if !ok {
            return None;
        }
        proof {
            lemma_digits_value_nonneg(t@);
        }
        if v > 0x7fff_ffff_ffff_ffffu128 {
            return None;
        }
        Some(v as i64)
    }
}

/// Reads a word as a `usize`, as `str::parse::<usize>` does.
pub fn parse_usize_word(t: &[char]) -> (r: Option<usize>)
    ensures
        r == parse_usize_spec(t@),
{
    if t.len() == 0 {
        return None;
    }
    let first = t[0];
    let from: usize = if first == '+' { 1 } else { 0 };
    if from == 1 && t.len() == 1 {
        return None;
    }
    let (ok, v) = read_digits(t, from);
    assert(t@.subrange(1, t@.len() as int) == t@.drop_first());
    assert(t@.subrange(0, t@.len() as int) == t@);
    if !ok {
        return None;
    }
    proof {
        lemma_digits_value_nonneg(t@.subrange(from as int, t@.len() as int));
    }
    if v > (usize::MAX as u128) {
        return None;
    }
    Some(v as usize)
}

/// Reads the words of `line` as `i64`s; `None` when one of them is not one.
pub fn parse_i64_line(line: &str) -> (r: Option<Vec<i64>>)
    ensures
        r is Some <==> parse_i64_words(line@) is Some,
        r matches Some(v) ==> v@ == parse_i64_words(line@)->0,
{
    let chars = chars_of(line);
    let ws = split_words(chars.as_slice());
    let ghost w = words(line@);
    assert(ws@.map_values(|v: Vec<char>| v@) == w);
    let mut out: Vec<i64> = Vec::new();
    let n = ws.len();
    for i in 0..n
        invariant
            n == w.len(),
            ws@.map_values(|v: Vec<char>| v@) == w,
            w == words(line@),
            out@.len() == i,
            forall|k: int| 0 <= k < i ==> #[trigger] parse_i64_spec(w[k]) == Some(out@[k]),
    {
        assert(ws@[i as int]@ == w[i as int]);
        match parse_i64_word(ws[i].as_slice()) {
            Some(x) => {
                out.push(x);
            },
            None => {
                assert(parse_i64_spec(w[i as int]) is None);
                return None;
            },
        }
    }
    assert(out@ == Seq::new(w.len(), |i: int| parse_i64_spec(w[i])->0));
    Some(out)
}

/// Reads the whole of `line` as an `i64`, as `str::parse::<i64>` does.
pub fn parse_i64_str(line: &str) -> (r: Option<i64>)
    ensures
        r == parse_i64_spec(line@),
{
    let chars = chars_of(line);
    parse_i64_word(chars.as_slice())
}

/// Reads the whole of `line` as a `usize`, as `str::parse::<usize>` does.
pub fn parse_usize_str(line: &str) -> (r: Option<usize>)
    ensures
        r == parse_usize_spec(line@),
{
    let chars = chars_of(line);
    parse_usize_word(chars.as_slice())
}


// ---------------------------------------------------------------------------
// Reading back what was written
// ---------------------------------------------------------------------------

/// ASCII bytes read as characters.
pub open spec fn ascii(b: Seq<u8>) -> Seq<char> {
    b.map_values(|c: u8| c as char)
}

/// Whether no character of `t` is white space.
pub open spec fn no_white_space(t: Seq<char>) -> bool {
    forall|i: int| 0 <= i < t.len() ==> !is_white_space(#[trigger] t[i])
}

/// Reading bytes as characters one by one commutes with concatenation.
pub proof fn lemma_ascii_append(a: Seq<u8>, b: Seq<u8>)
    ensures
        ascii(a + b) == ascii(a) + ascii(b),
{
    assert(ascii(a + b) =~= ascii(a) + ascii(b));
}

proof fn lemma_digits_read_back(n: nat)
    ensures
        ascii(digits_of(n)).len() > 0,
        all_digits(ascii(digits_of(n))),
        digits_value(ascii(digits_of(n))) == n,
    decreases n,
{
    if n < 10 {
        assert(ascii(digits_of(n)) =~= seq![((48 + n) as u8) as char]);
        assert(ascii(digits_of(n)).drop_last() =~= Seq::<char>::empty());
        assert((((48 + n) as u8) as char) as int == 48 + n);
        assert(digits_value(Seq::<char>::empty()) == 0);
    } else {
        lemma_digits_read_back(n / 10);
        let d = seq![(48 + n % 10) as u8];
        lemma_ascii_append(digits_of(n / 10), d);
        let s = ascii(digits_of(n));
        assert(s.drop_last() =~= ascii(digits_of(n / 10)));
        assert(s.last() == ((48 + n % 10) as u8) as char);
        assert((((48 + n % 10) as u8) as char) as int == 48 + n % 10);
    }
}

/// Every integer written in decimal reads back as itself.
pub proof fn lemma_decimal_read_back(x: i64)
    ensures
        parse_i64_spec(ascii(decimal(x as int))) == Some(x),
        ascii(decimal(x as int)).len() > 0,
        no_white_space(ascii(decimal(x as int))),
{
    if x < 0 {
        let n = (-x) as nat;
        lemma_digits_read_back(n);
        lemma_ascii_append(seq![45u8], digits_of(n));
        let t = ascii(decimal(x as int));
        assert(t.drop_first() =~= ascii(digits_of(n)));
        assert(t[0] == '-');
        assert forall|i: int| 0 <= i < t.len() implies !is_white_space(#[trigger] t[i]) by {
            if i > 0 {
                assert(t[i] == ascii(digits_of(n))[i - 1]);
                assert(is_digit(ascii(digits_of(n))[i - 1]));
            }
        }
    } else {
        lemma_digits_read_back(x as nat);
        let t = ascii(decimal(x as int));
        assert(is_digit(t[0]));
        assert forall|i: int| 0 <= i < t.len() implies !is_white_space(#[trigger] t[i]) by {
            assert(is_digit(t[i]));
        }
    }
}

/// No integer written in decimal holds white space.
pub proof fn lemma_decimal_no_white_space(x: int)
    ensures
        no_white_space(ascii(decimal(x))),
{
    let n = if x < 0 { -x } else { x };
    lemma_digits_read_back(n as nat);
    let d = ascii(digits_of(n as nat));
    let t = ascii(decimal(x));
    if x < 0 {
        lemma_ascii_append(seq![45u8], digits_of(n as nat));
        assert(t == seq!['-'] + d) by {
            assert(ascii(seq![45u8]) =~= seq!['-']);
        }
        assert forall|i: int| 0 <= i < t.len() implies !is_white_space(#[trigger] t[i]) by {
            if i > 0 {
                assert(t[i] == d[i - 1]);
                assert(is_digit(d[i - 1]));
            }
        }
    } else {
        assert forall|i: int| 0 <= i < t.len() implies !is_white_space(#[trigger] t[i]) by {
            assert(is_digit(d[i]));
        }
    }
}

/// Every `usize` written in decimal reads back as itself.
pub proof fn lemma_usize_read_back(n: usize)
    ensures
        parse_usize_spec(ascii(decimal(n as int))) == Some(n),
        no_white_space(ascii(decimal(n as int))),
{
    lemma_digits_read_back(n as nat);
    let t = ascii(decimal(n as int));
    assert(is_digit(t[0]));
    assert forall|i: int| 0 <= i < t.len() implies !is_white_space(#[trigger] t[i]) by {
        assert(is_digit(t[i]));
    }
}

proof fn lemma_split_append(s: Seq<char>, t: Seq<char>)
    requires
        no_white_space(t),
    ensures
        split_state(s + t) == (split_state(s).0, split_state(s).1 + t),
    decreases t.len(),
{
    if t.len() == 0 {
        assert(s + t =~= s);
        assert(split_state(s).1 + t =~= split_state(s).1);
    } else {
        let t0 = t.drop_last();
        assert(no_white_space(t0)) by {
            assert forall|i: int| 0 <= i < t0.len() implies !is_white_space(#[trigger] t0[i]) by {
                assert(t0[i] == t[i]);
            }
        }
        lemma_split_append(s, t0);
        assert((s + t).drop_last() =~= s + t0);
        assert((s + t).last() == t.last());
        assert(!is_white_space(t[t.len() - 1]));
        assert(split_state(s).1 + t0 + seq![t.last()] =~= split_state(s).1 + t);
        assert((split_state(s).1 + t0).push(t.last()) =~= split_state(s).1 + t);
    }
}

/// Values written in decimal with single spaces between them split back
/// into the words that were written.
pub proof fn lemma_words_of_joined(xs: Seq<i64>)
    ensures
        words(ascii(join_decimal(xs, space()))) == xs.map_values(|x: i64| ascii(decimal(x as int))),
        xs.len() > 0 ==> split_state(ascii(join_decimal(xs, space()))) == (
            xs.drop_last().map_values(|x: i64| ascii(decimal(x as int))),
            ascii(decimal(xs.last() as int)),
        ),
    decreases xs.len(),
{
    let parts = xs.map_values(|x: i64| decimal(x as int));
    if xs.len() == 0 {
        assert(join_decimal(xs, space()) =~= Seq::<u8>::empty());
        assert(ascii(Seq::<u8>::empty()) =~= Seq::<char>::empty());
        assert(xs.map_values(|x: i64| ascii(decimal(x as int))) =~= Seq::<Seq<char>>::empty());
    } else {
        let last = xs.last();
        lemma_decimal_read_back(last);
        let xs0 = xs.drop_last();
        assert(parts.drop_last() =~= xs0.map_values(|x: i64| decimal(x as int)));
        if xs.len() == 1 {
            assert(join_decimal(xs, space()) == decimal(last as int));
            lemma_split_append(Seq::<char>::empty(), ascii(decimal(last as int)));
            assert(Seq::<char>::empty() + ascii(decimal(last as int)) =~= ascii(decimal(last as int)));
            assert(split_state(Seq::<char>::empty()) == (Seq::<Seq<char>>::empty(), Seq::<char>::empty()));
            assert(Seq::<char>::empty() + ascii(decimal(last as int)) =~= ascii(decimal(last as int)));
            assert(xs0.map_values(|x: i64| ascii(decimal(x as int))) =~= Seq::<Seq<char>>::empty());
            assert(xs.map_values(|x: i64| ascii(decimal(x as int))) =~= seq![ascii(decimal(last as int))]);
        } else {
            lemma_words_of_joined(xs0);
            let prefix = join_decimal(xs0, space());
            assert(join_decimal(xs, space()) == prefix + space() + decimal(last as int));
            lemma_ascii_append(prefix + space(), decimal(last as int));
            lemma_ascii_append(prefix, space());
            let ps = ascii(prefix);
            let st = split_state(ps);
            assert(st.1 == ascii(decimal(xs0.last() as int)));
            lemma_decimal_read_back(xs0.last());
            let with_space = ps + ascii(space());
            assert(ascii(space()) =~= seq![' ']);
            assert(with_space.drop_last() =~= ps);
            assert(with_space.last() == ' ');
            assert(split_state(with_space) == (st.0.push(st.1), Seq::<char>::empty()));
            lemma_split_append(with_space, ascii(decimal(last as int)));
            assert(Seq::<char>::empty() + ascii(decimal(last as int)) =~= ascii(decimal(last as int)));
            assert(st.0.push(st.1) =~= xs.drop_last().map_values(|x: i64| ascii(decimal(x as int)))) by {
                assert(xs0.drop_last() =~= xs.drop_last().drop_last());
            }
            assert(ascii(join_decimal(xs, space())) =~= with_space + ascii(decimal(last as int)));
        }
        assert(xs.map_values(|x: i64| ascii(decimal(x as int))) =~= xs0.map_values(
            |x: i64| ascii(decimal(x as int)),
        ).push(ascii(decimal(last as int))));
    }
}

/// Values written in decimal with single spaces between them read back as
/// the same values.
pub proof fn lemma_joined_read_back(xs: Seq<i64>)
    ensures
        parse_i64_words(ascii(join_decimal(xs, space()))) == Some(xs),
{
    lemma_words_of_joined(xs);
    let w = words(ascii(join_decimal(xs, space())));
    assert forall|i: int| 0 <= i < w.len() implies #[trigger] parse_i64_spec(w[i]) == Some(xs[i]) by {
        lemma_decimal_read_back(xs[i]);
    }
    assert(Seq::new(w.len(), |i: int| parse_i64_spec(w[i])->0) =~= xs);
}

} // verus!
