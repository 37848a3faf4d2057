//! String helpers shared by the path parser, the table ordering and the
//! coercions: lexicographic comparison, ASCII case folding, and canonical
//! decimal formatting and parsing of 64-bit integers.

use vstd::prelude::*;

verus! {

/// Strict lexicographic order on character sequences, comparing characters
/// by their Unicode scalar values; a proper prefix sorts first.
pub open spec fn lex_lt(a: Seq<char>, b: Seq<char>) -> bool
    decreases a.len(),
{
    if b.len() == 0 {
        false
    } else if a.len() == 0 {
        true
    } else if a[0] == b[0] {
        lex_lt(a.drop_first(), b.drop_first())
    } else {
        a[0] < b[0]
    }
}

/// `lex_lt` is irreflexive.
pub proof fn lemma_lex_lt_irreflexive(a: Seq<char>)
    ensures
        !lex_lt(a, a),
    decreases a.len(),
{
    if a.len() > 0 {
        lemma_lex_lt_irreflexive(a.drop_first());
    }
}

/// `lex_lt` is a total order: two sequences are equal or ordered one way.
pub proof fn lemma_lex_lt_total(a: Seq<char>, b: Seq<char>)
    ensures
        lex_lt(a, b) || lex_lt(b, a) || a == b,
    decreases a.len(),
{
    if b.len() == 0 {
        if a.len() == 0 {
            assert(a =~= b);
        } else {
            assert(lex_lt(b, a));
        }
    } else if a.len() == 0 {
        assert(lex_lt(a, b));
    } else if a[0] != b[0] {
        assert(lex_lt(a, b) || lex_lt(b, a));
    }
    if a.len() > 0 && b.len() > 0 && a[0] == b[0] {
        lemma_lex_lt_total(a.drop_first(), b.drop_first());
        if a.drop_first() == b.drop_first() {
            assert(a =~= b) by {
                assert(a.drop_first().len() == a.len() - 1);
                assert(b.drop_first().len() == b.len() - 1);
                assert(a.len() == b.len());
                assert(forall|i: int|
                    1 <= i < a.len() ==> a[i] == a.drop_first()[i - 1] && b[i] == b.drop_first()[i
                        - 1]);
            }
        }
    }
}

/// `lex_lt` is transitive.
pub proof fn lemma_lex_lt_transitive(a: Seq<char>, b: Seq<char>, c: Seq<char>)
    requires
        lex_lt(a, b),
        lex_lt(b, c),
    ensures
        lex_lt(a, c),
    decreases a.len(),
{
    if b.len() > 0 && c.len() > 0 && a.len() > 0 {
        if a[0] == b[0] && b[0] == c[0] {
            lemma_lex_lt_transitive(a.drop_first(), b.drop_first(), c.drop_first());
        }
    }
}

/// Character-for-character equality of two string slices.
pub fn str_eq(a: &str, b: &str) -> (r: bool)
    ensures
        r == (a@ == b@),
{
    let a_len = a.unicode_len();
    let b_len = b.unicode_len();
    if a_len != b_len {
        return false;
    }
    let mut i: usize = 0;
    while i < a_len
        invariant
            i <= a_len,
            a_len == a@.len(),
            b_len == b@.len(),
            a_len == b_len,
            forall|j: int| 0 <= j < i ==> a@[j] == b@[j],
        decreases a_len - i,
    {
        if a.get_char(i) != b.get_char(i) {
            return false;
        }
        i = i + 1;
    }
    proof {
        assert(a@ =~= b@);
    }
    true
}

fn str_lt_from(a: &str, b: &str, i: usize) -> (r: bool)
    requires
        i <= a@.len(),
        i <= b@.len(),
    ensures
        r == lex_lt(a@.skip(i as int), b@.skip(i as int)),
    decreases a@.len() - i,
{
    if i == b.unicode_len() {
        return false;
    }
    if i == a.unicode_len() {
        return true;
    }
    let ca = a.get_char(i);
    let cb = b.get_char(i);
    if ca == cb {
        let r = str_lt_from(a, b, i + 1);
        proof {
            assert(a@.skip(i as int).drop_first() =~= a@.skip(i as int + 1));
            assert(b@.skip(i as int).drop_first() =~= b@.skip(i as int + 1));
        }
        r
    } else {
        ca < cb
    }
}

/// Whether `a` sorts strictly before `b` in lexicographic order.
pub fn str_lt(a: &str, b: &str) -> (r: bool)
    ensures
        r == lex_lt(a@, b@),
{
    let r = str_lt_from(a, b, 0);
    proof {
        assert(a@.skip(0) =~= a@);
        assert(b@.skip(0) =~= b@);
    }
    r
}

/// ASCII case folding of one character: `'A'` through `'Z'` map to their
/// lower-case forms, everything else is unchanged.
pub open spec fn spec_lower_char(c: char) -> char {
    if 65 <= (c as u32) && (c as u32) <= 90 {
        (((c as u32) + 32) as u8) as char
    } else {
        c
    }
}

/// ASCII case folding of a whole character sequence.
pub open spec fn ascii_lower(s: Seq<char>) -> Seq<char> {
    s.map_values(|c: char| spec_lower_char(c))
}

fn lower_char(c: char) -> (r: char)
    ensures
        r == spec_lower_char(c),
{
    let code = c as u32;
    if 65 <= code && code <= 90 {
        ((code + 32) as u8) as char
    } else {
        c
    }
}

/// Relies on `String::push`: appends the given character to the end of the
/// string, which vstd leaves unspecified.
#[verifier::external_body]
pub(crate) fn push_char(s: &mut String, c: char)
    ensures
        final(s)@ == old(s)@.push(c),
{
    s.push(c)
}

/// The ASCII-lower-cased copy of a string slice.
pub fn to_ascii_lowercase(s: &str) -> (r: String)
    ensures
        r@ == ascii_lower(s@),
{
    let len = s.unicode_len();
    let mut out = String::new();
    let mut i: usize = 0;
    while i < len
        invariant
            i <= len,
            len == s@.len(),
            out@ == ascii_lower(s@).take(i as int),
        decreases len - i,
    {
        let c = lower_char(s.get_char(i));
        push_char(&mut out, c);
        proof {
            assert(ascii_lower(s@).take(i as int).push(spec_lower_char(s@[i as int])) =~= ascii_lower(
                s@,
            ).take(i as int + 1));
        }
        i = i + 1;
    }
    proof {
        assert(ascii_lower(s@).take(len as int) =~= ascii_lower(s@));
    }
    out
}

/// The digit character for a value below ten.
pub open spec fn spec_digit_char(d: int) -> char {
    ((48 + d) as u8) as char
}

/// The canonical decimal digits of a non-negative integer, most significant
/// first, with no leading zeros.
pub open spec fn spec_nat_digits(n: int) -> Seq<char>
    decreases n,
{
    if n < 10 {
        seq![spec_digit_char(n)]
    } else {
        spec_nat_digits(n / 10).push(spec_digit_char(n % 10))
    }
}

/// The canonical decimal rendering of an integer, as `{}` formatting
/// produces it: a minus sign for negative values, then the digits.
pub open spec fn spec_int_text(i: int) -> Seq<char> {
    if i < 0 {
        seq!['-'] + spec_nat_digits(-i)
    } else {
        spec_nat_digits(i)
    }
}

fn digit_char(d: u64) -> (r: char)
    requires
        d < 10,
    ensures
        r == spec_digit_char(d as int),
{
    ((48 + d as u8)) as char
}

fn push_nat_digits(n: u64, out: &mut String)
    ensures
        final(out)@ == old(out)@ + spec_nat_digits(n as int),
    decreases n,
{
    if n < 10 {
        push_char(out, digit_char(n));
        proof {
            assert(old(out)@.push(spec_digit_char(n as int)) =~= old(out)@ + spec_nat_digits(
                n as int,
            ));
        }
    } else {
        proof {
            assert(n / 10 < n) by (nonlinear_arith)
                requires
                    n >= 10,
            ;
        }
        push_nat_digits(n / 10, out);
        push_char(out, digit_char(n % 10));
        proof {
            assert((old(out)@ + spec_nat_digits(n as int / 10)).push(
                spec_digit_char(n as int % 10),
            ) =~= old(out)@ + spec_nat_digits(n as int));
        }
    }
}

/// The canonical decimal string of a 64-bit signed integer.
pub fn int_to_string(i: i64) -> (r: String)
    ensures
        r@ == spec_int_text(i as int),
{
    let mut out = String::new();
    let mag: u64 = if i == i64::MIN {
        9223372036854775808u64
    } else if i < 0 {
        (-i) as u64
    } else {
        i as u64
    };
    if i < 0 {
        push_char(&mut out, '-');
    }
    push_nat_digits(mag, &mut out);
    proof {
        if i < 0 {
            assert(seq!['-'] + spec_nat_digits(mag as int) =~= spec_int_text(i as int));
            assert(Seq::<char>::empty().push('-') + spec_nat_digits(mag as int) =~= seq!['-']
                + spec_nat_digits(mag as int));
        } else {
            assert(Seq::<char>::empty() + spec_nat_digits(mag as int) =~= spec_int_text(i as int));
        }
    }
    out
}

/// Whether `c` is a decimal digit.
pub open spec fn spec_is_digit(c: char) -> bool {
    '0' <= c && c <= '9'
}

/// The numeric value of a digit character.
pub open spec fn spec_digit_val(c: char) -> int {
    (c as int) - 48
}

/// The number denoted by a sequence of digit characters, most significant
/// first; the empty sequence denotes zero.
pub open spec fn spec_digits_val(s: Seq<char>) -> int
    decreases s.len(),
{
    if s.len() == 0 {
        0
    } else {
        spec_digits_val(s.drop_last()) * 10 + spec_digit_val(s.last())
    }
}

/// Whether every character of `s` is a decimal digit.
pub open spec fn spec_all_digits(s: Seq<char>) -> bool {
    forall|i: int| 0 <= i < s.len() ==> spec_is_digit(s[i])
}

/// The digit part of an integer literal: everything after an optional
/// leading sign.
pub open spec fn spec_int_literal_digits(s: Seq<char>) -> Seq<char> {
    if s.len() > 0 && (s[0] == '+' || s[0] == '-') {
        s.drop_first()
    } else {
        s
    }
}

/// Whether an integer literal carries a minus sign.
pub open spec fn spec_int_literal_negative(s: Seq<char>) -> bool {
    s.len() > 0 && s[0] == '-'
}

/// The signed number denoted by an integer literal.
pub open spec fn spec_int_value(s: Seq<char>) -> int {
    if spec_int_literal_negative(s) {
        -spec_digits_val(spec_int_literal_digits(s))
    } else {
        spec_digits_val(spec_int_literal_digits(s))
    }
}

/// Whether `s` is a base-10 integer literal whose value fits a 64-bit
/// signed integer: an optional sign followed by one or more digits.
pub open spec fn spec_is_int_literal(s: Seq<char>) -> bool {
    let d = spec_int_literal_digits(s);
    &&& d.len() > 0
    &&& spec_all_digits(d)
    &&& i64::MIN <= spec_int_value(s) <= i64::MAX
}

pub proof fn lemma_digits_val_nonneg(s: Seq<char>)
    requires
        spec_all_digits(s),
    ensures
        spec_digits_val(s) >= 0,
    decreases s.len(),
{
    if s.len() > 0 {
        assert(spec_all_digits(s.drop_last()));
        lemma_digits_val_nonneg(s.drop_last());
    }
}

pub proof fn lemma_digits_val_extend(p: Seq<char>, q: Seq<char>)
    requires
        spec_all_digits(p),
        spec_all_digits(q),
    ensures
        spec_digits_val(p + q) >= spec_digits_val(p),
    decreases q.len(),
{
    if q.len() == 0 {
        assert(p + q =~= p);
    } else {
        assert(spec_all_digits(q.drop_last()));
        lemma_digits_val_extend(p, q.drop_last());
        assert((p + q).drop_last() =~= p + q.drop_last());
        assert((p + q).last() == q.last());
        assert(spec_all_digits(p + q.drop_last()));
        lemma_digits_val_nonneg(p + q.drop_last());
        assert(spec_digits_val(p + q) == spec_digits_val(p + q.drop_last()) * 10 + spec_digit_val(
            q.last(),
        ));
    }
}

/// Parses a base-10 integer literal with an optional leading sign, exactly
/// when the text denotes a value that fits a 64-bit signed integer.
pub fn parse_i64(s: &str) -> (r: Option<i64>)
    ensures
        match r {
            Some(v) => spec_is_int_literal(s@) && v as int == spec_int_value(s@),
            None => !spec_is_int_literal(s@),
        },
{
    let len = s.unicode_len();
    if len == 0 {
        return None;
    }
    let c0 = s.get_char(0);
    let neg = c0 == '-';
    let start: usize = if c0 == '-' || c0 == '+' {
        1
    } else {
        0
    };
    if start == len {
        return None;
    }
    let ghost d_full = spec_int_literal_digits(s@);
    proof {
        assert(d_full =~= s@.skip(start as int));
    }
    let mut mag: u64 = 0;
    let mut i: usize = start;
    while i < len
        invariant
            start <= i <= len,
            len == s@.len(),
            start < len,
            d_full == s@.skip(start as int),
            d_full == spec_int_literal_digits(s@),
            neg == spec_int_literal_negative(s@),
            spec_all_digits(s@.subrange(start as int, i as int)),
            mag as int == spec_digits_val(s@.subrange(start as int, i as int)),
        decreases len - i,
    {
        let c = s.get_char(i);
        if !(c >= '0' && c <= '9') {
            proof {
                assert(!spec_is_digit(s@[i as int]));
                assert(d_full[i - start] == s@[i as int]);
                assert(!spec_all_digits(d_full));
                assert(!spec_is_int_literal(s@));
            }
            return None;
        }
        let d = ((c as u32) - 48) as u64;
        let ghost prefix = s@.subrange(start as int, i as int);
        let ghost prefix1 = s@.subrange(start as int, i as int + 1);
        proof {
            assert(prefix1.drop_last() =~= prefix);
            assert(prefix1.last() == s@[i as int]);
            assert(spec_all_digits(prefix1));
        }
        if mag > (u64::MAX - d) / 10 {
            // any completion of these digits denotes a value outside the
            // 64-bit range
            proof {
                assert(mag * 10 + d > u64::MAX) by (nonlinear_arith)
                    requires
                        mag > (u64::MAX - d) / 10,
                        d < 10,
                ;
                if spec_all_digits(d_full) {
                    let rest = s@.skip(i as int + 1);
                    assert(d_full =~= prefix1 + rest);
                    assert(spec_all_digits(rest)) by {
                        assert(forall|j: int|
                            0 <= j < rest.len() ==> rest[j] == d_full[j + (i + 1 - start)]);
                    }
                    lemma_digits_val_extend(prefix1, rest);
                    assert(spec_digits_val(d_full) > u64::MAX);
                    assert(!(i64::MIN <= spec_int_value(s@) <= i64::MAX));
                }
                assert(!spec_is_int_literal(s@));
            }
            return None;
        }
        proof {
            assert(mag * 10 + d <= u64::MAX) by (nonlinear_arith)
                requires
                    mag <= (u64::MAX - d) / 10,
                    d < 10,
            ;
        }
        mag = mag * 10 + d;
        i = i + 1;
    }
    proof {
        assert(s@.subrange(start as int, len as int) =~= d_full);
    }
    if neg {
        if mag > 9223372036854775808u64 {
            return None;
        }
        if mag == 9223372036854775808u64 {
            Some(i64::MIN)
        } else {
            Some(-(mag as i64))
        }
    } else {
        if mag > 9223372036854775807u64 {
            return None;
        }
        Some(mag as i64)
    }
}

} // verus!
