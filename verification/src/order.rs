//! The order of keys: the store keeps keys in bytewise order, and keys made
//! from dates of years 0 to 9999 sort as the dates do.

use vstd::prelude::*;
use vstd::utf8::*;
use crate::db::midnight;
use crate::project::file_key_text;
use crate::text::lemma_encode_utf8_concat;
use crate::timestamp::{
    digit_char,
    is_rfc3339_char,
    lemma_rfc3339_chars,
    zero_padded,
    fraction_text,
    DateSpec,
    DateTimeSpec,
};

verus! {

/// Bytewise lexicographic order: `a` sorts strictly before `b`.
pub open spec fn bytes_lt(a: Seq<u8>, b: Seq<u8>) -> bool
    decreases a.len(),
{
    if a.len() == 0 {
        b.len() > 0
    } else if b.len() == 0 {
        false
    } else if a[0] != b[0] {
        a[0] < b[0]
    } else {
        bytes_lt(a.drop_first(), b.drop_first())
    }
}

/// Calendar order of dates: `a` is an earlier day than `b`.
pub open spec fn date_before(a: DateSpec, b: DateSpec) -> bool {
    a.year < b.year || (a.year == b.year && (a.month < b.month || (a.month == b.month && a.day < b.day)))
}

/// The bytes of ASCII text, one per character.
pub open spec fn ascii_bytes(s: Seq<char>) -> Seq<u8> {
    s.map_values(|c: char| c as u8)
}

/// The last `w` decimal digits of `x`, as ASCII bytes.
pub open spec fn digit_bytes(x: nat, w: nat) -> Seq<u8>
    decreases w,
{
    if w == 0 {
        Seq::empty()
    } else {
        digit_bytes(x / 10, (w - 1) as nat).push((48 + x % 10) as u8)
    }
}

pub open spec fn pow10(w: nat) -> nat
    decreases w,
{
    if w == 0 {
        1
    } else {
        10 * pow10((w - 1) as nat)
    }
}

proof fn lemma_bytes_lt_irreflexive(a: Seq<u8>)
    ensures
        !bytes_lt(a, a),
    decreases a.len(),
{
    if a.len() > 0 {
        lemma_bytes_lt_irreflexive(a.drop_first());
    }
}

/// Comparing two texts that start with pieces of equal length: the first
/// pieces decide unless they are equal.
proof fn lemma_bytes_lt_concat(x1: Seq<u8>, r1: Seq<u8>, x2: Seq<u8>, r2: Seq<u8>)
    requires
        x1.len() == x2.len(),
    ensures
        bytes_lt(x1 + r1, x2 + r2) == (if x1 == x2 { bytes_lt(r1, r2) } else { bytes_lt(x1, x2) }),
    decreases x1.len(),
{
    if x1.len() == 0 {
        assert(x1 =~= x2);
        assert(x1 + r1 =~= r1);
        assert(x2 + r2 =~= r2);
    } else {
        assert((x1 + r1)[0] == x1[0]);
        assert((x2 + r2)[0] == x2[0]);
        assert((x1 + r1).drop_first() =~= x1.drop_first() + r1);
        assert((x2 + r2).drop_first() =~= x2.drop_first() + r2);
        lemma_bytes_lt_concat(x1.drop_first(), r1, x2.drop_first(), r2);
        if x1[0] == x2[0] {
            if x1.drop_first() == x2.drop_first() {
                assert(x1 =~= x2) by {
                    assert forall|i: int| 0 <= i < x1.len() implies x1[i] == x2[i] by {
                        if i > 0 {
                            assert(x1[i] == x1.drop_first()[i - 1]);
                            assert(x2[i] == x2.drop_first()[i - 1]);
                        }
                    }
                }
            } else {
                assert(x1 != x2);
            }
        } else {
            assert(x1 != x2);
        }
    }
}

proof fn lemma_digit_bytes_len(x: nat, w: nat)
    ensures
        digit_bytes(x, w).len() == w,
    decreases w,
{
    if w > 0 {
        lemma_digit_bytes_len(x / 10, (w - 1) as nat);
    }
}

/// Fixed-width decimal digits sort as the numbers do, and differ exactly
/// when the numbers do.
proof fn lemma_digit_bytes_order(x: nat, y: nat, w: nat)
    requires
        x < pow10(w),
        y < pow10(w),
    ensures
        bytes_lt(digit_bytes(x, w), digit_bytes(y, w)) == (x < y),
        (digit_bytes(x, w) == digit_bytes(y, w)) == (x == y),
    decreases w,
{
    if w == 0 {
        assert(x == 0 && y == 0);
        lemma_bytes_lt_irreflexive(Seq::<u8>::empty());
    } else {
        let p = pow10((w - 1) as nat);
        assert(x / 10 < p && y / 10 < p) by (nonlinear_arith)
            requires
                x < 10 * p,
                y < 10 * p,
        ;
        lemma_digit_bytes_order(x / 10, y / 10, (w - 1) as nat);
        lemma_digit_bytes_len(x / 10, (w - 1) as nat);
        lemma_digit_bytes_len(y / 10, (w - 1) as nat);
        let a = digit_bytes(x / 10, (w - 1) as nat);
        let b = digit_bytes(y / 10, (w - 1) as nat);
        let c = (48 + x % 10) as u8;
        let d = (48 + y % 10) as u8;
        assert(a.push(c) =~= a + seq![c]);
        assert(b.push(d) =~= b + seq![d]);
        lemma_bytes_lt_concat(a, seq![c], b, seq![d]);
        assert(seq![c].drop_first() =~= Seq::<u8>::empty());
        assert(seq![d].drop_first() =~= Seq::<u8>::empty());
        assert(seq![c][0] == c && seq![d][0] == d);
        assert(!bytes_lt(Seq::<u8>::empty(), Seq::<u8>::empty()));
        assert(bytes_lt(seq![c], seq![d]) == (c < d));
        if a.push(c) == b.push(d) {
            assert(a =~= a.push(c).drop_last());
            assert(b =~= b.push(d).drop_last());
            assert(c == a.push(c).last());
        }
    }
}

proof fn lemma_ascii_bytes_concat(a: Seq<char>, b: Seq<char>)
    ensures
        ascii_bytes(a + b) == ascii_bytes(a) + ascii_bytes(b),
{
    assert(ascii_bytes(a + b) =~= ascii_bytes(a) + ascii_bytes(b));
}

proof fn lemma_digit_char_byte(d: int)
    requires
        0 <= d < 10,
    ensures
        digit_char(d) as u8 == (48 + d) as u8,
{
}

/// The UTF-8 bytes of RFC 3339 text are its characters, one byte each.
proof fn lemma_rfc3339_ascii(t: Seq<char>)
    requires
        forall|i: int| 0 <= i < t.len() ==> is_rfc3339_char(#[trigger] t[i]),
    ensures
        encode_utf8(t) == ascii_bytes(t),
{
    assert(is_ascii_chars(t)) by {
        assert forall|i: int| 0 <= i < t.len() implies '\0' <= #[trigger] t[i] <= '\u{7f}' by {
            assert(is_rfc3339_char(t[i]));
        }
    }
    is_ascii_chars_encode_utf8(t);
    assert(encode_utf8(t) =~= ascii_bytes(t));
}

proof fn lemma_pow10_positive(w: nat)
    ensures
        pow10(w) >= 1,
    decreases w,
{
    if w > 0 {
        lemma_pow10_positive((w - 1) as nat);
    }
}

proof fn lemma_decimal_len(x: nat, w: nat)
    requires
        w >= 1,
        x < pow10(w),
    ensures
        crate::timestamp::decimal(x).len() <= w,
    decreases w,
{
    if x >= 10 {
        assert(w >= 2) by {
            if w == 1 {
                assert(pow10(1) == 10) by {
                    reveal_with_fuel(pow10, 2);
                }
            }
        }
        let p = pow10((w - 1) as nat);
        assert(x / 10 < p) by (nonlinear_arith)
            requires
                x < 10 * p,
        ;
        lemma_decimal_len(x / 10, (w - 1) as nat);
    }
}

/// Padding to `w` digits is padding the number without its last digit to
/// `w - 1` digits, then writing the last digit.
proof fn lemma_zero_padded_push(x: nat, w: nat)
    requires
        w >= 2,
        x < pow10(w),
    ensures
        zero_padded(x, w) == zero_padded(x / 10, (w - 1) as nat).push(digit_char((x % 10) as int)),
{
    let p = pow10((w - 1) as nat);
    assert(x / 10 < p) by (nonlinear_arith)
        requires
            x < 10 * p,
    ;
    lemma_decimal_len(x, w);
    lemma_decimal_len(x / 10, (w - 1) as nat);
    let c = digit_char((x % 10) as int);
    if x >= 10 {
        let d = crate::timestamp::decimal(x / 10);
        assert(crate::timestamp::decimal(x) == d.push(c));
        if d.len() + 1 < w {
            let z = Seq::new((w - 1 - d.len()) as nat, |i: int| '0');
            let z1 = Seq::new((w - (d.len() + 1)) as nat, |i: int| '0');
            assert(z1 =~= z);
            assert(z1 + d.push(c) =~= (z + d).push(c));
        }
    } else {
        assert(crate::timestamp::decimal(x) == seq![c]);
        assert(x / 10 == 0);
        assert(crate::timestamp::decimal(0) == seq![digit_char(0)]);
        let z = Seq::new((w - 2) as nat, |i: int| '0');
        let z1 = Seq::new((w - 1) as nat, |i: int| '0');
        assert(z1 + seq![c] =~= (z + seq![digit_char(0)]).push(c));
    }
}

/// The ASCII bytes of a number padded to `w` digits are its last `w` digits.
proof fn lemma_zero_padded_bytes(x: nat, w: nat)
    requires
        w >= 1,
        x < pow10(w),
    ensures
        ascii_bytes(zero_padded(x, w)) == digit_bytes(x, w),
    decreases w,
{
    if w == 1 {
        assert(pow10(1) == 10) by {
            reveal_with_fuel(pow10, 2);
        }
        assert(zero_padded(x, 1) == seq![digit_char(x as int)]);
        lemma_digit_char_byte(x as int);
        assert(digit_bytes(x, 1) == digit_bytes(x / 10, 0).push((48 + x % 10) as u8));
        assert(ascii_bytes(seq![digit_char(x as int)]) =~= digit_bytes(x, 1));
    } else {
        let p = pow10((w - 1) as nat);
        assert(x / 10 < p) by (nonlinear_arith)
            requires
                x < 10 * p,
        ;
        lemma_zero_padded_push(x, w);
        lemma_zero_padded_bytes(x / 10, (w - 1) as nat);
        lemma_digit_char_byte((x % 10) as int);
        let z = zero_padded(x / 10, (w - 1) as nat);
        assert(ascii_bytes(z.push(digit_char((x % 10) as int))) =~= ascii_bytes(z).push(
            (48 + x % 10) as u8,
        ));
    }
}

/// The last `a + b` digits of `x` are the last `a` digits of `x` without its
/// last `b` digits, then its last `b` digits.
proof fn lemma_digit_bytes_split(x: nat, a: nat, b: nat)
    ensures
        pow10(b) >= 1,
        digit_bytes(x, a + b) == digit_bytes(x / pow10(b), a) + digit_bytes(x % pow10(b), b),
    decreases b,
{
    lemma_pow10_positive(b);
    if b == 0 {
        assert(digit_bytes(x % 1, 0) =~= Seq::<u8>::empty());
        assert(digit_bytes(x, a) + Seq::<u8>::empty() =~= digit_bytes(x, a));
    } else {
        let m = pow10((b - 1) as nat);
        lemma_pow10_positive((b - 1) as nat);
        lemma_digit_bytes_split(x / 10, a, (b - 1) as nat);
        vstd::arithmetic::div_mod::lemma_div_denominator(x as int, 10, m as int);
        vstd::arithmetic::div_mod::lemma_mod_breakdown(x as int, 10, m as int);
        let r = x % (10 * m);
        let q = (x / 10) % m;
        let t = x % 10;
        assert(r == 10 * q + t);
        assert(r / 10 == q && r % 10 == t) by (nonlinear_arith)
            requires
                r == 10 * q + t,
                0 <= t < 10,
                0 <= q,
        ;
        assert(digit_bytes(x, a + b) == digit_bytes(x / 10, (a + b - 1) as nat).push((48 + x % 10) as u8));
        assert(digit_bytes(r, b) == digit_bytes(r / 10, (b - 1) as nat).push((48 + r % 10) as u8));
        assert((a + b - 1) as nat == a + (b - 1) as nat);
        assert(digit_bytes(x, a + b) =~= digit_bytes(x / pow10(b), a) + digit_bytes(x % pow10(b), b));
    }
}

proof fn lemma_digit_bytes_are_digits(x: nat, w: nat)
    ensures
        forall|i: int| 0 <= i < digit_bytes(x, w).len() ==> 48 <= #[trigger] digit_bytes(x, w)[i] <= 57,
    decreases w,
{
    if w > 0 {
        lemma_digit_bytes_are_digits(x / 10, (w - 1) as nat);
        let p = digit_bytes(x / 10, (w - 1) as nat);
        assert forall|i: int| 0 <= i < p.push((48 + x % 10) as u8).len() implies 48 <= #[trigger] p.push(
            (48 + x % 10) as u8,
        )[i] <= 57 by {
            if i < p.len() {
                assert(p.push((48 + x % 10) as u8)[i] == p[i]);
            }
        }
    }
}

/// The number of digits RFC 3339 text shows of a fraction of a second.
pub open spec fn fraction_width(n: int) -> nat {
    if n % 1_000_000 == 0 {
        3
    } else if n % 1_000 == 0 {
        6
    } else {
        9
    }
}

/// The value of the last digit RFC 3339 text shows of a fraction of a
/// second, in nanoseconds.
pub open spec fn fraction_unit(n: int) -> nat {
    if n % 1_000_000 == 0 {
        1_000_000
    } else if n % 1_000 == 0 {
        1_000
    } else {
        1
    }
}

proof fn lemma_pow10_values()
    ensures
        pow10(0) == 1,
        pow10(3) == 1_000,
        pow10(6) == 1_000_000,
        pow10(9) == 1_000_000_000,
{
    reveal_with_fuel(pow10, 10);
}

/// The bytes of a nonzero fraction of a second: a dot, then its shown digits.
proof fn lemma_fraction_bytes(n: int)
    requires
        0 < n < 1_000_000_000,
    ensures
        ascii_bytes(fraction_text(n)) == seq![46u8] + digit_bytes((n / fraction_unit(n) as int) as nat, fraction_width(n)),
        (n / fraction_unit(n) as int) < pow10(fraction_width(n)),
        n % (fraction_unit(n) as int) == 0,
{
    lemma_pow10_values();
    let k = fraction_width(n);
    let u = fraction_unit(n) as int;
    let q = (n / u) as nat;
    assert(n / u < pow10(k));
    lemma_zero_padded_bytes(q, k);
    lemma_ascii_bytes_concat(seq!['.'], zero_padded(q, k));
    assert(ascii_bytes(seq!['.']) =~= seq![46u8]);
}

/// Comparing two shown fractions, each followed by the offset text: the
/// fraction with fewer shown digits (`k1 <= k2`) has value `n1`, the other
/// `n2`; a shorter fraction that is a prefix of a longer one sorts first,
/// since the offset's `+` sorts before every digit.
proof fn lemma_fraction_digits_order(n1: int, k1: nat, u1: int, n2: int, k2: nat, u2: int, d: nat, p: Seq<u8>)
    requires
        0 <= n1 < 1_000_000_000,
        0 <= n2 < 1_000_000_000,
        u1 >= 1,
        u2 >= 1,
        k2 == k1 + d,
        u1 == u2 * pow10(d),
        u1 * pow10(k1) == 1_000_000_000,
        u2 * pow10(k2) == 1_000_000_000,
        n1 % u1 == 0,
        n2 % u2 == 0,
        d > 0 ==> n2 % u1 != 0,
        p.len() > 0,
        p[0] == 43,
    ensures
        bytes_lt(digit_bytes((n1 / u1) as nat, k1) + p, digit_bytes((n2 / u2) as nat, k2) + p) == (n1 < n2),
        bytes_lt(digit_bytes((n2 / u2) as nat, k2) + p, digit_bytes((n1 / u1) as nat, k1) + p) == (n2 < n1),
{
    let q1 = n1 / u1;
    let q2 = n2 / u2;
    let pk1 = pow10(k1);
    let pd = pow10(d);
    lemma_pow10_positive(k1);
    lemma_pow10_positive(d);
    assert(0 <= q1 < pk1) by (nonlinear_arith)
        requires
            0 <= n1 < 1_000_000_000,
            u1 * pk1 == 1_000_000_000,
            u1 >= 1,
            q1 == n1 / u1,
    ;
    assert(n1 == u1 * q1) by (nonlinear_arith)
        requires
            n1 % u1 == 0,
            q1 == n1 / u1,
            u1 >= 1,
    {
        vstd::arithmetic::div_mod::lemma_fundamental_div_mod(n1, u1);
    }
    let t1 = digit_bytes(q1 as nat, k1);
    let t2 = digit_bytes(q2 as nat, k2);
    lemma_digit_bytes_len(q1 as nat, k1);
    lemma_digit_bytes_len(q2 as nat, k2);
    let q2h = q2 / (pd as int);
    assert(q2h == n2 / u1 && 0 <= q2h) by {
        vstd::arithmetic::div_mod::lemma_div_denominator(n2, u2, pd as int);
    }
    assert(q2h < pk1) by (nonlinear_arith)
        requires
            0 <= n2 < 1_000_000_000,
            u1 * pk1 == 1_000_000_000,
            u1 >= 1,
            q2h == n2 / u1,
    ;
    lemma_digit_bytes_split(q2 as nat, k1, d);
    let a2 = digit_bytes(q2h as nat, k1);
    let r2 = digit_bytes((q2 as nat) % pd, d);
    lemma_digit_bytes_len(q2h as nat, k1);
    lemma_digit_bytes_len((q2 as nat) % pd, d);
    assert(t2 == a2 + r2);
    assert(t2 + p =~= a2 + (r2 + p));
    lemma_digit_bytes_order(q1 as nat, q2h as nat, k1);
    lemma_digit_bytes_order(q2h as nat, q1 as nat, k1);
    lemma_bytes_lt_concat(t1, p, a2, r2 + p);
    lemma_bytes_lt_concat(a2, r2 + p, t1, p);
    let rem = n2 % u1;
    assert(n2 == u1 * q2h + rem && 0 <= rem < u1) by {
        vstd::arithmetic::div_mod::lemma_fundamental_div_mod(n2, u1);
    }
    if d == 0 {
        assert(r2 =~= Seq::<u8>::empty());
        assert(r2 + p =~= p);
        assert(pd == 1) by {
            reveal_with_fuel(pow10, 1);
        }
        assert(u1 == u2) by (nonlinear_arith)
            requires
                u1 == u2 * pd,
                pd == 1,
        ;
        assert(rem == 0);
        lemma_bytes_lt_irreflexive(p);
        assert((n1 < n2) == (q1 < q2h) && (n2 < n1) == (q2h < q1)) by (nonlinear_arith)
            requires
                n1 == u1 * q1,
                n2 == u1 * q2h,
                u1 >= 1,
        ;
    } else {
        lemma_digit_bytes_are_digits((q2 as nat) % pd, d);
        assert((r2 + p)[0] == r2[0]);
        assert(48 <= r2[0]);
        assert(bytes_lt(p, r2 + p));
        assert(!bytes_lt(r2 + p, p));
        assert(rem > 0);
        assert(q1 < q2h ==> n1 < n2) by (nonlinear_arith)
            requires
                n1 == u1 * q1,
                n2 == u1 * q2h + rem,
                rem >= 0,
                u1 >= 1,
        ;
        assert(q1 > q2h ==> n2 < n1) by (nonlinear_arith)
            requires
                n1 == u1 * q1,
                n2 == u1 * q2h + rem,
                rem < u1,
                u1 >= 1,
        ;
        assert(q1 == q2h ==> n1 < n2) by (nonlinear_arith)
            requires
                n1 == u1 * q1,
                n2 == u1 * q2h + rem,
                rem > 0,
        ;
    }
}

/// RFC 3339 fractions followed by the offset text sort as the fractions'
/// values do.
proof fn lemma_fraction_order(n1: int, n2: int, p: Seq<u8>)
    requires
        0 <= n1 < 1_000_000_000,
        0 <= n2 < 1_000_000_000,
        p.len() > 0,
        p[0] == 43,
    ensures
        bytes_lt(ascii_bytes(fraction_text(n1)) + p, ascii_bytes(fraction_text(n2)) + p) == (n1 < n2),
{
    lemma_pow10_values();
    if n1 == 0 && n2 == 0 {
        assert(ascii_bytes(fraction_text(0)) =~= Seq::<u8>::empty());
        assert(Seq::<u8>::empty() + p =~= p);
        lemma_bytes_lt_irreflexive(p);
    } else if n1 == 0 {
        lemma_fraction_bytes(n2);
        assert(ascii_bytes(fraction_text(0)) =~= Seq::<u8>::empty());
        assert(Seq::<u8>::empty() + p =~= p);
        assert((ascii_bytes(fraction_text(n2)) + p)[0] == 46);
    } else if n2 == 0 {
        lemma_fraction_bytes(n1);
        assert(ascii_bytes(fraction_text(0)) =~= Seq::<u8>::empty());
        assert(Seq::<u8>::empty() + p =~= p);
        assert((ascii_bytes(fraction_text(n1)) + p)[0] == 46);
    } else {
        lemma_fraction_bytes(n1);
        lemma_fraction_bytes(n2);
        let k1 = fraction_width(n1);
        let k2 = fraction_width(n2);
        let u1 = fraction_unit(n1) as int;
        let u2 = fraction_unit(n2) as int;
        let t1 = digit_bytes((n1 / u1) as nat, k1);
        let t2 = digit_bytes((n2 / u2) as nat, k2);
        let dot = seq![46u8];
        assert(ascii_bytes(fraction_text(n1)) + p =~= dot + (t1 + p));
        assert(ascii_bytes(fraction_text(n2)) + p =~= dot + (t2 + p));
        lemma_bytes_lt_concat(dot, t1 + p, dot, t2 + p);
        if k1 <= k2 {
            let d = (k2 - k1) as nat;
            assert(d == 0 || d == 3 || d == 6);
            assert(u1 == u2 * pow10(d)) by {
                if d == 3 {
                    assert(pow10(d) == 1000);
                } else if d == 6 {
                    assert(pow10(d) == 1_000_000);
                } else {
                    assert(pow10(d) == 1);
                }
            }
            lemma_fraction_digits_order(n1, k1, u1, n2, k2, u2, d, p);
        } else {
            let d = (k1 - k2) as nat;
            assert(d == 3 || d == 6);
            assert(u2 == u1 * pow10(d)) by {
                if d == 3 {
                    assert(pow10(d) == 1000);
                } else {
                    assert(pow10(d) == 1_000_000);
                }
            }
            lemma_fraction_digits_order(n2, k2, u2, n1, k1, u1, d, p);
        }
    }
}

/// Calendar order of date-times: `a` is an earlier instant than `b` (a leap
/// second, held as a nanosecond count of a second or more after second 59,
/// comes after the rest of that second 59).
pub open spec fn datetime_before(a: DateTimeSpec, b: DateTimeSpec) -> bool {
    a.year < b.year || (a.year == b.year && (a.month < b.month || (a.month == b.month && (a.day < b.day
        || (a.day == b.day && (a.hour < b.hour || (a.hour == b.hour && (a.minute < b.minute || (
    a.minute == b.minute && (a.second < b.second || (a.second == b.second && a.nano < b.nano)))))))))))
}

/// The offset text RFC 3339 ends with for UTC.
spec fn utc_offset() -> Seq<char> {
    seq!['+', '0', '0', ':', '0', '0']
}

/// The seconds RFC 3339 text shows: a leap second shows as second 60.
spec fn shown_second(t: DateTimeSpec) -> int {
    if t.nano >= 1_000_000_000 { t.second + 1 } else { t.second }
}

/// The nanoseconds RFC 3339 text shows as the fraction.
spec fn shown_nano(t: DateTimeSpec) -> int {
    if t.nano >= 1_000_000_000 { t.nano - 1_000_000_000 } else { t.nano }
}

/// The bytes of the RFC 3339 text of a date-time up to its whole seconds,
/// from the shown numbers.
spec fn prefix_bytes(y: nat, mo: nat, d: nat, h: nat, mi: nat, se: nat) -> Seq<u8> {
    digit_bytes(y, 4) + seq![45u8] + digit_bytes(mo, 2) + seq![45u8] + digit_bytes(d, 2) + seq![84u8]
        + digit_bytes(h, 2) + seq![58u8] + digit_bytes(mi, 2) + seq![58u8] + digit_bytes(se, 2)
}

/// The UTF-8 bytes of the RFC 3339 text of a date-time of the years 0 to
/// 9999: the fixed-width part up to the seconds, then the fraction and the
/// offset.
proof fn lemma_rfc3339_bytes(t: DateTimeSpec)
    requires
        t.valid(),
        0 <= t.year <= 9999,
    ensures
        encode_utf8(t.rfc3339()) == prefix_bytes(
            t.year as nat,
            t.month as nat,
            t.day as nat,
            t.hour as nat,
            t.minute as nat,
            shown_second(t) as nat,
        ) + (ascii_bytes(fraction_text(shown_nano(t))) + ascii_bytes(utc_offset())),
{
    let sec = shown_second(t);
    let nano = shown_nano(t);
    lemma_rfc3339_chars(t.year, t.month, t.day, t.hour, t.minute, t.second, t.nano);
    lemma_rfc3339_ascii(t.rfc3339());
    assert(pow10(4) == 10000 && pow10(2) == 100) by {
        reveal_with_fuel(pow10, 5);
    }
    let y = zero_padded(t.year as nat, 4);
    let mo = zero_padded(t.month as nat, 2);
    let d = zero_padded(t.day as nat, 2);
    let h = zero_padded(t.hour as nat, 2);
    let mi = zero_padded(t.minute as nat, 2);
    let se = zero_padded(sec as nat, 2);
    let f = fraction_text(nano);
    let o = utc_offset();
    lemma_zero_padded_bytes(t.year as nat, 4);
    lemma_zero_padded_bytes(t.month as nat, 2);
    lemma_zero_padded_bytes(t.day as nat, 2);
    lemma_zero_padded_bytes(t.hour as nat, 2);
    lemma_zero_padded_bytes(t.minute as nat, 2);
    lemma_zero_padded_bytes(sec as nat, 2);
    let c1 = y + seq!['-'];
    let c2 = c1 + mo;
    let c3 = c2 + seq!['-'];
    let c4 = c3 + d;
    let c5 = c4 + seq!['T'];
    let c6 = c5 + h;
    let c7 = c6 + seq![':'];
    let c8 = c7 + mi;
    let c9 = c8 + seq![':'];
    let c10 = c9 + se;
    let c11 = c10 + f;
    assert(t.rfc3339() == c11 + o);
    lemma_ascii_bytes_concat(y, seq!['-']);
    lemma_ascii_bytes_concat(c1, mo);
    lemma_ascii_bytes_concat(c2, seq!['-']);
    lemma_ascii_bytes_concat(c3, d);
    lemma_ascii_bytes_concat(c4, seq!['T']);
    lemma_ascii_bytes_concat(c5, h);
    lemma_ascii_bytes_concat(c6, seq![':']);
    lemma_ascii_bytes_concat(c7, mi);
    lemma_ascii_bytes_concat(c8, seq![':']);
    lemma_ascii_bytes_concat(c9, se);
    lemma_ascii_bytes_concat(c10, f);
    lemma_ascii_bytes_concat(c11, o);
    assert(ascii_bytes(seq!['-']) =~= seq![45u8]);
    assert(ascii_bytes(seq!['T']) =~= seq![84u8]);
    assert(ascii_bytes(seq![':']) =~= seq![58u8]);
    vstd::seq_lib::lemma_concat_associative(ascii_bytes(c10), ascii_bytes(f), ascii_bytes(o));
}

/// Two texts made of a prefix and a suffix, with prefixes of equal length
/// and suffixes of equal length, compare as the pairs do.
proof fn lemma_prefix_order(p1: Seq<u8>, f1: Seq<u8>, p2: Seq<u8>, f2: Seq<u8>)
    requires
        p1.len() == p2.len(),
        f1.len() == f2.len(),
    ensures
        bytes_lt(p1 + f1, p2 + f2) == (bytes_lt(p1, p2) || (p1 == p2 && bytes_lt(f1, f2))),
        (p1 + f1 == p2 + f2) == (p1 == p2 && f1 == f2),
{
    lemma_bytes_lt_concat(p1, f1, p2, f2);
    if p1 == p2 {
        lemma_bytes_lt_irreflexive(p1);
    }
    if p1 + f1 == p2 + f2 {
        assert(p1 =~= (p1 + f1).subrange(0, p1.len() as int));
        assert(p2 =~= (p2 + f2).subrange(0, p2.len() as int));
        assert(f1 =~= (p1 + f1).subrange(p1.len() as int, (p1 + f1).len() as int));
        assert(f2 =~= (p2 + f2).subrange(p2.len() as int, (p2 + f2).len() as int));
    }
}

/// A fixed-width number after a prefix.
proof fn lemma_prefix_field(p1: Seq<u8>, x1: nat, p2: Seq<u8>, x2: nat, w: nat)
    requires
        p1.len() == p2.len(),
        x1 < pow10(w),
        x2 < pow10(w),
    ensures
        bytes_lt(p1 + digit_bytes(x1, w), p2 + digit_bytes(x2, w)) == (bytes_lt(p1, p2) || (p1 == p2 && x1 < x2)),
        (p1 + digit_bytes(x1, w) == p2 + digit_bytes(x2, w)) == (p1 == p2 && x1 == x2),
{
    lemma_digit_bytes_len(x1, w);
    lemma_digit_bytes_len(x2, w);
    lemma_digit_bytes_order(x1, x2, w);
    lemma_prefix_order(p1, digit_bytes(x1, w), p2, digit_bytes(x2, w));
}

/// A separator after a prefix.
proof fn lemma_prefix_sep(p1: Seq<u8>, p2: Seq<u8>, c: u8)
    requires
        p1.len() == p2.len(),
    ensures
        bytes_lt(p1 + seq![c], p2 + seq![c]) == bytes_lt(p1, p2),
        (p1 + seq![c] == p2 + seq![c]) == (p1 == p2),
{
    lemma_prefix_order(p1, seq![c], p2, seq![c]);
    lemma_bytes_lt_irreflexive(seq![c]);
}

/// Keys made from date-times of the years 0 to 9999 sort bytewise exactly
/// as the instants sort in time, fractions of a second and leap seconds
/// included, so that a store ordered by key bytes can be read from a
/// point in time onwards.
#[verifier::rlimit(60)]
pub proof fn law_datetime_keys_sort(a: DateTimeSpec, b: DateTimeSpec)
    requires
        a.valid(),
        b.valid(),
        0 <= a.year <= 9999,
        0 <= b.year <= 9999,
    ensures
        datetime_before(a, b) == bytes_lt(encode_utf8(a.rfc3339()), encode_utf8(b.rfc3339())),
{
    lemma_rfc3339_bytes(a);
    lemma_rfc3339_bytes(b);
    assert(pow10(4) == 10000 && pow10(2) == 100) by {
        reveal_with_fuel(pow10, 5);
    }
    let sa = shown_second(a) as nat;
    let na = shown_nano(a);
    let sb = shown_second(b) as nat;
    let nb = shown_nano(b);
    let o = ascii_bytes(utc_offset());
    assert(o[0] == 43u8);
    lemma_fraction_order(na, nb, o);
    let ya = digit_bytes(a.year as nat, 4);
    let yb = digit_bytes(b.year as nat, 4);
    lemma_digit_bytes_len(a.year as nat, 4);
    lemma_digit_bytes_len(b.year as nat, 4);
    lemma_digit_bytes_order(a.year as nat, b.year as nat, 4);
    let a1 = ya + seq![45u8];
    let b1 = yb + seq![45u8];
    lemma_prefix_sep(ya, yb, 45u8);
    let a2 = a1 + digit_bytes(a.month as nat, 2);
    let b2 = b1 + digit_bytes(b.month as nat, 2);
    lemma_prefix_field(a1, a.month as nat, b1, b.month as nat, 2);
    let a3 = a2 + seq![45u8];
    let b3 = b2 + seq![45u8];
    lemma_digit_bytes_len(a.month as nat, 2);
    lemma_digit_bytes_len(b.month as nat, 2);
    lemma_prefix_sep(a2, b2, 45u8);
    let a4 = a3 + digit_bytes(a.day as nat, 2);
    let b4 = b3 + digit_bytes(b.day as nat, 2);
    lemma_prefix_field(a3, a.day as nat, b3, b.day as nat, 2);
    let a5 = a4 + seq![84u8];
    let b5 = b4 + seq![84u8];
    lemma_digit_bytes_len(a.day as nat, 2);
    lemma_digit_bytes_len(b.day as nat, 2);
    lemma_prefix_sep(a4, b4, 84u8);
    let a6 = a5 + digit_bytes(a.hour as nat, 2);
    let b6 = b5 + digit_bytes(b.hour as nat, 2);
    lemma_prefix_field(a5, a.hour as nat, b5, b.hour as nat, 2);
    let a7 = a6 + seq![58u8];
    let b7 = b6 + seq![58u8];
    lemma_digit_bytes_len(a.hour as nat, 2);
    lemma_digit_bytes_len(b.hour as nat, 2);
    lemma_prefix_sep(a6, b6, 58u8);
    let a8 = a7 + digit_bytes(a.minute as nat, 2);
    let b8 = b7 + digit_bytes(b.minute as nat, 2);
    lemma_prefix_field(a7, a.minute as nat, b7, b.minute as nat, 2);
    let a9 = a8 + seq![58u8];
    let b9 = b8 + seq![58u8];
    lemma_digit_bytes_len(a.minute as nat, 2);
    lemma_digit_bytes_len(b.minute as nat, 2);
    lemma_prefix_sep(a8, b8, 58u8);
    let a10 = a9 + digit_bytes(sa, 2);
    let b10 = b9 + digit_bytes(sb, 2);
    lemma_prefix_field(a9, sa, b9, sb, 2);
    assert(a10 == prefix_bytes(a.year as nat, a.month as nat, a.day as nat, a.hour as nat, a.minute as nat, sa));
    assert(b10 == prefix_bytes(b.year as nat, b.month as nat, b.day as nat, b.hour as nat, b.minute as nat, sb));
    lemma_digit_bytes_len(sa, 2);
    lemma_digit_bytes_len(sb, 2);
    let fa = ascii_bytes(fraction_text(na)) + o;
    let fb = ascii_bytes(fraction_text(nb)) + o;
    lemma_bytes_lt_concat(a10, fa, b10, fb);
    assert(((sa < sb) || (sa == sb && na < nb)) == ((a.second < b.second) || (a.second == b.second && a.nano
        < b.nano)));
}

/// Keys made from dates of the years 0 to 9999 sort bytewise exactly as
/// the dates sort in the calendar, so that a store ordered by key bytes
/// keeps them in time order.
pub proof fn law_date_keys_sort(a: DateSpec, b: DateSpec)
    requires
        a.valid(),
        b.valid(),
        0 <= a.year <= 9999,
        0 <= b.year <= 9999,
    ensures
        date_before(a, b) == bytes_lt(
            encode_utf8(midnight(a).rfc3339()),
            encode_utf8(midnight(b).rfc3339()),
        ),
{
    law_datetime_keys_sort(midnight(a), midnight(b));
}

/// `a` is a prefix of `b`.
pub open spec fn is_prefix(a: Seq<u8>, b: Seq<u8>) -> bool {
    a.len() <= b.len() && b.subrange(0, a.len() as int) == a
}

/// Texts with a common start compare as their rests do.
proof fn lemma_common_prefix_order(h: Seq<u8>, r1: Seq<u8>, r2: Seq<u8>)
    ensures
        bytes_lt(h + r1, h + r2) == bytes_lt(r1, r2),
{
    lemma_bytes_lt_concat(h, r1, h, r2);
}

/// Where neither of two texts is a prefix of the other, whatever follows
/// them does not change their order.
proof fn lemma_no_prefix_order(a: Seq<u8>, s1: Seq<u8>, b: Seq<u8>, s2: Seq<u8>)
    requires
        !is_prefix(a, b),
        !is_prefix(b, a),
    ensures
        bytes_lt(a + s1, b + s2) == bytes_lt(a, b),
    decreases a.len(),
{
    if a.len() == 0 {
        assert(is_prefix(a, b)) by {
            assert(b.subrange(0, 0) =~= a);
        }
    } else if b.len() == 0 {
        assert(is_prefix(b, a)) by {
            assert(a.subrange(0, 0) =~= b);
        }
    } else {
        assert((a + s1)[0] == a[0] && (b + s2)[0] == b[0]);
        if a[0] == b[0] {
            assert((a + s1).drop_first() =~= a.drop_first() + s1);
            assert((b + s2).drop_first() =~= b.drop_first() + s2);
            assert(!is_prefix(a.drop_first(), b.drop_first())) by {
                if is_prefix(a.drop_first(), b.drop_first()) {
                    assert(b.subrange(0, a.len() as int) =~= a) by {
                        assert forall|i: int| 0 <= i < a.len() implies b.subrange(0, a.len() as int)[i] == a[i] by {
                            if i > 0 {
                                assert(b.drop_first().subrange(0, a.drop_first().len() as int)[i - 1]
                                    == a.drop_first()[i - 1]);
                            }
                        }
                    }
                }
            }
            assert(!is_prefix(b.drop_first(), a.drop_first())) by {
                if is_prefix(b.drop_first(), a.drop_first()) {
                    assert(a.subrange(0, b.len() as int) =~= b) by {
                        assert forall|i: int| 0 <= i < b.len() implies a.subrange(0, b.len() as int)[i] == b[i] by {
                            if i > 0 {
                                assert(a.drop_first().subrange(0, b.drop_first().len() as int)[i - 1]
                                    == b.drop_first()[i - 1]);
                            }
                        }
                    }
                }
            }
            lemma_no_prefix_order(a.drop_first(), s1, b.drop_first(), s2);
        }
    }
}

/// Of two different RFC 3339 texts of the years 0 to 9999 neither is a
/// prefix of the other: both end with the offset, and `+` occurs nowhere
/// else.
proof fn lemma_rfc3339_no_prefix(ta: DateTimeSpec, tb: DateTimeSpec)
    requires
        ta.valid(),
        tb.valid(),
        0 <= ta.year <= 9999,
        0 <= tb.year <= 9999,
        encode_utf8(ta.rfc3339()) != encode_utf8(tb.rfc3339()),
    ensures
        !is_prefix(encode_utf8(ta.rfc3339()), encode_utf8(tb.rfc3339())),
{
    lemma_rfc3339_bytes(ta);
    lemma_rfc3339_bytes(tb);
    let pa = prefix_bytes(ta.year as nat, ta.month as nat, ta.day as nat, ta.hour as nat, ta.minute as nat, shown_second(ta) as nat);
    let pb = prefix_bytes(tb.year as nat, tb.month as nat, tb.day as nat, tb.hour as nat, tb.minute as nat, shown_second(tb) as nat);
    lemma_prefix_len(ta);
    lemma_prefix_len(tb);
    let o = ascii_bytes(utc_offset());
    let fa = ascii_bytes(fraction_text(shown_nano(ta)));
    let fb = ascii_bytes(fraction_text(shown_nano(tb)));
    let a = encode_utf8(ta.rfc3339());
    let b = encode_utf8(tb.rfc3339());
    if is_prefix(a, b) {
        assert(a.len() < b.len()) by {
            if a.len() == b.len() {
                assert(b =~= b.subrange(0, a.len() as int));
            }
        }
        assert(fa.len() < fb.len());
        lemma_fraction_shape(shown_nano(ta));
        lemma_fraction_shape(shown_nano(tb));
        let i: int = 19 + fa.len() as int;
        assert(a[i] == 43u8) by {
            assert(a[i] == (fa + o)[fa.len() as int]);
        }
        assert(b[i] == fb[fa.len() as int]) by {
            assert(b[i] == (fb + o)[fa.len() as int]);
        }
        assert(b.subrange(0, a.len() as int)[i] == b[i]);
        assert(fb[fa.len() as int] != 43u8);
        assert(false);
    }
}

proof fn lemma_prefix_len(t: DateTimeSpec)
    ensures
        prefix_bytes(t.year as nat, t.month as nat, t.day as nat, t.hour as nat, t.minute as nat, shown_second(t) as nat).len() == 19,
{
    lemma_digit_bytes_len(t.year as nat, 4);
    lemma_digit_bytes_len(t.month as nat, 2);
    lemma_digit_bytes_len(t.day as nat, 2);
    lemma_digit_bytes_len(t.hour as nat, 2);
    lemma_digit_bytes_len(t.minute as nat, 2);
    lemma_digit_bytes_len(shown_second(t) as nat, 2);
}

/// The bytes of a shown fraction are a dot and digits: never `+`.
proof fn lemma_fraction_shape(n: int)
    requires
        0 <= n < 1_000_000_000,
    ensures
        forall|i: int| 0 <= i < ascii_bytes(fraction_text(n)).len() ==> #[trigger] ascii_bytes(fraction_text(n))[i] != 43u8,
{
    if n == 0 {
        assert(ascii_bytes(fraction_text(0)) =~= Seq::<u8>::empty());
    } else {
        lemma_pow10_values();
        lemma_fraction_bytes(n);
        let q = (n / fraction_unit(n) as int) as nat;
        lemma_digit_bytes_are_digits(q, fraction_width(n));
        assert forall|i: int| 0 <= i < ascii_bytes(fraction_text(n)).len() implies #[trigger] ascii_bytes(
            fraction_text(n),
        )[i] != 43u8 by {
            if i > 0 {
                assert((seq![46u8] + digit_bytes(q, fraction_width(n)))[i] == digit_bytes(q, fraction_width(n))[i - 1]);
            }
        }
    }
}

/// Date-times of the years 0 to 9999 have the same RFC 3339 text exactly
/// when they are the same.
proof fn lemma_rfc3339_injective(ta: DateTimeSpec, tb: DateTimeSpec)
    requires
        ta.valid(),
        tb.valid(),
        0 <= ta.year <= 9999,
        0 <= tb.year <= 9999,
    ensures
        (encode_utf8(ta.rfc3339()) == encode_utf8(tb.rfc3339())) == (ta == tb),
{
    if ta != tb {
        law_datetime_keys_sort(ta, tb);
        law_datetime_keys_sort(tb, ta);
        lemma_bytes_lt_irreflexive(encode_utf8(ta.rfc3339()));
        assert(datetime_before(ta, tb) || datetime_before(tb, ta));
    }
}

/// The key that starts the records of the scan of `project` at `batch`:
/// `projects!`, the project directory, `!`, the time of the scan.
pub open spec fn scan_start_text(project: Seq<char>, batch: DateTimeSpec) -> Seq<char> {
    "projects!"@ + project + "!"@ + batch.rfc3339()
}

proof fn lemma_file_key_split(project: Seq<char>, t: DateTimeSpec, path: Seq<char>)
    ensures
        encode_utf8(file_key_text(project, t, path)) == encode_utf8("projects!"@ + project + "!"@)
            + encode_utf8(t.rfc3339()) + encode_utf8("!"@ + path),
        encode_utf8(scan_start_text(project, t)) == encode_utf8("projects!"@ + project + "!"@) + encode_utf8(
            t.rfc3339(),
        ),
{
    let h = "projects!"@ + project + "!"@;
    let r = t.rfc3339();
    let tail = "!"@ + path;
    assert(file_key_text(project, t, path) =~= (h + r) + tail);
    lemma_encode_utf8_concat(h + r, tail);
    lemma_encode_utf8_concat(h, r);
}

/// The stored records of one project sort by the time of their scan, and
/// those of one scan by the path of their file: the keys of a project's
/// files sort as the pairs of scan time and path bytes do.
pub proof fn law_file_keys_sort(project: Seq<char>, ta: DateTimeSpec, pa: Seq<char>, tb: DateTimeSpec, pb: Seq<char>)
    requires
        ta.valid(),
        tb.valid(),
        0 <= ta.year <= 9999,
        0 <= tb.year <= 9999,
    ensures
        bytes_lt(encode_utf8(file_key_text(project, ta, pa)), encode_utf8(file_key_text(project, tb, pb))) == (
        datetime_before(ta, tb) || (ta == tb && bytes_lt(encode_utf8(pa), encode_utf8(pb)))),
{
    lemma_file_key_split(project, ta, pa);
    lemma_file_key_split(project, tb, pb);
    let h = encode_utf8("projects!"@ + project + "!"@);
    let ra = encode_utf8(ta.rfc3339());
    let rb = encode_utf8(tb.rfc3339());
    let xa = encode_utf8("!"@ + pa);
    let xb = encode_utf8("!"@ + pb);
    vstd::seq_lib::lemma_concat_associative(h, ra, xa);
    vstd::seq_lib::lemma_concat_associative(h, rb, xb);
    lemma_common_prefix_order(h, ra + xa, rb + xb);
    law_datetime_keys_sort(ta, tb);
    lemma_rfc3339_injective(ta, tb);
    if ta == tb {
        lemma_common_prefix_order(ra, xa, xb);
        reveal_strlit("!");
        lemma_encode_utf8_concat("!"@, pa);
        lemma_encode_utf8_concat("!"@, pb);
        lemma_common_prefix_order(encode_utf8("!"@), encode_utf8(pa), encode_utf8(pb));
    } else {
        lemma_rfc3339_no_prefix(ta, tb);
        lemma_rfc3339_no_prefix(tb, ta);
        lemma_no_prefix_order(ra, xa, rb, xb);
    }
}

/// Reading a project's records from the key of a point in time onwards:
/// the key of a file's record sorts before the key that starts the scan at
/// `start` exactly when the file was recorded by an earlier scan.
pub proof fn law_scan_start_seek(project: Seq<char>, t: DateTimeSpec, path: Seq<char>, start: DateTimeSpec)
    requires
        t.valid(),
        start.valid(),
        0 <= t.year <= 9999,
        0 <= start.year <= 9999,
    ensures
        bytes_lt(encode_utf8(file_key_text(project, t, path)), encode_utf8(scan_start_text(project, start)))
            == datetime_before(t, start),
{
    lemma_file_key_split(project, t, path);
    lemma_file_key_split(project, start, path);
    let h = encode_utf8("projects!"@ + project + "!"@);
    let r = encode_utf8(t.rfc3339());
    let rs = encode_utf8(start.rfc3339());
    let x = encode_utf8("!"@ + path);
    vstd::seq_lib::lemma_concat_associative(h, r, x);
    assert(h + rs =~= h + (rs + Seq::<u8>::empty()));
    lemma_common_prefix_order(h, r + x, rs + Seq::<u8>::empty());
    law_datetime_keys_sort(t, start);
    lemma_rfc3339_injective(t, start);
    if t == start {
        reveal_strlit("!");
        lemma_encode_utf8_concat("!"@, path);
        lemma_common_prefix_order(r, x, Seq::<u8>::empty());
        assert(x.len() > 0) by {
            assert("!"@ == seq!['!']);
            assert(is_ascii_chars(seq!['!']));
            is_ascii_chars_encode_utf8(seq!['!']);
        }
        assert(!bytes_lt(x, Seq::<u8>::empty()));
    } else {
        lemma_rfc3339_no_prefix(t, start);
        lemma_rfc3339_no_prefix(start, t);
        lemma_no_prefix_order(r, x, rs, Seq::<u8>::empty());
        assert(rs + Seq::<u8>::empty() =~= rs);
    }
}

/// The key of a date is the first key of its day: it is a valid instant,
/// no date-time of that day sorts before it, and only the date-time at
/// 00:00:00 with no fraction has the same key.
pub proof fn law_date_key_starts_its_day(d: DateSpec, t: DateTimeSpec)
    requires
        d.valid(),
        t.valid(),
        0 <= d.year <= 9999,
        t.year == d.year,
        t.month == d.month,
        t.day == d.day,
    ensures
        midnight(d).valid(),
        !bytes_lt(encode_utf8(t.rfc3339()), encode_utf8(midnight(d).rfc3339())),
        (encode_utf8(t.rfc3339()) == encode_utf8(midnight(d).rfc3339())) == (t.hour == 0 && t.minute == 0
            && t.second == 0 && t.nano == 0),
{
    assert(midnight(d).valid());
    law_datetime_keys_sort(t, midnight(d));
    lemma_rfc3339_injective(t, midnight(d));
}

} // verus!
