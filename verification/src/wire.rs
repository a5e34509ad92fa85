//! Byte-sequence primitives for the wire protocol: trimming, separator
//! splitting, decimal rendering and decimal parsing, each with an exact
//! specification.

use vstd::prelude::*;
use vstd::utf8::valid_utf8;

verus! {

/// Every byte is ASCII.
pub open spec fn all_ascii(s: Seq<u8>) -> bool {
    forall|i: int| 0 <= i < s.len() ==> (#[trigger] s[i]) < 128
}

pub proof fn lemma_ascii_concat(a: Seq<u8>, b: Seq<u8>)
    requires
        all_ascii(a),
        all_ascii(b),
    ensures
        all_ascii(a + b),
{
    assert forall|i: int| 0 <= i < (a + b).len() implies (#[trigger] (a + b)[i]) < 128 by {
        if i < a.len() {
            assert((a + b)[i] == a[i]);
        } else {
            assert((a + b)[i] == b[i - a.len()]);
        }
    }
}

/// No byte equals the separator.
pub open spec fn sep_free(s: Seq<u8>, sep: u8) -> bool {
    forall|i: int| 0 <= i < s.len() ==> (#[trigger] s[i]) != sep
}

pub proof fn lemma_sep_free_concat(a: Seq<u8>, b: Seq<u8>, sep: u8)
    requires
        sep_free(a, sep),
        sep_free(b, sep),
    ensures
        sep_free(a + b, sep),
{
    assert forall|i: int| 0 <= i < (a + b).len() implies (#[trigger] (a + b)[i]) != sep by {
        if i < a.len() {
            assert((a + b)[i] == a[i]);
        } else {
            assert((a + b)[i] == b[i - a.len()]);
        }
    }
}

/// ASCII bytes are valid UTF-8: each byte is a one-byte scalar encoding.
pub proof fn lemma_ascii_valid_utf8(s: Seq<u8>)
    requires
        all_ascii(s),
    ensures
        valid_utf8(s),
    decreases s.len(),
{
    if s.len() > 0 {
        let b = s[0];
        assert(b < 128);
        assert((b & 0x7F) < 0xD800 && (b & 0x7F) >= 0) by (bit_vector);
        assert(vstd::utf8::length_of_first_scalar(s) == 1);
        assert(vstd::utf8::pop_first_scalar(s) =~= s.drop_first());
        assert(all_ascii(s.drop_first())) by {
            assert(forall|i: int|
                0 <= i < s.len() - 1 ==> #[trigger] s.drop_first()[i] == s[i + 1]);
        }
        lemma_ascii_valid_utf8(s.drop_first());
    }
}

/// `s` with every trailing occurrence of `b` removed.
pub open spec fn strip_trailing(s: Seq<u8>, b: u8) -> Seq<u8>
    decreases s.len(),
{
    if s.len() > 0 && s.last() == b {
        strip_trailing(s.drop_last(), b)
    } else {
        s
    }
}

/// `s` with every leading occurrence of `b` removed.
pub open spec fn strip_leading(s: Seq<u8>, b: u8) -> Seq<u8>
    decreases s.len(),
{
    if s.len() > 0 && s.first() == b {
        strip_leading(s.drop_first(), b)
    } else {
        s
    }
}

/// Split on a separator byte, exactly as `str::split` does on a one-byte
/// pattern: the result always has one more field than there are separators,
/// and an empty input yields one empty field.
pub open spec fn split_bytes(s: Seq<u8>, sep: u8) -> Seq<Seq<u8>>
    decreases s.len(),
{
    if s.len() == 0 {
        seq![Seq::<u8>::empty()]
    } else if s.first() == sep {
        seq![Seq::<u8>::empty()] + split_bytes(s.drop_first(), sep)
    } else {
        let rest = split_bytes(s.drop_first(), sep);
        seq![seq![s.first()] + rest.first()] + rest.drop_first()
    }
}

pub proof fn lemma_split_len(s: Seq<u8>, sep: u8)
    ensures
        split_bytes(s, sep).len() >= 1,
    decreases s.len(),
{
    if s.len() > 0 {
        lemma_split_len(s.drop_first(), sep);
    }
}

/// Splitting a concatenation at an explicit separator splits each side
/// independently.
pub proof fn lemma_split_append_sep(a: Seq<u8>, b: Seq<u8>, sep: u8)
    ensures
        split_bytes(a + seq![sep] + b, sep) == split_bytes(a, sep) + split_bytes(b, sep),
    decreases a.len(),
{
    lemma_split_len(b, sep);
    if a.len() == 0 {
        assert(a + seq![sep] + b =~= seq![sep] + b);
        assert((seq![sep] + b).first() == sep);
        assert((seq![sep] + b).drop_first() =~= b);
        assert(split_bytes(a, sep) + split_bytes(b, sep) =~= seq![Seq::<u8>::empty()]
            + split_bytes(b, sep));
    } else {
        let s = a + seq![sep] + b;
        assert(s.first() == a.first());
        assert(s.len() > 0 && s.first() != sep || s.first() == sep);
        assert(s.drop_first() =~= a.drop_first() + seq![sep] + b);
        lemma_split_append_sep(a.drop_first(), b, sep);
        lemma_split_len(a.drop_first(), sep);
        if a.first() == sep {
            assert(split_bytes(a, sep) =~= seq![Seq::<u8>::empty()] + split_bytes(
                a.drop_first(),
                sep,
            ));
            assert(split_bytes(s, sep) =~= split_bytes(a, sep) + split_bytes(b, sep));
        } else {
            let rest = split_bytes(s.drop_first(), sep);
            let arest = split_bytes(a.drop_first(), sep);
            assert(rest =~= arest + split_bytes(b, sep));
            assert(rest.first() == arest.first());
            assert(rest.drop_first() =~= arest.drop_first() + split_bytes(b, sep));
            assert(split_bytes(s, sep) =~= seq![seq![a.first()] + arest.first()]
                + arest.drop_first() + split_bytes(b, sep));
            assert(split_bytes(a, sep) =~= seq![seq![a.first()] + arest.first()]
                + arest.drop_first());
            assert(split_bytes(s, sep) =~= split_bytes(a, sep) + split_bytes(b, sep));
        }
    }
}

/// A sequence free of the separator splits into the single field that is the
/// sequence itself.
pub proof fn lemma_split_no_sep(a: Seq<u8>, sep: u8)
    requires
        forall|i: int| 0 <= i < a.len() ==> a[i] != sep,
    ensures
        split_bytes(a, sep) == seq![a],
    decreases a.len(),
{
    if a.len() == 0 {
        assert(split_bytes(a, sep) =~~= seq![a]);
    } else {
        lemma_split_no_sep(a.drop_first(), sep);
        let rest = split_bytes(a.drop_first(), sep);
        assert(rest == seq![a.drop_first()]);
        assert(seq![a.first()] + a.drop_first() =~= a);
        assert(rest.drop_first() =~= Seq::<Seq<u8>>::empty());
        assert(split_bytes(a, sep) =~~= seq![a]);
    }
}

/// Copy of `s[a..b]`.
pub fn sub_vec(s: &Vec<u8>, a: usize, b: usize) -> (r: Vec<u8>)
    requires
        a <= b <= s.len(),
    ensures
        r@ == s@.subrange(a as int, b as int),
{
    let mut r: Vec<u8> = Vec::new();
    let mut i: usize = a;
    while i < b
        invariant
            a <= i <= b <= s.len(),
            r@ == s@.subrange(a as int, i as int),
        decreases b - i,
    {
        r.push(s[i]);
        i = i + 1;
        assert(r@ =~= s@.subrange(a as int, i as int));
    }
    r
}

/// Append every byte of `src` to `dst`.
pub fn push_all(dst: &mut Vec<u8>, src: &Vec<u8>)
    ensures
        final(dst)@ == old(dst)@ + src@,
{
    let mut i: usize = 0;
    while i < src.len()
        invariant
            i <= src.len(),
            dst@ == old(dst)@ + src@.subrange(0, i as int),
        decreases src.len() - i,
    {
        dst.push(src[i]);
        i = i + 1;
        assert(dst@ =~= old(dst)@ + src@.subrange(0, i as int));
    }
    assert(dst@ =~= old(dst)@ + src@);
}

/// Byte-for-byte equality of two vectors.
pub fn bytes_eq(a: &Vec<u8>, b: &Vec<u8>) -> (r: bool)
    ensures
        r <==> a@ == b@,
{
    if a.len() != b.len() {
        assert(a@ != b@) by {
            assert(a@.len() != b@.len());
        }
        return false;
    }
    let mut i: usize = 0;
    while i < a.len()
        invariant
            i <= a.len(),
            a@.len() == b@.len(),
            forall|j: int| 0 <= j < i ==> a@[j] == b@[j],
        decreases a.len() - i,
    {
        if a[i] != b[i] {
            assert(a@ != b@);
            return false;
        }
        i = i + 1;
    }
    assert(a@ =~= b@);
    true
}

/// Remove every trailing occurrence of `b`.
pub fn strip_trailing_byte(s: &Vec<u8>, b: u8) -> (r: Vec<u8>)
    ensures
        r@ == strip_trailing(s@, b),
{
    let mut k: usize = s.len();
    assert(s@.subrange(0, k as int) =~= s@);
    while k > 0 && s[k - 1] == b
        invariant
            k <= s.len(),
            strip_trailing(s@, b) == strip_trailing(s@.subrange(0, k as int), b),
        decreases k,
    {
        assert(s@.subrange(0, k as int).last() == s@[k - 1]);
        assert(s@.subrange(0, k as int).drop_last() =~= s@.subrange(0, k as int - 1));
        k = k - 1;
    }
    assert(s@.subrange(0, k as int) =~= strip_trailing(s@.subrange(0, k as int), b));
    sub_vec(s, 0, k)
}

/// Remove every leading occurrence of `b`.
pub fn strip_leading_byte(s: &Vec<u8>, b: u8) -> (r: Vec<u8>)
    ensures
        r@ == strip_leading(s@, b),
{
    let mut k: usize = 0;
    assert(s@.subrange(0int, s@.len() as int) =~= s@);
    while k < s.len() && s[k] == b
        invariant
            k <= s.len(),
            strip_leading(s@, b) == strip_leading(s@.subrange(k as int, s@.len() as int), b),
        decreases s.len() - k,
    {
        assert(s@.subrange(k as int, s@.len() as int).first() == s@[k as int]);
        assert(s@.subrange(k as int, s@.len() as int).drop_first() =~= s@.subrange(
            k as int + 1,
            s@.len() as int,
        ));
        k = k + 1;
    }
    assert(s@.subrange(k as int, s@.len() as int) =~= strip_leading(
        s@.subrange(k as int, s@.len() as int),
        b,
    ));
    sub_vec(s, k, s.len())
}

/// An ASCII whitespace byte, as trimming of numeric fields removes.
pub open spec fn is_ascii_ws(b: u8) -> bool {
    b == 32 || b == 9 || b == 10 || b == 11 || b == 12 || b == 13
}

pub open spec fn strip_trailing_ws(s: Seq<u8>) -> Seq<u8>
    decreases s.len(),
{
    if s.len() > 0 && is_ascii_ws(s.last()) {
        strip_trailing_ws(s.drop_last())
    } else {
        s
    }
}

pub open spec fn strip_leading_ws(s: Seq<u8>) -> Seq<u8>
    decreases s.len(),
{
    if s.len() > 0 && is_ascii_ws(s.first()) {
        strip_leading_ws(s.drop_first())
    } else {
        s
    }
}

/// `s` with ASCII whitespace removed from both ends.
pub open spec fn trim_ws(s: Seq<u8>) -> Seq<u8> {
    strip_leading_ws(strip_trailing_ws(s))
}

/// Runtime test for [`is_ascii_ws`].
pub fn is_ws(b: u8) -> (r: bool)
    ensures
        r == is_ascii_ws(b),
{
    b == 32 || b == 9 || b == 10 || b == 11 || b == 12 || b == 13
}

/// Remove ASCII whitespace from both ends.
pub fn trim_bytes(s: &Vec<u8>) -> (r: Vec<u8>)
    ensures
        r@ == trim_ws(s@),
{
    let mut k: usize = s.len();
    assert(s@.subrange(0, k as int) =~= s@);
    while k > 0 && is_ws(s[k - 1])
        invariant
            k <= s.len(),
            strip_trailing_ws(s@) == strip_trailing_ws(s@.subrange(0, k as int)),
        decreases k,
    {
        assert(s@.subrange(0, k as int).last() == s@[k - 1]);
        assert(s@.subrange(0, k as int).drop_last() =~= s@.subrange(0, k as int - 1));
        k = k - 1;
    }
    assert(s@.subrange(0, k as int) =~= strip_trailing_ws(s@.subrange(0, k as int)));
    let ghost t = strip_trailing_ws(s@);
    let mut j: usize = 0;
    assert(t =~= s@.subrange(0, k as int));
    assert(t.subrange(0, t.len() as int) =~= t);
    while j < k && is_ws(s[j])
        invariant
            j <= k <= s.len(),
            t =~= s@.subrange(0, k as int),
            strip_leading_ws(t) == strip_leading_ws(t.subrange(j as int, t.len() as int)),
        decreases k - j,
    {
        assert(t.subrange(j as int, t.len() as int).first() == s@[j as int]);
        assert(t.subrange(j as int, t.len() as int).drop_first() =~= t.subrange(
            j as int + 1,
            t.len() as int,
        ));
        j = j + 1;
    }
    assert(t.subrange(j as int, t.len() as int) =~= strip_leading_ws(
        t.subrange(j as int, t.len() as int),
    ));
    let r = sub_vec(s, j, k);
    assert(r@ =~= t.subrange(j as int, t.len() as int));
    r
}

/// Split into fields on a separator byte, as `str::split` does.
pub fn split_on(s: &Vec<u8>, sep: u8) -> (r: Vec<Vec<u8>>)
    ensures
        r@.len() == split_bytes(s@, sep).len(),
        forall|k: int| 0 <= k < r@.len() ==> #[trigger] r@[k]@ == split_bytes(s@, sep)[k],
{
    let mut r: Vec<Vec<u8>> = Vec::new();
    let ghost mut gv: Seq<Seq<u8>> = Seq::empty();
    let mut start: usize = 0;
    let mut i: usize = 0;
    proof {
        assert(s@.subrange(0int, s@.len() as int) =~= s@);
    }
    while i < s.len()
        invariant
            start <= i <= s.len(),
            forall|k: int| start <= k < i ==> s@[k] != sep,
            gv.len() == r@.len(),
            forall|k: int| 0 <= k < gv.len() ==> #[trigger] r@[k]@ == gv[k],
            gv + split_bytes(s@.subrange(start as int, s@.len() as int), sep) == split_bytes(
                s@,
                sep,
            ),
        decreases s.len() - i,
    {
        if s[i] == sep {
            let field = sub_vec(s, start, i);
            proof {
                let rem = s@.subrange(start as int, s@.len() as int);
                let a = s@.subrange(start as int, i as int);
                let b = s@.subrange(i as int + 1, s@.len() as int);
                assert(rem =~= a + seq![sep] + b);
                lemma_split_no_sep(a, sep);
                lemma_split_append_sep(a, b, sep);
                assert(gv + (seq![a] + split_bytes(b, sep)) =~~= gv.push(a) + split_bytes(
                    b,
                    sep,
                ));
                gv = gv.push(a);
            }
            r.push(field);
            start = i + 1;
        }
        i = i + 1;
    }
    let last_field = sub_vec(s, start, s.len());
    proof {
        let a = s@.subrange(start as int, s@.len() as int);
        lemma_split_no_sep(a, sep);
        assert(gv + seq![a] =~~= gv.push(a));
        gv = gv.push(a);
    }
    r.push(last_field);
    r
}

/// The decimal digits of `n`, most significant first, no sign and no leading
/// zero (except for `n == 0` itself).
pub open spec fn dec_digits(n: nat) -> Seq<u8>
    decreases n,
{
    if n < 10 {
        seq![(48 + n) as u8]
    } else {
        dec_digits(n / 10).push((48 + n % 10) as u8)
    }
}

/// Decimal rendering of a signed value: a leading minus sign for negatives,
/// exactly as `{}` formatting renders an integer.
pub open spec fn int_digits(n: int) -> Seq<u8> {
    if n < 0 {
        seq![45u8] + dec_digits((-n) as nat)
    } else {
        dec_digits(n as nat)
    }
}

pub open spec fn is_dec_digit(b: u8) -> bool {
    48 <= b <= 57
}

pub open spec fn all_dec_digits(s: Seq<u8>) -> bool {
    forall|i: int| 0 <= i < s.len() ==> is_dec_digit(#[trigger] s[i])
}

/// Numeric value of a digit string, most significant digit first.
pub open spec fn dec_value(s: Seq<u8>) -> int
    decreases s.len(),
{
    if s.len() == 0 {
        0
    } else {
        dec_value(s.drop_last()) * 10 + (s.last() - 48)
    }
}

/// What `str::parse::<i32>` accepts: an optional sign, then one or more
/// decimal digits, with the value in range for `i32`.
pub open spec fn parse_i32_spec(s: Seq<u8>) -> Option<i32> {
    let mag = if s.len() > 0 && (s.first() == 43 || s.first() == 45) {
        s.drop_first()
    } else {
        s
    };
    let neg = s.len() > 0 && s.first() == 45;
    if mag.len() == 0 || !all_dec_digits(mag) {
        None
    } else {
        let v = if neg {
            -dec_value(mag)
        } else {
            dec_value(mag)
        };
        if i32::MIN <= v <= i32::MAX {
            Some(v as i32)
        } else {
            None
        }
    }
}

pub proof fn lemma_dec_digits_are_digits(n: nat)
    ensures
        all_dec_digits(dec_digits(n)),
        dec_digits(n).len() >= 1,
    decreases n,
{
    if n >= 10 {
        lemma_dec_digits_are_digits(n / 10);
        assert forall|i: int| 0 <= i < dec_digits(n).len() implies is_dec_digit(
            #[trigger] dec_digits(n)[i],
        ) by {
            if i < dec_digits(n).len() - 1 {
                assert(dec_digits(n)[i] == dec_digits(n / 10)[i]);
            }
        }
    }
}

pub proof fn lemma_dec_value_of_digits(n: nat)
    ensures
        dec_value(dec_digits(n)) == n,
    decreases n,
{
    if n < 10 {
        let d = dec_digits(n);
        assert(d =~= seq![(48 + n) as u8]);
        assert(d.drop_last() =~= Seq::<u8>::empty());
        assert(dec_value(d.drop_last()) == 0);
        assert((48 + n) as u8 == 48 + n);
        assert(dec_value(d) == dec_value(d.drop_last()) * 10 + (d.last() - 48));
    } else {
        lemma_dec_value_of_digits(n / 10);
        assert(dec_digits(n).drop_last() =~= dec_digits(n / 10));
        assert(n % 10 < 10);
        assert((48 + n % 10) as u8 == 48 + n % 10);
        assert(dec_digits(n).last() == (48 + n % 10) as u8);
        assert(dec_value(dec_digits(n)) == (n / 10) * 10 + n % 10);
        assert((n / 10) * 10 + n % 10 == n);
    }
}

pub proof fn lemma_dec_value_nonneg(s: Seq<u8>)
    requires
        all_dec_digits(s),
    ensures
        dec_value(s) >= 0,
    decreases s.len(),
{
    if s.len() > 0 {
        assert(all_dec_digits(s.drop_last())) by {
            assert(forall|i: int|
                0 <= i < s.len() - 1 ==> #[trigger] s.drop_last()[i] == s[i]);
        }
        lemma_dec_value_nonneg(s.drop_last());
    }
}

/// Every byte of a rendered integer is a digit or the leading minus sign,
/// and the first byte of the digit part is a digit.
pub proof fn lemma_int_digits_byte_range(n: int)
    ensures
        int_digits(n).len() >= 1,
        forall|i: int|
            0 <= i < int_digits(n).len() ==> ((#[trigger] int_digits(n)[i]) == 45
                || is_dec_digit(int_digits(n)[i])),
        is_dec_digit(int_digits(n).first()) || n < 0,
        int_digits(n).last() != 45,
{
    if n < 0 {
        lemma_dec_digits_are_digits((-n) as nat);
        assert(forall|i: int|
            0 <= i < dec_digits((-n) as nat).len() ==> #[trigger] int_digits(n)[i + 1]
                == dec_digits((-n) as nat)[i]);
        assert(int_digits(n).last() == dec_digits((-n) as nat).last());
        assert(is_dec_digit(dec_digits((-n) as nat).last()));
    } else {
        lemma_dec_digits_are_digits(n as nat);
    }
}

/// Parsing inverts rendering: the decimal text of an in-range value parses
/// back to that value.
pub proof fn lemma_parse_int_digits(v: int)
    requires
        i32::MIN <= v <= i32::MAX,
    ensures
        parse_i32_spec(int_digits(v)) == Some(v as i32),
{
    if v >= 0 {
        let s = int_digits(v);
        lemma_dec_digits_are_digits(v as nat);
        lemma_dec_value_of_digits(v as nat);
        assert(is_dec_digit(s.first()));
        assert(s.first() != 43 && s.first() != 45);
    } else {
        let s = int_digits(v);
        let m = dec_digits((-v) as nat);
        lemma_dec_digits_are_digits((-v) as nat);
        lemma_dec_value_of_digits((-v) as nat);
        assert(s.first() == 45);
        assert(s.drop_first() =~= m);
        assert(dec_value(m) == (-v) as nat);
    }
}

pub open spec fn pow10(k: nat) -> nat
    decreases k,
{
    if k == 0 {
        1
    } else {
        10 * pow10((k - 1) as nat)
    }
}

/// A value below `10^k` renders in at most `k` digits.
pub proof fn lemma_dec_digits_len(n: nat, k: nat)
    requires
        k >= 1,
        n < pow10(k),
    ensures
        dec_digits(n).len() <= k,
    decreases k,
{
    if n >= 10 {
        assert(pow10(0) == 1);
        assert(pow10(1) == 10);
        if k == 1 {
            assert(false);
        }
        let p = pow10((k - 1) as nat);
        assert(pow10(k) == 10 * p);
        assert(n / 10 < p) by {
            if n / 10 >= p {
                assert(n == 10 * (n / 10) + n % 10);
                assert(10 * (n / 10) >= 10 * p) by (nonlinear_arith)
                    requires
                        n / 10 >= p,
                ;
            }
        }
        lemma_dec_digits_len(n / 10, (k - 1) as nat);
    }
}

/// A signed value of magnitude below `10^k` renders in at most `k + 1`
/// bytes, sign included.
pub proof fn lemma_int_digits_len(n: int, k: nat)
    requires
        k >= 1,
        -pow10(k) < n < pow10(k),
    ensures
        int_digits(n).len() <= k + 1,
{
    if n < 0 {
        lemma_dec_digits_len((-n) as nat, k);
    } else {
        lemma_dec_digits_len(n as nat, k);
    }
}

/// Render an unsigned value in decimal.
pub fn u32_to_dec(n: u32) -> (r: Vec<u8>)
    ensures
        r@ == dec_digits(n as nat),
    decreases n,
{
    let mut r: Vec<u8>;
    if n < 10 {
        r = Vec::new();
        r.push(48 + n as u8);
        assert(r@ =~= dec_digits(n as nat));
    } else {
        r = u32_to_dec(n / 10);
        r.push(48 + (n % 10) as u8);
        assert(r@ =~= dec_digits(n as nat));
    }
    r
}

/// Render a signed value in decimal, as `{}` formatting does.
pub fn i32_to_dec(n: i32) -> (r: Vec<u8>)
    ensures
        r@ == int_digits(n as int),
{
    if n >= 0 {
        u32_to_dec(n as u32)
    } else {
        let m: u32 = ((-(n as i64)) as u32);
        let digits = u32_to_dec(m);
        let mut r: Vec<u8> = Vec::new();
        r.push(45);
        push_all(&mut r, &digits);
        assert(r@ =~= seq![45u8] + dec_digits(m as nat));
        r
    }
}

/// Parse a decimal `i32` exactly as `str::parse::<i32>` does.
pub fn parse_i32(s: &Vec<u8>) -> (r: Option<i32>)
    ensures
        r == parse_i32_spec(s@),
{
    let ghost whole = s@;
    let mut j: usize = 0;
    let mut neg: bool = false;
    if s.len() > 0 && (s[0] == 43 || s[0] == 45) {
        neg = s[0] == 45;
        j = 1;
    }
    let ghost mag = if whole.len() > 0 && (whole.first() == 43 || whole.first() == 45) {
        whole.drop_first()
    } else {
        whole
    };
    if j >= s.len() {
        assert(mag.len() == 0);
        return None;
    }
    assert(mag =~= whole.subrange(j as int, whole.len() as int));
    // `acc` tracks the magnitude, clamped just above the `i32` range so that
    // overflow is detected without overflowing the accumulator itself.
    let big: u64 = 2147483649;
    let mut acc: u64 = 0;
    let mut i: usize = j;
    while i < s.len()
        invariant
            j <= i <= s.len(),
            j <= 1,
            s@ == whole,
            mag == (if whole.len() > 0 && (whole.first() == 43 || whole.first() == 45) {
                whole.drop_first()
            } else {
                whole
            }),
            neg == (whole.len() > 0 && whole.first() == 45),
            mag =~= whole.subrange(j as int, whole.len() as int),
            big == 2147483649,
            all_dec_digits(whole.subrange(j as int, i as int)),
            acc == if dec_value(whole.subrange(j as int, i as int)) <= big as int {
                dec_value(whole.subrange(j as int, i as int))
            } else {
                big as int
            },
        decreases s.len() - i,
    {
        let ghost pfx = whole.subrange(j as int, i as int);
        proof {
            lemma_dec_value_nonneg(pfx);
        }
        let b = s[i];
        if b < 48 || b > 57 {
            assert(mag[i as int - j as int] == b);
            assert(!is_dec_digit(mag[i as int - j as int]));
            assert(!all_dec_digits(mag));
            return None;
        }
        let d: u64 = (b - 48) as u64;
        let t: u64 = acc * 10 + d;
        acc = if t > big {
            big
        } else {
            t
        };
        i = i + 1;
        proof {
            let pfx2 = whole.subrange(j as int, i as int);
            assert(pfx2.drop_last() =~= pfx);
            assert(pfx2.last() == b);
            assert(all_dec_digits(pfx2)) by {
                assert(forall|k: int|
                    0 <= k < pfx2.len() - 1 ==> pfx2[k] == pfx[k]);
            }
            assert(dec_value(pfx2) == dec_value(pfx) * 10 + (b - 48));
        }
    }
    assert(mag =~= whole.subrange(j as int, s@.len() as int));
    assert(all_dec_digits(mag));
    proof {
        lemma_dec_value_nonneg(mag);
    }
    if neg {
        if acc <= 2147483648 {
            assert(acc == dec_value(mag));
            Some((-(acc as i64)) as i32)
        } else {
            assert(dec_value(mag) > 2147483648);
            None
        }
    } else {
        if acc <= 2147483647 {
            assert(acc == dec_value(mag));
            Some(acc as i32)
        } else {
            assert(dec_value(mag) > 2147483647);
            None
        }
    }
}

} // verus!
